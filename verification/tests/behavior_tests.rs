use edu_json_parser::{parse_json, ErrorCause, Node, Number};
use smol_str::SmolStr;

const EPSILON: f64 = 0.00001;

fn beh_to_f64(n: &Number) -> f64 {
    let mut acc: f64 = 0.0;
    if !(n.int_digits.len() == 1 && n.int_digits[0] == 0) {
        let mut l: u64 = 0;
        for &d in n.int_digits.iter() {
            l = l * 10 + d as u64;
        }
        acc = l as f64;
    }
    let mut divider: f64 = 1.0;
    for &d in n.frac_digits.iter() {
        divider /= 10.0;
        acc += d as f64 * divider;
    }
    if n.exp_digits.len() > 0 {
        let mut e: u64 = 0;
        for &d in n.exp_digits.iter() {
            e = e * 10 + d as u64;
        }
        let sign: f64 = if n.exp_negative { -1.0 } else { 1.0 };
        acc *= 10.0f64.powf(sign * e as f64);
    }
    if n.negative {
        -acc
    } else {
        acc
    }
}

#[test]
fn parsing_twice_gives_equal_trees() {
    let text = r#"{"a": [1, true, "x\tb"], "b": null, "c": 1.5e-3}"#;
    let first = parse_json(text).unwrap();
    let second = parse_json(text).unwrap();
    assert_eq!(first, second);
}

#[test]
fn scalar_documents_parse_exactly() {
    assert_eq!(Ok(Node::Null), parse_json("null"));
    assert_eq!(Ok(Node::Boolean(true)), parse_json("true"));
    assert_eq!(Ok(Node::String(SmolStr::from(""))), parse_json("\"\""));
    let zero = Number {
        negative: false,
        int_digits: vec![0],
        frac_digits: vec![],
        exp_negative: false,
        exp_digits: vec![],
    };
    assert_eq!(Ok(Node::Number(zero)), parse_json("0"));
}

#[test]
fn broken_documents_are_refused() {
    assert!(parse_json("01").is_err());
    assert!(parse_json("[1,2,]").is_err());
    assert!(parse_json("{} extra").is_err());
    assert!(parse_json(r#""bad\x""#).is_err());
}

#[test]
fn more_broken_documents_are_refused() {
    assert!(parse_json("").is_err());
    assert!(parse_json("   ").is_err());
    assert!(parse_json("tru").is_err());
    assert!(parse_json("-").is_err());
    assert!(parse_json("1.").is_err());
    assert!(parse_json("1e").is_err());
    assert!(parse_json("1e+").is_err());
    assert!(parse_json("[1").is_err());
    assert!(parse_json("[,]").is_err());
    assert!(parse_json("{\"a\":}").is_err());
    assert!(parse_json("{\"a\" 1}").is_err());
    assert!(parse_json("{\"a\":1,}").is_err());
    assert!(parse_json("\"unterminated").is_err());
    assert!(parse_json("\"raw\ttab\"").is_err());
}

#[test]
fn equivalent_number_spellings_agree_within_epsilon() {
    let a = beh_to_f64(&parse_json("1.23767E+2").unwrap().as_number().unwrap());
    let b = beh_to_f64(&parse_json("1.23767E2").unwrap().as_number().unwrap());
    let c = beh_to_f64(&parse_json("1237.67e-1").unwrap().as_number().unwrap());
    assert!((a - 123.767).abs() < EPSILON);
    assert!((b - 123.767).abs() < EPSILON);
    assert!((c - 123.767).abs() < EPSILON);
    assert_eq!(parse_json("1.23767E+2"), parse_json("1.23767E2"));
}

#[test]
fn duplicate_keys_keep_the_last_value() {
    let obj = parse_json(r#"{"a":1,"a":2}"#).unwrap();
    assert_eq!(1, obj.len());
    let n = obj.get_number("a").unwrap();
    assert_eq!(vec![2u8], n.int_digits);
    assert_eq!(2.0, beh_to_f64(&n));
}

#[test]
fn get_as_string_coerces_scalars_and_refuses_strings() {
    let obj = parse_json(r#"{"f": false, "n": null, "ten": 10, "s": "ten"}"#).unwrap();
    assert_eq!(Ok("false".to_string()), obj.get_as_string("f"));
    assert_eq!(Ok("null".to_string()), obj.get_as_string("n"));
    assert_eq!(Ok("10".to_string()), obj.get_as_string("ten"));
    assert_eq!(
        Err(ErrorCause::WrongTypeRequested("s".to_string(), "as string")),
        obj.get_as_string("s")
    );
}

#[test]
fn numbers_write_back_in_canonical_form() {
    let obj = parse_json(r#"{"a": -12.50E+3, "b": 7E-2, "c": 0.5}"#).unwrap();
    assert_eq!(Ok("-12.50e3".to_string()), obj.get_as_string("a"));
    assert_eq!(Ok("7e-2".to_string()), obj.get_as_string("b"));
    assert_eq!(Ok("0.5".to_string()), obj.get_as_string("c"));
}

#[test]
fn accessor_errors_have_the_promised_shape() {
    let obj = parse_json(r#"{"a": [10, 20]}"#).unwrap();
    assert_eq!(Err(ErrorCause::NodeIsNotArray), obj.get_element_at(0));
    let arr = obj.get("a").unwrap();
    assert_eq!(Err(ErrorCause::IndexOutOfBound(2)), arr.get_element_at(2));
    assert_eq!(Err(ErrorCause::IndexOutOfBound(7)), arr.get_element_at(7));
    assert_eq!(
        Err(ErrorCause::FieldNotExist("missing".to_string())),
        obj.get("missing").map(|n| n.is_null())
    );
    assert_eq!(Err(ErrorCause::NodeIsNotDictionary), arr.get("a").map(|n| n.is_null()));
    assert_eq!(
        Err(ErrorCause::WrongTypeRequested("a".to_string(), "bool")),
        obj.get_bool("a")
    );
    assert_eq!(
        Err(ErrorCause::WrongTypeRequested("a".to_string(), "number")),
        obj.get_number("a")
    );
    assert_eq!(
        Err(ErrorCause::WrongTypeRequested("a".to_string(), "string")),
        obj.get_string("a").map(|s| s.to_string())
    );
}

#[test]
fn error_causes_write_out_their_messages() {
    assert_eq!(
        "Field with a name 'x' do not exist",
        ErrorCause::FieldNotExist("x".to_string()).to_string()
    );
    assert_eq!(
        "Trying to look at field 'x' like it was of a type `bool`, but found something other instead",
        ErrorCause::WrongTypeRequested("x".to_string(), "bool").to_string()
    );
    assert_eq!("Index 12 is out of bounds", ErrorCause::IndexOutOfBound(12).to_string());
    assert_eq!(
        "Trying to work with a node like it was an array, but it didn't",
        ErrorCause::NodeIsNotArray.to_string()
    );
    assert_eq!(
        "Trying to work with a node like it was a dictionary, but it didn't",
        ErrorCause::NodeIsNotDictionary.to_string()
    );
}

#[test]
fn nested_structures_come_back_whole() {
    let root = parse_json(r#"[1,[1,false,"say"],"say"]"#).unwrap();
    assert!(root.is_array());
    assert_eq!(3, root.len());
    let inner = root.get_element_at(1).unwrap();
    assert!(inner.is_array());
    assert_eq!(3, inner.len());
    let one = Number {
        negative: false,
        int_digits: vec![1],
        frac_digits: vec![],
        exp_negative: false,
        exp_digits: vec![],
    };
    assert_eq!(Ok(Node::Number(one)), inner.get_element_at(0));
    assert_eq!(Ok(Node::Boolean(false)), inner.get_element_at(1));
    assert_eq!(Ok(Node::String(SmolStr::from("say"))), inner.get_element_at(2));
}

#[test]
fn unicode_escapes_decode_as_hex() {
    assert_eq!(Ok(Node::String(SmolStr::from("A"))), parse_json(r#""\u0041""#));
    assert_eq!(Ok(Node::String(SmolStr::from("Az"))), parse_json(r#""\u0041z""#));
    assert_eq!(
        Ok(Node::String(SmolStr::from("\u{1234}"))),
        parse_json(r#""\u1234""#)
    );
    assert!(parse_json(r#""\u12""#).is_err());
    assert!(parse_json(r#""\u12g4""#).is_err());
}

#[test]
fn lone_surrogate_escapes_write_nothing() {
    assert_eq!(Ok(Node::String(SmolStr::from("ab"))), parse_json(r#""a\uD800b""#));
    assert_eq!(Ok(Node::String(SmolStr::from(""))), parse_json(r#""\udfff""#));
}

#[test]
fn whitespace_around_tokens_is_skipped() {
    let node = parse_json(" \t\r\n [ 1 , { \"k\" : null } ] \t ").unwrap();
    assert!(node.is_array());
    assert_eq!(2, node.len());
    assert!(node.at(1).index("k").is_null());
    assert!(node.at(1).get("k").unwrap().is_null());
}

#[test]
fn long_strings_and_short_strings_round_trip() {
    let short = parse_json(r#""abc""#).unwrap();
    assert_eq!(Some(SmolStr::from("abc")), short.as_string());
    let long_text = "a long text that does not fit any inline buffer at all";
    let doc = format!("\"{}\"", long_text);
    let long = parse_json(&doc).unwrap();
    assert_eq!(Some(SmolStr::from(long_text)), long.as_string());
}

#[test]
fn deep_nesting_parses() {
    let node = parse_json("[[[[[[[[ {\"a\": [0]} ]]]]]]]]").unwrap();
    assert!(node.is_array());
}
