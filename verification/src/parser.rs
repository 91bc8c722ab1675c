use vstd::prelude::*;
use vstd::string::StringExecFns;
use smol_str::SmolStr;
use crate::grammar::{
    array_at, digit_vals, digits_end, document, elements_at, escape_of, hex4_value, hex_value,
    is_digit, is_hex, is_ws, lemma_digits_end_ge, lemma_upsert_split, members_at, number_at,
    object_at, skip_ws, string_at, string_body_at, upsert, value_at,
};
use crate::node::{entry_values, node_values, Node, Number, Value};
use crate::text::{
    char_from_u32, chars_of_smol, chars_of_str, push_char, push_decimal, smol_as_str,
    smol_from_str, str_eq,
};

verus! {

broadcast use vstd::utf8::char_u32_cast;

/// Where a parse stopped and what it was looking for there.
pub(crate) struct ParseFault {
    pub at: usize,
    pub what: &'static str,
}

/// Is `c` JSON whitespace?
fn is_ws_char(c: char) -> (r: bool)
    ensures
        r == is_ws(c),
{
    c == ' ' || c == '\t' || c == '\r' || c == '\n'
}

/// Is `c` a decimal digit?
fn is_digit_char(c: char) -> (r: bool)
    ensures
        r == is_digit(c),
{
    let u = c as u32;
    48 <= u && u <= 57
}

/// Is `c` a hexadecimal digit?
fn is_hex_char(c: char) -> (r: bool)
    ensures
        r == is_hex(c),
{
    let u = c as u32;
    (48 <= u && u <= 57) || (97 <= u && u <= 102) || (65 <= u && u <= 70)
}

/// The value of a hexadecimal digit.
fn hex_char_value(c: char) -> (v: u32)
    requires
        is_hex(c),
    ensures
        v as int == hex_value(c),
        v <= 15,
{
    let u = c as u32;
    if u <= 57 {
        u - 48
    } else if u >= 97 {
        u - 87
    } else {
        u - 55
    }
}

/// What a single-character escape stands for.
fn escape_char(c: char) -> (r: Option<char>)
    ensures
        r == escape_of(c),
{
    if c == '"' {
        Some('"')
    } else if c == '\\' {
        Some('\\')
    } else if c == '/' {
        Some('/')
    } else if c == 'n' {
        Some('\n')
    } else if c == 't' {
        Some('\t')
    } else if c == 'r' {
        Some('\r')
    } else if c == 'f' {
        Some('\u{000c}')
    } else if c == 'b' {
        Some('\u{0008}')
    } else {
        None
    }
}

/// Moves past whitespace.
fn skip_whitespace(s: &Vec<char>, i: usize) -> (j: usize)
    requires
        i <= s@.len(),
    ensures
        j as int == skip_ws(s@, i as int),
        i <= j <= s@.len(),
{
    let mut j = i;
    while j < s.len() && is_ws_char(s[j])
        invariant
            i <= j <= s@.len(),
            skip_ws(s@, i as int) == skip_ws(s@, j as int),
        decreases s@.len() - j,
    {
        j = j + 1;
    }
    j
}

/// Moves past digits.
fn scan_digits(s: &Vec<char>, i: usize) -> (j: usize)
    requires
        i <= s@.len(),
    ensures
        j as int == digits_end(s@, i as int),
        i <= j <= s@.len(),
        forall|k: int| i <= k < j ==> is_digit(s@[k]),
{
    let mut j = i;
    while j < s.len() && is_digit_char(s[j])
        invariant
            i <= j <= s@.len(),
            digits_end(s@, i as int) == digits_end(s@, j as int),
            forall|k: int| i <= k < j ==> is_digit(s@[k]),
        decreases s@.len() - j,
    {
        j = j + 1;
    }
    j
}

/// The digit values written between `i` and `j`.
fn collect_digits(s: &Vec<char>, i: usize, j: usize) -> (ds: Vec<u8>)
    requires
        i <= j <= s@.len(),
        forall|k: int| i <= k < j ==> is_digit(s@[k]),
    ensures
        ds@ == digit_vals(s@, i as int, j as int),
{
    let mut ds: Vec<u8> = Vec::new();
    let mut k = i;
    while k < j
        invariant
            i <= k <= j <= s@.len(),
            forall|m: int| i <= m < j ==> is_digit(s@[m]),
            ds@ == digit_vals(s@, i as int, k as int),
        decreases j - k,
    {
        let u = s[k] as u32;
        ds.push((u - 48) as u8);
        assert(ds@ =~= digit_vals(s@, i as int, (k + 1) as int));
        k = k + 1;
    }
    ds
}

/// Reads a quoted string literal and decodes its escapes.
#[verifier::loop_isolation(false)]
#[verifier::rlimit(60)]
fn parse_string_text(s: &Vec<char>, i: usize) -> (r: Result<(String, usize), ParseFault>)
    requires
        i <= s@.len(),
    ensures
        r matches Ok((t, j)) ==> string_at(s@, i as int) == Some((t@, j as int)) && i < j
            <= s@.len(),
        r is Err ==> string_at(s@, i as int) is None,
{
    if !(i < s.len() && s[i] == '"') {
        return Err(ParseFault { at: i, what: "an opening quote" });
    }
    let mut out = String::new();
    let mut p = i + 1;
    while p < s.len()
        invariant
            i + 1 <= p <= s@.len(),
            match string_body_at(s@, p as int) {
                Some((t, e)) => string_body_at(s@, i + 1 as int) == Some((out@ + t, e)),
                None => string_body_at(s@, i + 1 as int) is None,
            },
        decreases s@.len() - p,
    {
        let c = s[p];
        if c == '"' {
            proof {
                assert(out@ + Seq::<char>::empty() =~= out@);
            }
            return Ok((out, p + 1));
        } else if c == '\\' {
            if p + 1 >= s.len() {
                return Err(ParseFault { at: p, what: "an escape before the end" });
            }
            let e = s[p + 1];
            if e == 'u' {
                if !(s.len() - p >= 6 && is_hex_char(s[p + 2]) && is_hex_char(s[p + 3])
                    && is_hex_char(s[p + 4]) && is_hex_char(s[p + 5])) {
                    return Err(ParseFault { at: p, what: "four hex digits" });
                }
                let u: u32 = 4096 * hex_char_value(s[p + 2]) + 256 * hex_char_value(s[p + 3]) + 16
                    * hex_char_value(s[p + 4]) + hex_char_value(s[p + 5]);
                let ghost q = p as int;
                assert(u as int == hex4_value(s@, q + 2));
                match char_from_u32(u) {
                    Some(ch) => {
                        proof {
                            vstd::utf8::char_u32_cast(ch, u);
                            assert(((u as int) as u32) == u);
                            assert(ch == ((u as int) as u32) as char);
                            match string_body_at(s@, q + 6) {
                                Some(pr) => {
                                    assert(out@.push(ch) + pr.0 =~= out@ + (seq![ch] + pr.0));
                                },
                                None => {},
                            }
                        }
                        push_char(&mut out, ch);
                    },
                    None => {
                    },
                }
                p = p + 6;
            } else {
                match escape_char(e) {
                    None => {
                        return Err(ParseFault { at: p + 1, what: "a known escape" });
                    },
                    Some(d) => {
                        let ghost q = p as int;
                        proof {
                            match string_body_at(s@, q + 2) {
                                Some(pr) => {
                                    assert(out@.push(d) + pr.0 =~= out@ + (seq![d] + pr.0));
                                },
                                None => {},
                            }
                        }
                        push_char(&mut out, d);
                        p = p + 2;
                    },
                }
            }
        } else if c == '\n' || c == '\r' || c == '\t' {
            return Err(ParseFault { at: p, what: "no raw control character" });
        } else {
            let ghost q = p as int;
            proof {
                match string_body_at(s@, q + 1) {
                    Some(pr) => {
                        assert(out@.push(c) + pr.0 =~= out@ + (seq![c] + pr.0));
                    },
                    None => {},
                }
            }
            push_char(&mut out, c);
            p = p + 1;
        }
    }
    Err(ParseFault { at: p, what: "a closing quote" })
}

/// Reads a quoted string literal into the inline-friendly text type.
fn parse_string(s: &Vec<char>, i: usize) -> (r: Result<(SmolStr, usize), ParseFault>)
    requires
        i <= s@.len(),
    ensures
        r matches Ok((t, j)) ==> string_at(s@, i as int) == Some((chars_of_smol(t), j as int)) && i
            < j <= s@.len(),
        r is Err ==> string_at(s@, i as int) is None,
{
    match parse_string_text(s, i) {
        Ok((t, j)) => Ok((smol_from_str(t.as_str()), j)),
        Err(f) => Err(f),
    }
}

/// Reads a number literal.
fn parse_number(s: &Vec<char>, i: usize) -> (r: Result<(Number, usize), ParseFault>)
    requires
        i <= s@.len(),
    ensures
        r matches Ok((n, j)) ==> number_at(s@, i as int) == Some((n.value(), j as int)) && i < j
            <= s@.len(),
        r is Err ==> number_at(s@, i as int) is None,
{
    let mut p = i;
    let mut negative = false;
    if p < s.len() && s[p] == '-' {
        negative = true;
        p = p + 1;
    }
    if !(p < s.len() && is_digit_char(s[p])) {
        return Err(ParseFault { at: p, what: "a digit" });
    }
    let int_digits: Vec<u8>;
    let p2: usize;
    if s[p] == '0' {
        let mut zero: Vec<u8> = Vec::new();
        zero.push(0);
        assert(zero@ =~= seq![0u8]);
        int_digits = zero;
        p2 = p + 1;
    } else {
        let e = scan_digits(s, p);
        proof {
            lemma_digits_end_ge(s@, p + 1 as int);
        }
        int_digits = collect_digits(s, p, e);
        p2 = e;
    }
    let frac_digits: Vec<u8>;
    let p3: usize;
    if p2 < s.len() && s[p2] == '.' {
        if p2 + 1 < s.len() && is_digit_char(s[p2 + 1]) {
            let e = scan_digits(s, p2 + 1);
            frac_digits = collect_digits(s, p2 + 1, e);
            p3 = e;
        } else {
            return Err(ParseFault { at: p2 + 1, what: "a digit after the point" });
        }
    } else {
        frac_digits = Vec::new();
        p3 = p2;
        assert(frac_digits@ =~= Seq::<u8>::empty());
    }
    if p3 < s.len() && (s[p3] == 'e' || s[p3] == 'E') {
        let mut exp_negative = false;
        let mut p4 = p3 + 1;
        if p4 < s.len() && s[p4] == '+' {
            p4 = p4 + 1;
        } else if p4 < s.len() && s[p4] == '-' {
            exp_negative = true;
            p4 = p4 + 1;
        }
        if p4 < s.len() && is_digit_char(s[p4]) {
            let e = scan_digits(s, p4);
            let exp_digits = collect_digits(s, p4, e);
            Ok(
                (
                    Number { negative, int_digits, frac_digits, exp_negative, exp_digits },
                    e,
                ),
            )
        } else {
            Err(ParseFault { at: p4, what: "a digit in the exponent" })
        }
    } else {
        let exp_digits: Vec<u8> = Vec::new();
        assert(exp_digits@ =~= Seq::<u8>::empty());
        Ok(
            (
                Number { negative, int_digits, frac_digits, exp_negative: false, exp_digits },
                p3,
            ),
        )
    }
}

/// Puts `val` under `key`: a present key keeps its place and takes the new
/// value, a new key goes to the end.
#[verifier::loop_isolation(false)]
fn object_insert(es: &mut Vec<(SmolStr, Node)>, key: SmolStr, val: Node)
    ensures
        entry_values(final(es)@) == upsert(
            entry_values(old(es)@),
            chars_of_smol(key),
            val.value(),
        ),
{
    let ghost evs = entry_values(es@);
    let ghost kv = (chars_of_smol(key), val.value());
    let mut idx: usize = 0;
    while idx < es.len()
        invariant
            idx <= es@.len(),
            evs == entry_values(es@),
            forall|j: int| 0 <= j < idx ==> evs[j].0 != chars_of_smol(key),
        decreases es@.len() - idx,
    {
        if str_eq(smol_as_str(&es[idx].0), smol_as_str(&key)) {
            proof {
                lemma_upsert_split(evs, chars_of_smol(key), val.value(), idx as int);
                assert(evs.skip(idx as int)[0].0 == chars_of_smol(key));
                assert(upsert(evs.skip(idx as int), chars_of_smol(key), val.value()) == seq![kv]
                    + evs.skip(idx as int).drop_first());
                assert(evs.take(idx as int) + (seq![kv] + evs.skip(idx as int).drop_first()) =~= evs.update(
                    idx as int,
                    kv,
                ));
            }
            es.set(idx, (key, val));
            assert(entry_values(es@) =~= evs.update(idx as int, kv));
            return ;
        }
        idx = idx + 1;
    }
    proof {
        lemma_upsert_split(evs, chars_of_smol(key), val.value(), evs.len() as int);
        assert(evs.skip(evs.len() as int) =~= Seq::<(Seq<char>, Value)>::empty());
        assert(evs.take(evs.len() as int) + seq![kv] =~= evs.push(kv));
    }
    es.push((key, val));
    assert(entry_values(es@) =~= evs.push(kv));
}

/// Reads one value, decided by its first character.
fn parse_value(s: &Vec<char>, i: usize) -> (r: Result<(Node, usize), ParseFault>)
    requires
        i <= s@.len(),
    ensures
        r matches Ok((n, j)) ==> value_at(s@, i as int) == Some((n.value(), j as int)) && i < j
            <= s@.len(),
        r is Err ==> value_at(s@, i as int) is None,
    decreases s@.len() - i, 2int,
{
    if i >= s.len() {
        return Err(ParseFault { at: i, what: "a value" });
    }
    let c = s[i];
    if c == 'n' {
        if s.len() - i >= 4 && s[i + 1] == 'u' && s[i + 2] == 'l' && s[i + 3] == 'l' {
            Ok((Node::Null, i + 4))
        } else {
            Err(ParseFault { at: i, what: "the word null" })
        }
    } else if c == 't' {
        if s.len() - i >= 4 && s[i + 1] == 'r' && s[i + 2] == 'u' && s[i + 3] == 'e' {
            Ok((Node::Boolean(true), i + 4))
        } else {
            Err(ParseFault { at: i, what: "the word true" })
        }
    } else if c == 'f' {
        if s.len() - i >= 5 && s[i + 1] == 'a' && s[i + 2] == 'l' && s[i + 3] == 's' && s[i + 4]
            == 'e' {
            Ok((Node::Boolean(false), i + 5))
        } else {
            Err(ParseFault { at: i, what: "the word false" })
        }
    } else if c == '-' || is_digit_char(c) {
        match parse_number(s, i) {
            Ok((n, j)) => Ok((Node::Number(n), j)),
            Err(f) => Err(f),
        }
    } else if c == '"' {
        match parse_string(s, i) {
            Ok((t, j)) => Ok((Node::String(t), j)),
            Err(f) => Err(f),
        }
    } else if c == '[' {
        parse_array(s, i)
    } else if c == '{' {
        parse_object(s, i)
    } else {
        Err(ParseFault { at: i, what: "a value" })
    }
}

/// Reads an array from its opening bracket.
#[verifier::loop_isolation(false)]
fn parse_array(s: &Vec<char>, i: usize) -> (r: Result<(Node, usize), ParseFault>)
    requires
        i <= s@.len(),
    ensures
        r matches Ok((n, j)) ==> array_at(s@, i as int) == Some((n.value(), j as int)) && i < j
            <= s@.len(),
        r is Err ==> array_at(s@, i as int) is None,
    decreases s@.len() - i, 1int,
{
    if !(i < s.len() && s[i] == '[') {
        return Err(ParseFault { at: i, what: "an array" });
    }
    let after_open = skip_whitespace(s, i + 1);
    if after_open < s.len() && s[after_open] == ']' {
        let empty_elems: Vec<Node> = Vec::new();
        assert(node_values(empty_elems@) =~= Seq::<Value>::empty());
        return Ok((Node::Array(empty_elems), after_open + 1));
    }
    let mut out: Vec<Node> = Vec::new();
    let mut p = i + 1;
    proof {
        assert(node_values(out@) =~= Seq::<Value>::empty());
    }
    while p < s.len()
        invariant
            i + 1 <= p <= s@.len(),
            elements_at(s@, i + 1 as int, Seq::empty()) == elements_at(
                s@,
                p as int,
                node_values(out@),
            ),
        decreases s@.len() - p,
    {
        let j2 = skip_whitespace(s, p);
        match parse_value(s, j2) {
            Err(f) => {
                return Err(f);
            },
            Ok((n, k)) => {
                let m = skip_whitespace(s, k);
                let ghost prev = out@;
                if m < s.len() && s[m] == ',' {
                    out.push(n);
                    assert(node_values(out@) =~= node_values(prev).push(n.value()));
                    p = m + 1;
                } else if m < s.len() && s[m] == ']' {
                    out.push(n);
                    assert(node_values(out@) =~= node_values(prev).push(n.value()));
                    return Ok((Node::Array(out), m + 1));
                } else {
                    return Err(ParseFault { at: m, what: "a comma or a closing bracket" });
                }
            },
        }
    }
    Err(ParseFault { at: p, what: "a closing bracket" })
}

/// Reads an object from its opening brace.
#[verifier::loop_isolation(false)]
fn parse_object(s: &Vec<char>, i: usize) -> (r: Result<(Node, usize), ParseFault>)
    requires
        i <= s@.len(),
    ensures
        r matches Ok((n, j)) ==> object_at(s@, i as int) == Some((n.value(), j as int)) && i < j
            <= s@.len(),
        r is Err ==> object_at(s@, i as int) is None,
    decreases s@.len() - i, 1int,
{
    if !(i < s.len() && s[i] == '{') {
        return Err(ParseFault { at: i, what: "an object" });
    }
    let after_open = skip_whitespace(s, i + 1);
    if after_open < s.len() && s[after_open] == '}' {
        let empty_entries: Vec<(SmolStr, Node)> = Vec::new();
        assert(entry_values(empty_entries@) =~= Seq::<(Seq<char>, Value)>::empty());
        return Ok((Node::Object(empty_entries), after_open + 1));
    }
    let mut out: Vec<(SmolStr, Node)> = Vec::new();
    let mut p = i + 1;
    proof {
        assert(entry_values(out@) =~= Seq::<(Seq<char>, Value)>::empty());
    }
    while p < s.len()
        invariant
            i + 1 <= p <= s@.len(),
            members_at(s@, i + 1 as int, Seq::empty()) == members_at(
                s@,
                p as int,
                entry_values(out@),
            ),
        decreases s@.len() - p,
    {
        let j2 = skip_whitespace(s, p);
        match parse_string(s, j2) {
            Err(f) => {
                return Err(f);
            },
            Ok((key, k)) => {
                let m = skip_whitespace(s, k);
                if !(m < s.len() && s[m] == ':') {
                    return Err(ParseFault { at: m, what: "a colon" });
                }
                let j3 = skip_whitespace(s, m + 1);
                match parse_value(s, j3) {
                    Err(f) => {
                        return Err(f);
                    },
                    Ok((val, k2)) => {
                        let m2 = skip_whitespace(s, k2);
                        let ghost prev = entry_values(out@);
                        if m2 < s.len() && s[m2] == ',' {
                            object_insert(&mut out, key, val);
                            p = m2 + 1;
                        } else if m2 < s.len() && s[m2] == '}' {
                            object_insert(&mut out, key, val);
                            return Ok((Node::Object(out), m2 + 1));
                        } else {
                            return Err(
                                ParseFault { at: m2, what: "a comma or a closing brace" },
                            );
                        }
                    },
                }
            },
        }
    }
    Err(ParseFault { at: p, what: "a closing brace" })
}

/// Writes a fault out for a reader.
fn describe_fault(f: ParseFault) -> (r: String)
    ensures
        r@ == "expected "@ + f.what@ + " at character "@ + crate::text::dec_digits(f.at as nat),
{
    let mut s = String::from_str("expected ");
    s.append(f.what);
    s.append(" at character ");
    push_decimal(&mut s, f.at);
    assert(s@ =~= "expected "@ + f.what@ + " at character "@ + crate::text::dec_digits(
        f.at as nat,
    ));
    s
}

/// Law: parsing is deterministic. One text has one reading under the
/// grammar, so two successful parses of the same text yield trees with the
/// same content.
pub proof fn lemma_parse_deterministic(text: Seq<char>, v1: Value, v2: Value)
    requires
        document(text) == Some(v1),
        document(text) == Some(v2),
    ensures
        v1 == v2,
{
}

/// Reads one whole JSON document: a single value between whitespace, with
/// nothing after it. Returns the tree, or one message that says where the
/// text broke the grammar.
pub fn parse_json(content: &str) -> (r: Result<Node, String>)
    ensures
        r matches Ok(n) ==> document(content@) == Some(n.value()) && n.value().wf(),
        r is Err ==> document(content@) is None,
{
    proof {
        crate::grammar::lemma_document_wf(content@);
    }
    let s = chars_of_str(content);
    let start = skip_whitespace(&s, 0);
    match parse_value(&s, start) {
        Err(f) => Err(describe_fault(f)),
        Ok((n, j)) => {
            let m = skip_whitespace(&s, j);
            if m == s.len() {
                Ok(n)
            } else {
                Err(describe_fault(ParseFault { at: m, what: "the end of the text" }))
            }
        },
    }
}

} // verus!
