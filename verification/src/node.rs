use vstd::prelude::*;
use vstd::pervasive::unreached;
use smol_str::SmolStr;
use crate::text::{chars_of_smol, digit_char, digit_to_char, push_char, smol_as_str, str_eq};
use crate::errors::ErrorCause;

verus! {

broadcast use vstd::std_specs::vec::group_vec_axioms;

/// A decoded JSON number, kept exactly as its decimal parts: a sign, the
/// integer digits, the fraction digits and a signed decimal exponent. Digits
/// are stored as values 0 through 9. An empty fraction means the literal had
/// no fraction; an empty exponent means it had none.
#[derive(Debug, Clone, PartialEq)]
pub struct Number {
    pub negative: bool,
    pub int_digits: Vec<u8>,
    pub frac_digits: Vec<u8>,
    pub exp_negative: bool,
    pub exp_digits: Vec<u8>,
}

/// The mathematical content of a `Number`.
pub struct NumberV {
    pub negative: bool,
    pub int_digits: Seq<u8>,
    pub frac_digits: Seq<u8>,
    pub exp_negative: bool,
    pub exp_digits: Seq<u8>,
}

/// The mathematical content of a `Node`: the same tree with text as
/// character sequences and collections as sequences.
pub enum Value {
    Null,
    Boolean(bool),
    Number(NumberV),
    Text(Seq<char>),
    Array(Seq<Value>),
    Object(Seq<(Seq<char>, Value)>),
}

/// One parsed JSON document: a tree of values. Object entries keep the order
/// in which the parser first met each key; keys are unique.
#[derive(Debug, PartialEq)]
pub enum Node {
    Null,
    Boolean(bool),
    Number(Number),
    String(SmolStr),
    Array(Vec<Node>),
    Object(Vec<(SmolStr, Node)>),
}

impl Number {
    /// What this number says, as its decimal parts.
    pub open spec fn value(self) -> NumberV {
        NumberV {
            negative: self.negative,
            int_digits: self.int_digits@,
            frac_digits: self.frac_digits@,
            exp_negative: self.exp_negative,
            exp_digits: self.exp_digits@,
        }
    }

    /// A structural copy with the same content.
    pub fn duplicate(&self) -> (r: Number)
        ensures
            r.value() == self.value(),
    {
        Number {
            negative: self.negative,
            int_digits: copy_digits(&self.int_digits),
            frac_digits: copy_digits(&self.frac_digits),
            exp_negative: self.exp_negative,
            exp_digits: copy_digits(&self.exp_digits),
        }
    }
}

impl NumberV {
    /// Digits are decimal, there is at least one integer digit, a leading
    /// zero stands alone, and an absent exponent carries no sign.
    pub open spec fn wf(self) -> bool {
        &&& self.int_digits.len() >= 1
        &&& (forall|i: int| 0 <= i < self.int_digits.len() ==> self.int_digits[i] <= 9)
        &&& (self.int_digits[0] == 0 ==> self.int_digits.len() == 1)
        &&& (forall|i: int| 0 <= i < self.frac_digits.len() ==> self.frac_digits[i] <= 9)
        &&& (forall|i: int| 0 <= i < self.exp_digits.len() ==> self.exp_digits[i] <= 9)
        &&& (self.exp_digits.len() == 0 ==> !self.exp_negative)
    }
}

/// The contents of a sequence of nodes, element by element.
pub open spec fn node_values(s: Seq<Node>) -> Seq<Value>
    decreases s,
{
    Seq::new(
        s.len(),
        |i: int|
            if 0 <= i < s.len() {
                s[i].value()
            } else {
                Value::Null
            },
    )
}

/// The contents of a sequence of object entries, entry by entry.
pub open spec fn entry_values(s: Seq<(SmolStr, Node)>) -> Seq<(Seq<char>, Value)>
    decreases s,
{
    Seq::new(
        s.len(),
        |i: int|
            if 0 <= i < s.len() {
                (chars_of_smol(s[i].0), s[i].1.value())
            } else {
                (Seq::<char>::empty(), Value::Null)
            },
    )
}

impl Node {
    /// What this node says: its mathematical content.
    pub open spec fn value(self) -> Value
        decreases self,
    {
        match self {
            Node::Null => Value::Null,
            Node::Boolean(b) => Value::Boolean(b),
            Node::Number(n) => Value::Number(n.value()),
            Node::String(s) => Value::Text(chars_of_smol(s)),
            Node::Array(v) => Value::Array(node_values(v@)),
            Node::Object(es) => Value::Object(entry_values(es@)),
        }
    }
}

/// No two entries share a key.
pub open spec fn keys_unique(es: Seq<(Seq<char>, Value)>) -> bool {
    forall|i: int, j: int| 0 <= i < j < es.len() ==> es[i].0 != es[j].0
}

impl Value {
    /// Every number in the tree keeps the digit invariants, and every
    /// object's keys are unique.
    pub open spec fn wf(self) -> bool
        decreases self,
    {
        match self {
            Value::Null => true,
            Value::Boolean(_) => true,
            Value::Number(nv) => nv.wf(),
            Value::Text(_) => true,
            Value::Array(es) => forall|i: int| 0 <= i < es.len() ==> es[i].wf(),
            Value::Object(es) => keys_unique(es) && (forall|i: int|
                0 <= i < es.len() ==> es[i].1.wf()),
        }
    }
}

/// The first entry under `key`, if the entries hold one.
pub open spec fn lookup(es: Seq<(Seq<char>, Value)>, key: Seq<char>) -> Option<Value>
    decreases es.len(),
{
    if es.len() == 0 {
        None
    } else if es[0].0 == key {
        Some(es[0].1)
    } else {
        lookup(es.drop_first(), key)
    }
}

/// The characters of a run of digit values.
pub open spec fn digits_text(ds: Seq<u8>) -> Seq<char> {
    Seq::new(ds.len(), |i: int| digit_char(ds[i]))
}

impl NumberV {
    /// The canonical writing of this number: sign, integer digits, the
    /// fraction after a point when there is one, the exponent after `e`
    /// (with its sign) when there is one.
    pub open spec fn text(self) -> Seq<char> {
        (if self.negative {
            seq!['-']
        } else {
            Seq::<char>::empty()
        }) + digits_text(self.int_digits) + (if self.frac_digits.len() > 0 {
            seq!['.'] + digits_text(self.frac_digits)
        } else {
            Seq::<char>::empty()
        }) + (if self.exp_digits.len() > 0 {
            seq!['e'] + (if self.exp_negative {
                seq!['-']
            } else {
                Seq::<char>::empty()
            }) + digits_text(self.exp_digits)
        } else {
            Seq::<char>::empty()
        })
    }
}

/// Appends the characters of a run of digit values.
fn push_digits(s: &mut String, ds: &Vec<u8>)
    ensures
        final(s)@ == old(s)@ + digits_text(ds@),
{
    let mut i: usize = 0;
    while i < ds.len()
        invariant
            i <= ds@.len(),
            s@ == old(s)@ + digits_text(ds@).subrange(0, i as int),
        decreases ds@.len() - i,
    {
        push_char(s, digit_to_char(ds[i]));
        assert(s@ =~= old(s)@ + digits_text(ds@).subrange(0, (i + 1) as int));
        i = i + 1;
    }
    assert(final(s)@ =~= old(s)@ + digits_text(ds@));
}

impl Number {
    /// Writes the number in its canonical form.
    pub fn to_text(&self) -> (r: String)
        ensures
            r@ == self.value().text(),
    {
        let mut s = String::new();
        if self.negative {
            push_char(&mut s, '-');
        }
        push_digits(&mut s, &self.int_digits);
        if self.frac_digits.len() > 0 {
            push_char(&mut s, '.');
            push_digits(&mut s, &self.frac_digits);
        }
        if self.exp_digits.len() > 0 {
            push_char(&mut s, 'e');
            if self.exp_negative {
                push_char(&mut s, '-');
            }
            push_digits(&mut s, &self.exp_digits);
        }
        assert(s@ =~= self.value().text());
        s
    }
}

impl Node {
    /// A structural copy: a tree with the same content.
    #[verifier::loop_isolation(false)]
    pub fn duplicate(&self) -> (r: Node)
        ensures
            r.value() == self.value(),
        decreases *self,
    {
        match self {
            Node::Null => Node::Null,
            Node::Boolean(b) => Node::Boolean(*b),
            Node::Number(n) => Node::Number(n.duplicate()),
            Node::String(s) => Node::String(s.clone()),
            Node::Array(v) => {
                let mut out: Vec<Node> = Vec::new();
                let mut i: usize = 0;
                while i < v.len()
                    invariant
                        i <= v@.len(),
                        out@.len() == i,
                        forall|j: int| 0 <= j < i ==> out@[j].value() == v@[j].value(),
                    decreases v@.len() - i,
                {
                    out.push(v[i].duplicate());
                    i = i + 1;
                }
                assert(node_values(out@) =~= node_values(v@));
                Node::Array(out)
            },
            Node::Object(es) => {
                let mut out: Vec<(SmolStr, Node)> = Vec::new();
                let mut i: usize = 0;
                while i < es.len()
                    invariant
                        i <= es@.len(),
                        out@.len() == i,
                        forall|j: int|
                            0 <= j < i ==> chars_of_smol(out@[j].0) == chars_of_smol(es@[j].0)
                                && out@[j].1.value() == es@[j].1.value(),
                    decreases es@.len() - i,
                {
                    let key = es[i].0.clone();
                    let val = es[i].1.duplicate();
                    out.push((key, val));
                    i = i + 1;
                }
                assert(entry_values(out@) =~= entry_values(es@));
                Node::Object(out)
            },
        }
    }

    /// Does the node hold nothing?
    pub fn is_null(&self) -> (r: bool)
        ensures
            r == (self.value() is Null),
    {
        matches!(self, Node::Null)
    }

    /// The boolean a boolean node holds.
    pub fn as_bool(&self) -> (r: Option<bool>)
        ensures
            match self.value() {
                Value::Boolean(b) => r == Some(b),
                _ => r is None,
            },
    {
        if let Node::Boolean(b) = self {
            Some(*b)
        } else {
            None
        }
    }

    /// Does the node hold a boolean?
    pub fn is_bool(&self) -> (r: bool)
        ensures
            r == (self.value() is Boolean),
    {
        matches!(self, Node::Boolean(_))
    }

    /// The number a number node holds.
    pub fn as_number(&self) -> (r: Option<Number>)
        ensures
            match self.value() {
                Value::Number(nv) => r matches Some(n) && n.value() == nv,
                _ => r is None,
            },
    {
        if let Node::Number(n) = self {
            Some(n.duplicate())
        } else {
            None
        }
    }

    /// Does the node hold a number?
    pub fn is_number(&self) -> (r: bool)
        ensures
            r == (self.value() is Number),
    {
        matches!(self, Node::Number(_))
    }

    /// The text a string node holds.
    pub fn as_string(&self) -> (r: Option<SmolStr>)
        ensures
            match self.value() {
                Value::Text(t) => r matches Some(s) && chars_of_smol(s) == t,
                _ => r is None,
            },
    {
        match self {
            Node::String(s) => Some(s.clone()),
            _ => None,
        }
    }

    /// Does the node hold text?
    pub fn is_string(&self) -> (r: bool)
        ensures
            r == (self.value() is Text),
    {
        matches!(self, Node::String(_))
    }

    /// Writes out what a scalar node holds: `null`, the boolean words, or a
    /// number in its canonical form. Text, arrays and objects give nothing;
    /// for text that is deliberate, `as_string` already hands it out, and a
    /// second way would invite reading a value twice.
    pub fn to_string(&self) -> (r: Option<String>)
        ensures
            match self.value() {
                Value::Null => r matches Some(s) && s@ == "null"@,
                Value::Boolean(b) => r matches Some(s) && s@ == (if b {
                    "true"@
                } else {
                    "false"@
                }),
                Value::Number(nv) => r matches Some(s) && s@ == nv.text(),
                _ => r is None,
            },
    {
        match self {
            Node::Null => Some(String::from_str("null")),
            Node::Boolean(b) => Some(
                if *b {
                    String::from_str("true")
                } else {
                    String::from_str("false")
                },
            ),
            Node::Number(n) => Some(n.to_text()),
            _ => None,
        }
    }

    /// The elements an array node holds.
    pub fn as_array(&self) -> (r: Option<&Vec<Node>>)
        ensures
            (r is Some) == (self.value() is Array),
            r matches Some(v) ==> self.value() == Value::Array(node_values(v@)),
    {
        if let Node::Array(v) = self {
            Some(v)
        } else {
            None
        }
    }

    /// Does the node hold an array?
    pub fn is_array(&self) -> (r: bool)
        ensures
            r == (self.value() is Array),
    {
        matches!(self, Node::Array(_))
    }

    /// The entries an object node holds.
    pub fn as_dictionary(&self) -> (r: Option<&Vec<(SmolStr, Node)>>)
        ensures
            (r is Some) == (self.value() is Object),
            r matches Some(es) ==> self.value() == Value::Object(entry_values(es@)),
    {
        if let Node::Object(es) = self {
            Some(es)
        } else {
            None
        }
    }

    /// The entries an object node holds.
    pub fn as_object(&self) -> (r: Option<&Vec<(SmolStr, Node)>>)
        ensures
            (r is Some) == (self.value() is Object),
            r matches Some(es) ==> self.value() == Value::Object(entry_values(es@)),
    {
        self.as_dictionary()
    }

    /// Does the node hold an object?
    pub fn is_dictionary(&self) -> (r: bool)
        ensures
            r == (self.value() is Object),
    {
        matches!(self, Node::Object(_))
    }

    /// Does the node hold an object?
    pub fn is_object(&self) -> (r: bool)
        ensures
            r == (self.value() is Object),
    {
        self.is_dictionary()
    }

    /// Strict tier: how many elements or entries the node holds. Asking a
    /// scalar is a caller defect, not a data condition.
    pub fn len(&self) -> (r: usize)
        requires
            self.value() is Array || self.value() is Object,
        ensures
            match self.value() {
                Value::Array(es) => r == es.len(),
                Value::Object(es) => r == es.len(),
                _ => false,
            },
    {
        match self {
            Node::Array(v) => v.len(),
            Node::Object(es) => es.len(),
            _ => unreached(),
        }
    }

    /// Safe tier: the element at `idx`, or why there is none.
    pub fn get_element_at(&self, idx: usize) -> (r: Result<Node, ErrorCause>)
        ensures
            match self.value() {
                Value::Array(es) => {
                    if idx < es.len() {
                        r matches Ok(n) && n.value() == es[idx as int]
                    } else {
                        r == Err::<Node, ErrorCause>(ErrorCause::IndexOutOfBound(idx))
                    }
                },
                _ => r == Err::<Node, ErrorCause>(ErrorCause::NodeIsNotArray),
            },
    {
        if let Some(arr) = self.as_array() {
            if idx < arr.len() {
                Ok(arr[idx].duplicate())
            } else {
                Err(ErrorCause::IndexOutOfBound(idx))
            }
        } else {
            Err(ErrorCause::NodeIsNotArray)
        }
    }

    /// Safe tier: the value under `key`, or why there is none.
    pub fn get(&self, key: &str) -> (r: Result<&Node, ErrorCause>)
        ensures
            match self.value() {
                Value::Object(es) => match lookup(es, key@) {
                    Some(v) => r matches Ok(n) && n.value() == v,
                    None => r matches Err(e) && e matches ErrorCause::FieldNotExist(k) && k@
                        == key@,
                },
                _ => r matches Err(e) && e is NodeIsNotDictionary,
            },
    {
        match self {
            Node::Object(es) => {
                let ghost evs = entry_values(es@);
                proof {
                    assert(evs.skip(0) =~= evs);
                }
                let mut i: usize = 0;
                while i < es.len()
                    invariant
                        i <= es@.len(),
                        evs == entry_values(es@),
                        self.value() == Value::Object(evs),
                        lookup(evs, key@) == lookup(evs.skip(i as int), key@),
                    decreases es@.len() - i,
                {
                    let entry_key = smol_as_str(&es[i].0);
                    if str_eq(entry_key, key) {
                        assert(lookup(evs.skip(i as int), key@) == Some(evs[i as int].1));
                        return Ok(&es[i].1);
                    }
                    proof {
                        assert(evs.skip(i as int).drop_first() =~= evs.skip(i + 1));
                    }
                    i = i + 1;
                }
                proof {
                    assert(evs.skip(es@.len() as int) =~= Seq::<(Seq<char>, Value)>::empty());
                }
                Err(ErrorCause::FieldNotExist(key.to_owned()))
            },
            _ => Err(ErrorCause::NodeIsNotDictionary),
        }
    }

    /// Safe tier: the text under `key`, or why there is none.
    pub fn get_string(&self, key: &str) -> (r: Result<&str, ErrorCause>)
        ensures
            match self.value() {
                Value::Object(es) => match lookup(es, key@) {
                    Some(v) => match v {
                        Value::Text(t) => r matches Ok(s) && s@ == t,
                        _ => r matches Err(e) && e matches ErrorCause::WrongTypeRequested(k, t)
                            && k@ == key@ && t@ == "string"@,
                    },
                    None => r matches Err(e) && e matches ErrorCause::FieldNotExist(k) && k@
                        == key@,
                },
                _ => r matches Err(e) && e is NodeIsNotDictionary,
            },
    {
        match self.get(key) {
            Err(e) => Err(e),
            Ok(node) => match node {
                Node::String(s) => Ok(smol_as_str(s)),
                _ => Err(ErrorCause::WrongTypeRequested(key.to_owned(), "string")),
            },
        }
    }

    /// Safe tier: what the scalar under `key` writes as. A string value is a
    /// wrong type here on purpose: it already has `get_string`, and coercing
    /// it again has hidden double-coercion defects before.
    pub fn get_as_string(&self, key: &str) -> (r: Result<String, ErrorCause>)
        ensures
            match self.value() {
                Value::Object(es) => match lookup(es, key@) {
                    Some(v) => match v {
                        Value::Null => r matches Ok(s) && s@ == "null"@,
                        Value::Boolean(b) => r matches Ok(s) && s@ == (if b {
                            "true"@
                        } else {
                            "false"@
                        }),
                        Value::Number(nv) => r matches Ok(s) && s@ == nv.text(),
                        _ => r matches Err(e) && e matches ErrorCause::WrongTypeRequested(k, t)
                            && k@ == key@ && t@ == "as string"@,
                    },
                    None => r matches Err(e) && e matches ErrorCause::FieldNotExist(k) && k@
                        == key@,
                },
                _ => r matches Err(e) && e is NodeIsNotDictionary,
            },
    {
        match self.get(key) {
            Err(e) => Err(e),
            Ok(node) => match node.to_string() {
                Some(data) => Ok(data),
                None => Err(ErrorCause::WrongTypeRequested(key.to_owned(), "as string")),
            },
        }
    }

    /// Safe tier: the number under `key`, or why there is none.
    pub fn get_number(&self, key: &str) -> (r: Result<Number, ErrorCause>)
        ensures
            match self.value() {
                Value::Object(es) => match lookup(es, key@) {
                    Some(v) => match v {
                        Value::Number(nv) => r matches Ok(n) && n.value() == nv,
                        _ => r matches Err(e) && e matches ErrorCause::WrongTypeRequested(k, t)
                            && k@ == key@ && t@ == "number"@,
                    },
                    None => r matches Err(e) && e matches ErrorCause::FieldNotExist(k) && k@
                        == key@,
                },
                _ => r matches Err(e) && e is NodeIsNotDictionary,
            },
    {
        match self.get(key) {
            Err(e) => Err(e),
            Ok(node) => match node.as_number() {
                None => Err(ErrorCause::WrongTypeRequested(key.to_owned(), "number")),
                Some(data) => Ok(data),
            },
        }
    }

    /// Safe tier: the boolean under `key`, or why there is none.
    pub fn get_bool(&self, key: &str) -> (r: Result<bool, ErrorCause>)
        ensures
            match self.value() {
                Value::Object(es) => match lookup(es, key@) {
                    Some(v) => match v {
                        Value::Boolean(b) => r == Ok::<bool, ErrorCause>(b),
                        _ => r matches Err(e) && e matches ErrorCause::WrongTypeRequested(k, t)
                            && k@ == key@ && t@ == "bool"@,
                    },
                    None => r matches Err(e) && e matches ErrorCause::FieldNotExist(k) && k@
                        == key@,
                },
                _ => r matches Err(e) && e is NodeIsNotDictionary,
            },
    {
        match self.get(key) {
            Err(e) => Err(e),
            Ok(node) => match node.as_bool() {
                None => Err(ErrorCause::WrongTypeRequested(key.to_owned(), "bool")),
                Some(data) => Ok(data),
            },
        }
    }

    /// Strict tier: the value under `key` of a node known to be an object
    /// that holds the key. Anything else is a caller defect.
    pub fn index(&self, key: &str) -> (r: &Node)
        requires
            self.value() matches Value::Object(es) && lookup(es, key@) is Some,
        ensures
            self.value() matches Value::Object(es) ==> Some(r.value()) == lookup(es, key@),
    {
        match self.get(key) {
            Ok(node) => node,
            Err(_) => unreached(),
        }
    }

    /// Strict tier: the element at `idx` of a node known to be an array with
    /// enough elements. Anything else is a caller defect.
    pub fn at(&self, idx: usize) -> (r: &Node)
        requires
            self.value() matches Value::Array(es) && idx < es.len(),
        ensures
            self.value() matches Value::Array(es) ==> r.value() == es[idx as int],
    {
        match self {
            Node::Array(v) => &v[idx],
            _ => unreached(),
        }
    }
}

/// A copy of a digit vector with the same content.
pub fn copy_digits(v: &Vec<u8>) -> (r: Vec<u8>)
    ensures
        r@ == v@,
{
    let mut r: Vec<u8> = Vec::new();
    let mut i: usize = 0;
    while i < v.len()
        invariant
            i <= v.len(),
            r@ == v@.subrange(0, i as int),
        decreases v.len() - i,
    {
        r.push(v[i]);
        assert(r@ =~= v@.subrange(0, (i + 1) as int));
        i = i + 1;
    }
    assert(r@ =~= v@);
    r
}

} // verus!
