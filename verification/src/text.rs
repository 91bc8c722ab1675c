use vstd::prelude::*;
use vstd::string::StrSliceExecFns;
use smol_str::SmolStr;

verus! {

// `SmolStr` is the immutable text type that nodes store: short text is kept
// inline (no heap allocation), long text on the heap. To the verifier it is
// an opaque value; `chars_of_smol` names the characters it holds.
#[verifier::external_type_specification]
#[verifier::external_body]
pub struct ExSmolStr(SmolStr);

/// The characters that a `SmolStr` holds.
pub uninterp spec fn chars_of_smol(s: SmolStr) -> Seq<char>;

/// Relies on `SmolStr::new`, which stores a copy of the text handed to it.
#[verifier::external_body]
pub(crate) fn smol_from_str(text: &str) -> (r: SmolStr)
    ensures
        chars_of_smol(r) == text@,
{
    SmolStr::new(text)
}

/// Relies on `SmolStr::as_str`, which hands out the stored text.
#[verifier::external_body]
pub(crate) fn smol_as_str(s: &SmolStr) -> (r: &str)
    ensures
        r@ == chars_of_smol(*s),
{
    s.as_str()
}

/// Relies on `SmolStr::clone`, which returns a string holding the same text.
pub assume_specification[ <SmolStr as Clone>::clone ](s: &SmolStr) -> (r: SmolStr)
    ensures
        chars_of_smol(r) == chars_of_smol(*s),
;

/// Relies on `str`'s `PartialEq`, which compares the character contents.
#[verifier::external_body]
pub(crate) fn str_eq(a: &str, b: &str) -> (r: bool)
    ensures
        r == (a@ == b@),
{
    a == b
}

/// Relies on `String::push`, which appends the character to the string.
#[verifier::external_body]
pub(crate) fn push_char(s: &mut String, c: char)
    ensures
        final(s)@ == old(s)@.push(c),
{
    s.push(c);
}

/// Relies on `char::from_u32`, which returns `Some` exactly for Unicode
/// scalar values (not a surrogate, at most 0x10FFFF) and then holds the
/// character with that value.
#[verifier::external_body]
pub(crate) fn char_from_u32(u: u32) -> (r: Option<char>)
    ensures
        r matches Some(c) ==> c as u32 == u,
        r is Some <==> (u < 0xD800 || (0xE000 <= u && u <= 0x10FFFF)),
{
    char::from_u32(u)
}

/// The character for a decimal digit value.
pub open spec fn digit_char(d: u8) -> char {
    if d == 0 {
        '0'
    } else if d == 1 {
        '1'
    } else if d == 2 {
        '2'
    } else if d == 3 {
        '3'
    } else if d == 4 {
        '4'
    } else if d == 5 {
        '5'
    } else if d == 6 {
        '6'
    } else if d == 7 {
        '7'
    } else if d == 8 {
        '8'
    } else {
        '9'
    }
}

/// The decimal writing of a natural number, most significant digit first.
pub open spec fn dec_digits(n: nat) -> Seq<char>
    decreases n,
{
    if n < 10 {
        seq![digit_char(n as u8)]
    } else {
        dec_digits(n / 10).push(digit_char((n % 10) as u8))
    }
}

/// The character for one digit value.
pub(crate) fn digit_to_char(d: u8) -> (c: char)
    ensures
        c == digit_char(d),
{
    match d {
        0 => '0',
        1 => '1',
        2 => '2',
        3 => '3',
        4 => '4',
        5 => '5',
        6 => '6',
        7 => '7',
        8 => '8',
        _ => '9',
    }
}

/// Appends the decimal writing of `n`.
pub(crate) fn push_decimal(s: &mut String, n: usize)
    ensures
        final(s)@ == old(s)@ + dec_digits(n as nat),
    decreases n,
{
    if n >= 10 {
        push_decimal(s, n / 10);
    }
    push_char(s, digit_to_char((n % 10) as u8));
}

/// The characters of a string slice, collected into a vector.
pub(crate) fn chars_of_str(s: &str) -> (r: Vec<char>)
    ensures
        r@ == s@,
{
    let n = s.unicode_len();
    let mut r: Vec<char> = Vec::new();
    let mut i: usize = 0;
    while i < n
        invariant
            i <= n,
            n == s@.len(),
            r@ == s@.subrange(0, i as int),
        decreases n - i,
    {
        r.push(s.get_char(i));
        assert(r@ =~= s@.subrange(0, (i + 1) as int));
        i = i + 1;
    }
    assert(r@ =~= s@);
    r
}

} // verus!
