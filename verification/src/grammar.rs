use vstd::prelude::*;
use crate::node::{keys_unique, lookup, NumberV, Value};

verus! {

// The grammar, written as one deterministic functional parser over a
// character sequence. Each function takes the position it starts reading at
// and gives back what it read and the position after it, or `None` where the
// text breaks the grammar at that position. Alternation is committed: which
// production applies is decided by the first character, and once decided the
// production must carry through. The executable parser is proved to return
// exactly what these functions say.
//
// The bound checks before each recursive call keep the definitions visibly
// terminating; positions that a successful parse hands on always satisfy
// them.
/// JSON whitespace: space, tab, carriage return, line feed.
pub open spec fn is_ws(c: char) -> bool {
    c == ' ' || c == '\t' || c == '\r' || c == '\n'
}

/// The first position at or after `i` that does not hold whitespace.
pub open spec fn skip_ws(s: Seq<char>, i: int) -> int
    decreases s.len() - i,
{
    if 0 <= i < s.len() && is_ws(s[i]) {
        skip_ws(s, i + 1)
    } else {
        i
    }
}

/// A decimal digit.
pub open spec fn is_digit(c: char) -> bool {
    48 <= c as u32 && c as u32 <= 57
}

/// The value of a decimal digit character.
pub open spec fn digit_value(c: char) -> u8
    recommends
        is_digit(c),
{
    ((c as u32) - 48) as u8
}

/// The first position at or after `i` that does not hold a digit.
pub open spec fn digits_end(s: Seq<char>, i: int) -> int
    decreases s.len() - i,
{
    if 0 <= i < s.len() && is_digit(s[i]) {
        digits_end(s, i + 1)
    } else {
        i
    }
}

/// A digit run never ends before it starts.
pub proof fn lemma_digits_end_ge(s: Seq<char>, i: int)
    ensures
        digits_end(s, i) >= i,
    decreases s.len() - i,
{
    if 0 <= i < s.len() && is_digit(s[i]) {
        lemma_digits_end_ge(s, i + 1);
    }
}

/// The digit values written between positions `i` and `j`.
pub open spec fn digit_vals(s: Seq<char>, i: int, j: int) -> Seq<u8> {
    Seq::new(
        if i <= j {
            (j - i) as nat
        } else {
            0
        },
        |k: int| digit_value(s[i + k]),
    )
}

/// A number: an optional minus, an integer part without leading zeros, an
/// optional fraction, an optional exponent.
pub open spec fn number_at(s: Seq<char>, i: int) -> Option<(NumberV, int)> {
    let (neg, i1): (bool, int) = if 0 <= i < s.len() && s[i] == '-' {
        (true, i + 1)
    } else {
        (false, i)
    };
    if !(0 <= i1 < s.len() && is_digit(s[i1])) {
        None
    } else if s[i1] == '0' {
        number_frac_at(s, i1 + 1, neg, seq![0u8])
    } else {
        let e = digits_end(s, i1);
        number_frac_at(s, e, neg, digit_vals(s, i1, e))
    }
}

/// After the integer part: an optional `.` with at least one digit.
pub open spec fn number_frac_at(s: Seq<char>, i: int, neg: bool, ints: Seq<u8>) -> Option<
    (NumberV, int),
> {
    if 0 <= i < s.len() && s[i] == '.' {
        if i + 1 < s.len() && is_digit(s[i + 1]) {
            let e = digits_end(s, i + 1);
            number_exp_at(s, e, neg, ints, digit_vals(s, i + 1, e))
        } else {
            None
        }
    } else {
        number_exp_at(s, i, neg, ints, Seq::empty())
    }
}

/// After the fraction: an optional `e`/`E`, an optional sign, at least one
/// digit.
pub open spec fn number_exp_at(
    s: Seq<char>,
    i: int,
    neg: bool,
    ints: Seq<u8>,
    fracs: Seq<u8>,
) -> Option<(NumberV, int)> {
    if 0 <= i < s.len() && (s[i] == 'e' || s[i] == 'E') {
        let (exp_neg, i1): (bool, int) = if i + 1 < s.len() && s[i + 1] == '+' {
            (false, i + 2)
        } else if i + 1 < s.len() && s[i + 1] == '-' {
            (true, i + 2)
        } else {
            (false, i + 1)
        };
        if i1 < s.len() && is_digit(s[i1]) {
            let e = digits_end(s, i1);
            Some(
                (
                    NumberV {
                        negative: neg,
                        int_digits: ints,
                        frac_digits: fracs,
                        exp_negative: exp_neg,
                        exp_digits: digit_vals(s, i1, e),
                    },
                    e,
                ),
            )
        } else {
            None
        }
    } else {
        Some(
            (
                NumberV {
                    negative: neg,
                    int_digits: ints,
                    frac_digits: fracs,
                    exp_negative: false,
                    exp_digits: Seq::empty(),
                },
                i,
            ),
        )
    }
}

/// A hexadecimal digit.
pub open spec fn is_hex(c: char) -> bool {
    is_digit(c) || (97 <= c as u32 && c as u32 <= 102) || (65 <= c as u32 && c as u32 <= 70)
}

/// The value of a hexadecimal digit character.
pub open spec fn hex_value(c: char) -> int
    recommends
        is_hex(c),
{
    if c as u32 <= 57 {
        (c as u32) - 48
    } else if 97 <= c as u32 {
        (c as u32) - 87
    } else {
        (c as u32) - 55
    }
}

/// What a single-character escape stands for; `None` for an unknown one.
pub open spec fn escape_of(c: char) -> Option<char> {
    if c == '"' {
        Some('"')
    } else if c == '\\' {
        Some('\\')
    } else if c == '/' {
        Some('/')
    } else if c == 'n' {
        Some('\n')
    } else if c == 't' {
        Some('\t')
    } else if c == 'r' {
        Some('\r')
    } else if c == 'f' {
        Some('\u{000c}')
    } else if c == 'b' {
        Some('\u{0008}')
    } else {
        None
    }
}

/// The code unit written by the four hex digits at `i`.
pub open spec fn hex4_value(s: Seq<char>, i: int) -> int {
    4096 * hex_value(s[i]) + 256 * hex_value(s[i + 1]) + 16 * hex_value(s[i + 2]) + hex_value(
        s[i + 3],
    )
}

/// Are there four hex digits at `i`?
pub open spec fn hex4_at(s: Seq<char>, i: int) -> bool {
    &&& i + 4 <= s.len()
    &&& is_hex(s[i])
    &&& is_hex(s[i + 1])
    &&& is_hex(s[i + 2])
    &&& is_hex(s[i + 3])
}

/// The body of a string, read from just after the opening quote: plain
/// characters and escapes up to the closing quote. A `\uXXXX` escape whose
/// value is no Unicode scalar (a lone surrogate half) writes nothing.
/// Unescaped tab, carriage return and line feed end the parse with a
/// failure, as does an unknown escape or an unterminated string.
pub open spec fn string_body_at(s: Seq<char>, i: int) -> Option<(Seq<char>, int)>
    decreases s.len() - i,
{
    if !(0 <= i < s.len()) {
        None
    } else {
        let c = s[i];
        if c == '"' {
            Some((Seq::empty(), i + 1))
        } else if c == '\\' {
            if !(i + 1 < s.len()) {
                None
            } else {
                let e = s[i + 1];
                if e == 'u' {
                    if hex4_at(s, i + 2) {
                        let u = hex4_value(s, i + 2);
                        match string_body_at(s, i + 6) {
                            None => None,
                            Some((t, j)) => if u < 0xD800 || u >= 0xE000 {
                                Some((seq![((u as u32) as char)] + t, j))
                            } else {
                                Some((t, j))
                            },
                        }
                    } else {
                        None
                    }
                } else {
                    match escape_of(e) {
                        None => None,
                        Some(d) => match string_body_at(s, i + 2) {
                            None => None,
                            Some((t, j)) => Some((seq![d] + t, j)),
                        },
                    }
                }
            }
        } else if c == '\n' || c == '\r' || c == '\t' {
            None
        } else {
            match string_body_at(s, i + 1) {
                None => None,
                Some((t, j)) => Some((seq![c] + t, j)),
            }
        }
    }
}

/// A quoted string at `i`: the decoded text and the position after the
/// closing quote.
pub open spec fn string_at(s: Seq<char>, i: int) -> Option<(Seq<char>, int)> {
    if 0 <= i < s.len() && s[i] == '"' {
        string_body_at(s, i + 1)
    } else {
        None
    }
}

/// Object entries after earlier pairs `es`, with the pair under `key` now
/// holding `v`: a later pair under the same key overwrites the earlier one
/// in place, otherwise the pair goes to the end.
pub open spec fn upsert(es: Seq<(Seq<char>, Value)>, key: Seq<char>, v: Value) -> Seq<
    (Seq<char>, Value),
>
    decreases es.len(),
{
    if es.len() == 0 {
        seq![(key, v)]
    } else if es[0].0 == key {
        seq![(key, v)] + es.drop_first()
    } else {
        seq![es[0]] + upsert(es.drop_first(), key, v)
    }
}

/// Law: the last write wins. After pairs are folded in with `upsert`, the
/// key that was written holds the value written last.
pub proof fn lemma_upsert_lookup_hit(es: Seq<(Seq<char>, Value)>, key: Seq<char>, v: Value)
    ensures
        lookup(upsert(es, key, v), key) == Some(v),
    decreases es.len(),
{
    if es.len() == 0 {
    } else if es[0].0 == key {
    } else {
        lemma_upsert_lookup_hit(es.drop_first(), key, v);
        assert((seq![es[0]] + upsert(es.drop_first(), key, v)).drop_first() =~= upsert(
            es.drop_first(),
            key,
            v,
        ));
    }
}

/// Law: writing one key changes no other. After an `upsert` under `key`,
/// every other key still holds what it held before.
pub proof fn lemma_upsert_lookup_miss(
    es: Seq<(Seq<char>, Value)>,
    key: Seq<char>,
    v: Value,
    other: Seq<char>,
)
    requires
        other != key,
    ensures
        lookup(upsert(es, key, v), other) == lookup(es, other),
    decreases es.len(),
{
    reveal_with_fuel(lookup, 3);
    if es.len() == 0 {
        assert(seq![(key, v)][0].0 == key);
        assert(seq![(key, v)].drop_first() =~= Seq::<(Seq<char>, Value)>::empty());
    } else if es[0].0 == key {
        assert((seq![(key, v)] + es.drop_first())[0] == (key, v));
        assert((seq![(key, v)] + es.drop_first()).drop_first() =~= es.drop_first());
    } else {
        lemma_upsert_lookup_miss(es.drop_first(), key, v, other);
        assert((seq![es[0]] + upsert(es.drop_first(), key, v))[0] == es[0]);
        assert((seq![es[0]] + upsert(es.drop_first(), key, v)).drop_first() =~= upsert(
            es.drop_first(),
            key,
            v,
        ));
    }
}

/// Scanning over entries that do not hold `key` leaves them in place:
/// what `upsert` does is decided by the part from the first match on.
pub proof fn lemma_upsert_split(es: Seq<(Seq<char>, Value)>, key: Seq<char>, v: Value, i: int)
    requires
        0 <= i <= es.len(),
        forall|j: int| 0 <= j < i ==> es[j].0 != key,
    ensures
        upsert(es, key, v) == es.take(i) + upsert(es.skip(i), key, v),
    decreases i,
{
    if i == 0 {
        assert(es.skip(0) =~= es);
        assert(es.take(0) + upsert(es, key, v) =~= upsert(es, key, v));
    } else {
        let tail = es.drop_first();
        assert(forall|j: int| 0 <= j < i - 1 ==> tail[j].0 != key);
        lemma_upsert_split(tail, key, v, i - 1);
        assert(tail.skip(i - 1) =~= es.skip(i));
        assert(seq![es[0]] + (tail.take(i - 1) + upsert(tail.skip(i - 1), key, v)) =~= es.take(i)
            + upsert(es.skip(i), key, v));
    }
}

/// One value, decided by its first character: a literal word, a number, a
/// string, an array or an object.
pub open spec fn value_at(s: Seq<char>, i: int) -> Option<(Value, int)>
    decreases s.len() - i, 2int,
{
    if !(0 <= i < s.len()) {
        None
    } else {
        let c = s[i];
        if c == 'n' {
            if i + 4 <= s.len() && s[i + 1] == 'u' && s[i + 2] == 'l' && s[i + 3] == 'l' {
                Some((Value::Null, i + 4))
            } else {
                None
            }
        } else if c == 't' {
            if i + 4 <= s.len() && s[i + 1] == 'r' && s[i + 2] == 'u' && s[i + 3] == 'e' {
                Some((Value::Boolean(true), i + 4))
            } else {
                None
            }
        } else if c == 'f' {
            if i + 5 <= s.len() && s[i + 1] == 'a' && s[i + 2] == 'l' && s[i + 3] == 's' && s[i + 4]
                == 'e' {
                Some((Value::Boolean(false), i + 5))
            } else {
                None
            }
        } else if c == '-' || is_digit(c) {
            match number_at(s, i) {
                None => None,
                Some((n, j)) => Some((Value::Number(n), j)),
            }
        } else if c == '"' {
            match string_at(s, i) {
                None => None,
                Some((t, j)) => Some((Value::Text(t), j)),
            }
        } else if c == '[' {
            array_at(s, i)
        } else if c == '{' {
            object_at(s, i)
        } else {
            None
        }
    }
}

/// An array at its `[`: either empty after whitespace, or its elements up
/// to the `]`.
pub open spec fn array_at(s: Seq<char>, i: int) -> Option<(Value, int)>
    decreases s.len() - i, 1int,
{
    if !(0 <= i < s.len() && s[i] == '[') {
        None
    } else {
        let j = skip_ws(s, i + 1);
        if !(i + 1 <= j <= s.len()) {
            None
        } else if j < s.len() && s[j] == ']' {
            Some((Value::Array(Seq::empty()), j + 1))
        } else {
            match elements_at(s, i + 1, Seq::empty()) {
                None => None,
                Some((vs, m)) => if m < s.len() && s[m] == ']' {
                    Some((Value::Array(vs), m + 1))
                } else {
                    None
                },
            }
        }
    }
}

/// The elements read so far and those from position `i` on: each element is
/// a value between whitespace, elements are separated by commas, and the
/// list ends before a character that is no comma.
pub open spec fn elements_at(s: Seq<char>, i: int, acc: Seq<Value>) -> Option<(Seq<Value>, int)>
    decreases s.len() - i, 3int,
{
    let j = skip_ws(s, i);
    if !(i <= j && j <= s.len()) {
        None
    } else {
        match value_at(s, j) {
            None => None,
            Some((v, k)) => if !(j < k && k <= s.len()) {
                None
            } else {
                let m = skip_ws(s, k);
                if !(k <= m && m <= s.len()) {
                    None
                } else if m < s.len() && s[m] == ',' {
                    elements_at(s, m + 1, acc.push(v))
                } else {
                    Some((acc.push(v), m))
                }
            },
        }
    }
}

/// An object at its `{`: either empty after whitespace, or its pairs up to
/// the `}`.
pub open spec fn object_at(s: Seq<char>, i: int) -> Option<(Value, int)>
    decreases s.len() - i, 1int,
{
    if !(0 <= i < s.len() && s[i] == '{') {
        None
    } else {
        let j = skip_ws(s, i + 1);
        if !(i + 1 <= j <= s.len()) {
            None
        } else if j < s.len() && s[j] == '}' {
            Some((Value::Object(Seq::empty()), j + 1))
        } else {
            match members_at(s, i + 1, Seq::empty()) {
                None => None,
                Some((es, m)) => if m < s.len() && s[m] == '}' {
                    Some((Value::Object(es), m + 1))
                } else {
                    None
                },
            }
        }
    }
}

/// The pairs read so far and those from position `i` on: each pair is a
/// quoted key between whitespace, a colon, and a value between whitespace.
/// A repeated key keeps its place and takes the later value.
pub open spec fn members_at(s: Seq<char>, i: int, acc: Seq<(Seq<char>, Value)>) -> Option<
    (Seq<(Seq<char>, Value)>, int),
>
    decreases s.len() - i, 3int,
{
    let j = skip_ws(s, i);
    if !(i <= j && j <= s.len()) {
        None
    } else {
        match string_at(s, j) {
            None => None,
            Some((key, k)) => if !(j < k && k <= s.len()) {
                None
            } else {
                let m = skip_ws(s, k);
                if !(k <= m && m <= s.len()) {
                    None
                } else if m < s.len() && s[m] == ':' {
                    let j2 = skip_ws(s, m + 1);
                    if !(m + 1 <= j2 && j2 <= s.len()) {
                        None
                    } else {
                        match value_at(s, j2) {
                            None => None,
                            Some((v, k2)) => if !(j2 < k2 && k2 <= s.len()) {
                                None
                            } else {
                                let m2 = skip_ws(s, k2);
                                if !(k2 <= m2 && m2 <= s.len()) {
                                    None
                                } else if m2 < s.len() && s[m2] == ',' {
                                    members_at(s, m2 + 1, upsert(acc, key, v))
                                } else {
                                    Some((upsert(acc, key, v), m2))
                                }
                            },
                        }
                    }
                } else {
                    None
                }
            },
        }
    }
}

/// Do the entries hold `key`?
pub open spec fn has_key(es: Seq<(Seq<char>, Value)>, key: Seq<char>) -> bool {
    exists|i: int| 0 <= i < es.len() && es[i].0 == key
}

/// After an upsert the keys are the old keys and the written one.
pub proof fn lemma_upsert_keys(es: Seq<(Seq<char>, Value)>, key: Seq<char>, v: Value, k2: Seq<char>)
    ensures
        has_key(upsert(es, key, v), k2) <==> (k2 == key || has_key(es, k2)),
    decreases es.len(),
{
    let r = upsert(es, key, v);
    if es.len() == 0 {
        assert(r[0].0 == key);
        if has_key(r, k2) {
            let w = choose|i: int| 0 <= i < r.len() && r[i].0 == k2;
            assert(w == 0);
        }
    } else if es[0].0 == key {
        assert(r[0].0 == key);
        if has_key(r, k2) && k2 != key {
            let w = choose|i: int| 0 <= i < r.len() && r[i].0 == k2;
            assert(r[w] == es[w]);
        }
        if has_key(es, k2) && k2 != key {
            let w = choose|i: int| 0 <= i < es.len() && es[i].0 == k2;
            assert(r[w] == es[w]);
        }
    } else {
        let tail = es.drop_first();
        lemma_upsert_keys(tail, key, v, k2);
        assert(r[0] == es[0]);
        assert(forall|i: int| 1 <= i < r.len() ==> r[i] == upsert(tail, key, v)[i - 1]);
        if has_key(r, k2) {
            let w = choose|i: int| 0 <= i < r.len() && r[i].0 == k2;
            if w == 0 {
                assert(es[0].0 == k2);
            } else {
                assert(upsert(tail, key, v)[w - 1].0 == k2);
                assert(has_key(upsert(tail, key, v), k2));
            }
        }
        if k2 == key {
            let w = choose|i: int| 0 <= i < upsert(tail, key, v).len() && upsert(tail, key, v)[i].0
                == k2;
            assert(r[w + 1].0 == k2);
        }
        if has_key(es, k2) {
            let w = choose|i: int| 0 <= i < es.len() && es[i].0 == k2;
            if w == 0 {
                assert(r[0].0 == k2);
            } else {
                assert(tail[w - 1].0 == k2);
                assert(has_key(tail, k2));
                let w2 = choose|i: int|
                    0 <= i < upsert(tail, key, v).len() && upsert(tail, key, v)[i].0 == k2;
                assert(r[w2 + 1].0 == k2);
            }
        }
    }
}

/// An upsert keeps the keys unique.
pub proof fn lemma_upsert_unique(es: Seq<(Seq<char>, Value)>, key: Seq<char>, v: Value)
    requires
        keys_unique(es),
    ensures
        keys_unique(upsert(es, key, v)),
    decreases es.len(),
{
    let r = upsert(es, key, v);
    if es.len() == 0 {
        assert(r.len() == 1);
    } else if es[0].0 == key {
        assert(forall|i: int| 0 <= i < r.len() ==> r[i].0 == es[i].0);
    } else {
        let tail = es.drop_first();
        assert(forall|i: int, j: int| 0 <= i < j < tail.len() ==> tail[i].0 != tail[j].0);
        lemma_upsert_unique(tail, key, v);
        assert(r[0] == es[0]);
        assert(forall|i: int| 1 <= i < r.len() ==> r[i] == upsert(tail, key, v)[i - 1]);
        assert forall|j: int| 1 <= j < r.len() implies r[0].0 != (#[trigger] r[j]).0 by {
            if r[j].0 == es[0].0 {
                assert(upsert(tail, key, v)[j - 1].0 == es[0].0);
                assert(has_key(upsert(tail, key, v), es[0].0));
                lemma_upsert_keys(tail, key, v, es[0].0);
                let w = choose|i: int| 0 <= i < tail.len() && tail[i].0 == es[0].0;
                assert(es[w + 1].0 == es[0].0);
            }
        }
    }
}

/// An upsert of a well-formed value keeps every entry's value well-formed.
pub proof fn lemma_upsert_wf_entries(es: Seq<(Seq<char>, Value)>, key: Seq<char>, v: Value)
    requires
        forall|i: int| 0 <= i < es.len() ==> (#[trigger] es[i]).1.wf(),
        v.wf(),
    ensures
        forall|i: int|
            0 <= i < upsert(es, key, v).len() ==> (#[trigger] upsert(es, key, v)[i]).1.wf(),
    decreases es.len(),
{
    if es.len() == 0 {
    } else if es[0].0 == key {
    } else {
        let tail = es.drop_first();
        lemma_upsert_wf_entries(tail, key, v);
        assert(forall|i: int|
            1 <= i < upsert(es, key, v).len() ==> upsert(es, key, v)[i] == upsert(
                tail,
                key,
                v,
            )[i - 1]);
    }
}

/// Every position up to the end of a digit run holds a digit.
pub proof fn lemma_digits_end_digits(s: Seq<char>, i: int)
    ensures
        forall|k: int| i <= k < digits_end(s, i) ==> is_digit(s[k]),
    decreases s.len() - i,
{
    if 0 <= i < s.len() && is_digit(s[i]) {
        lemma_digits_end_digits(s, i + 1);
    }
}

/// The values of a run of digits are digit values.
pub proof fn lemma_digit_vals_small(s: Seq<char>, i: int, j: int)
    requires
        forall|k: int| i <= k < j ==> is_digit(s[k]),
    ensures
        forall|k: int| 0 <= k < digit_vals(s, i, j).len() ==> digit_vals(s, i, j)[k] <= 9,
{
}

/// A parsed number keeps the digit invariants.
pub proof fn lemma_number_wf(s: Seq<char>, i: int)
    ensures
        number_at(s, i) matches Some((nv, j)) ==> nv.wf(),
{
    let (neg, i1): (bool, int) = if 0 <= i < s.len() && s[i] == '-' {
        (true, i + 1)
    } else {
        (false, i)
    };
    if 0 <= i1 < s.len() && is_digit(s[i1]) {
        lemma_digits_end_ge(s, i1 + 1);
        lemma_digits_end_digits(s, i1);
        let ints: Seq<u8> = if s[i1] == '0' {
            seq![0u8]
        } else {
            digit_vals(s, i1, digits_end(s, i1))
        };
        lemma_digit_vals_small(s, i1, digits_end(s, i1));
        assert(ints.len() >= 1);
        assert(forall|k: int| 0 <= k < ints.len() ==> ints[k] <= 9);
        if s[i1] != '0' {
            assert(s[i1] as u32 != 48) by {
                if s[i1] as u32 == 48 {
                    vstd::utf8::char_u32_cast(s[i1], 48);
                    vstd::utf8::char_u32_cast('0', 48);
                    assert(s[i1] == '0');
                }
            }
            assert(ints[0] == digit_value(s[i1]));
            assert(ints[0] != 0);
        }
        assert(ints[0] == 0 ==> ints.len() == 1);
        let i2: int = if s[i1] == '0' {
            i1 + 1
        } else {
            digits_end(s, i1)
        };
        lemma_number_frac_wf(s, i2, neg, ints);
    }
}

/// The fraction and exponent of a parsed number keep the digit invariants.
pub proof fn lemma_number_frac_wf(s: Seq<char>, i: int, neg: bool, ints: Seq<u8>)
    requires
        ints.len() >= 1,
        forall|k: int| 0 <= k < ints.len() ==> ints[k] <= 9,
        ints[0] == 0 ==> ints.len() == 1,
    ensures
        number_frac_at(s, i, neg, ints) matches Some((nv, j)) ==> nv.wf(),
{
    if 0 <= i < s.len() && s[i] == '.' {
        if i + 1 < s.len() && is_digit(s[i + 1]) {
            lemma_digits_end_digits(s, i + 1);
            lemma_digit_vals_small(s, i + 1, digits_end(s, i + 1));
            lemma_number_exp_wf(s, digits_end(s, i + 1), neg, ints, digit_vals(
                s,
                i + 1,
                digits_end(s, i + 1),
            ));
        }
    } else {
        lemma_number_exp_wf(s, i, neg, ints, Seq::empty());
    }
}

/// The exponent of a parsed number keeps the digit invariants.
pub proof fn lemma_number_exp_wf(s: Seq<char>, i: int, neg: bool, ints: Seq<u8>, fracs: Seq<u8>)
    requires
        ints.len() >= 1,
        forall|k: int| 0 <= k < ints.len() ==> ints[k] <= 9,
        ints[0] == 0 ==> ints.len() == 1,
        forall|k: int| 0 <= k < fracs.len() ==> fracs[k] <= 9,
    ensures
        number_exp_at(s, i, neg, ints, fracs) matches Some((nv, j)) ==> nv.wf(),
{
    if 0 <= i < s.len() && (s[i] == 'e' || s[i] == 'E') {
        let (exp_neg, i1): (bool, int) = if i + 1 < s.len() && s[i + 1] == '+' {
            (false, i + 2)
        } else if i + 1 < s.len() && s[i + 1] == '-' {
            (true, i + 2)
        } else {
            (false, i + 1)
        };
        if i1 < s.len() && is_digit(s[i1]) {
            lemma_digits_end_ge(s, i1 + 1);
            lemma_digits_end_digits(s, i1);
            lemma_digit_vals_small(s, i1, digits_end(s, i1));
        }
    }
}

/// A parsed value is well-formed.
pub proof fn lemma_value_at_wf(s: Seq<char>, i: int)
    ensures
        value_at(s, i) matches Some((v, j)) ==> v.wf(),
    decreases s.len() - i, 2int,
{
    if 0 <= i < s.len() {
        let c = s[i];
        if c == '-' || is_digit(c) {
            lemma_number_wf(s, i);
        } else if c == '[' {
            lemma_array_at_wf(s, i);
        } else if c == '{' {
            lemma_object_at_wf(s, i);
        }
    }
}

/// A parsed array is well-formed.
pub proof fn lemma_array_at_wf(s: Seq<char>, i: int)
    ensures
        array_at(s, i) matches Some((v, j)) ==> v.wf(),
    decreases s.len() - i, 1int,
{
    if 0 <= i < s.len() && s[i] == '[' {
        let j = skip_ws(s, i + 1);
        if i + 1 <= j <= s.len() {
            if !(j < s.len() && s[j] == ']') {
                lemma_elements_at_wf(s, i + 1, Seq::empty());
            }
        }
    }
}

/// Elements parsed onto well-formed elements are all well-formed.
pub proof fn lemma_elements_at_wf(s: Seq<char>, i: int, acc: Seq<Value>)
    requires
        forall|x: int| 0 <= x < acc.len() ==> (#[trigger] acc[x]).wf(),
    ensures
        elements_at(s, i, acc) matches Some((vs, m)) ==> forall|x: int|
            0 <= x < vs.len() ==> (#[trigger] vs[x]).wf(),
    decreases s.len() - i, 3int,
{
    let j = skip_ws(s, i);
    if i <= j && j <= s.len() {
        match value_at(s, j) {
            None => {},
            Some((v, k)) => {
                lemma_value_at_wf(s, j);
                if j < k && k <= s.len() {
                    let m = skip_ws(s, k);
                    if k <= m && m <= s.len() {
                        assert(forall|x: int|
                            0 <= x < acc.push(v).len() ==> (#[trigger] acc.push(v)[x]).wf());
                        if m < s.len() && s[m] == ',' {
                            lemma_elements_at_wf(s, m + 1, acc.push(v));
                        }
                    }
                }
            },
        }
    }
}

/// A parsed object is well-formed.
pub proof fn lemma_object_at_wf(s: Seq<char>, i: int)
    ensures
        object_at(s, i) matches Some((v, j)) ==> v.wf(),
    decreases s.len() - i, 1int,
{
    if 0 <= i < s.len() && s[i] == '{' {
        let j = skip_ws(s, i + 1);
        if i + 1 <= j <= s.len() {
            if !(j < s.len() && s[j] == '}') {
                lemma_members_at_wf(s, i + 1, Seq::empty());
            }
        }
    }
}

/// Pairs parsed onto unique, well-formed entries leave them unique and
/// well-formed.
pub proof fn lemma_members_at_wf(s: Seq<char>, i: int, acc: Seq<(Seq<char>, Value)>)
    requires
        keys_unique(acc),
        forall|x: int| 0 <= x < acc.len() ==> (#[trigger] acc[x]).1.wf(),
    ensures
        members_at(s, i, acc) matches Some((es, m)) ==> keys_unique(es) && (forall|x: int|
            0 <= x < es.len() ==> (#[trigger] es[x]).1.wf()),
    decreases s.len() - i, 3int,
{
    let j = skip_ws(s, i);
    if i <= j && j <= s.len() {
        match string_at(s, j) {
            None => {},
            Some((key, k)) => {
                if j < k && k <= s.len() {
                    let m = skip_ws(s, k);
                    if k <= m && m <= s.len() && m < s.len() && s[m] == ':' {
                        let j2 = skip_ws(s, m + 1);
                        if m + 1 <= j2 && j2 <= s.len() {
                            match value_at(s, j2) {
                                None => {},
                                Some((v, k2)) => {
                                    lemma_value_at_wf(s, j2);
                                    if j2 < k2 && k2 <= s.len() {
                                        let m2 = skip_ws(s, k2);
                                        if k2 <= m2 && m2 <= s.len() {
                                            lemma_upsert_unique(acc, key, v);
                                            lemma_upsert_wf_entries(acc, key, v);
                                            if m2 < s.len() && s[m2] == ',' {
                                                lemma_members_at_wf(s, m2 + 1, upsert(
                                                    acc,
                                                    key,
                                                    v,
                                                ));
                                            }
                                        }
                                    }
                                },
                            }
                        }
                    }
                }
            },
        }
    }
}

/// A parsed document is well-formed: its numbers keep the digit
/// invariants and every object's keys are unique.
pub proof fn lemma_document_wf(s: Seq<char>)
    ensures
        document(s) matches Some(v) ==> v.wf(),
{
    lemma_value_at_wf(s, skip_ws(s, 0));
}

/// A whole document: one value between whitespace, with nothing after it.
pub open spec fn document(s: Seq<char>) -> Option<Value> {
    let i = skip_ws(s, 0);
    match value_at(s, i) {
        None => None,
        Some((v, j)) => if skip_ws(s, j) == s.len() {
            Some(v)
        } else {
            None
        },
    }
}

} // verus!
