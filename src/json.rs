use vstd::prelude::*;

verus! {

/// A JSON value as the archive header uses it.
///
/// A number is kept as what the header logic reads of it: its value when it
/// is an unsigned integer that fits in 64 bits, `None` otherwise. An object
/// keeps its members in order; JSON objects hold each key once.
#[derive(Debug, PartialEq, Eq)]
pub enum JsonValue {
    Null,
    Bool(bool),
    Number(Option<u64>),
    Str(String),
    Array(Vec<JsonValue>),
    Object(Vec<(String, JsonValue)>),
}

/// The index of the first member at index `i` or later whose key is `key`,
/// or the number of members where there is none.
pub open spec fn key_index_from(fields: Seq<(String, JsonValue)>, key: Seq<char>, i: int) -> int
    decreases fields.len() - i,
{
    if i < 0 || i >= fields.len() {
        fields.len() as int
    } else if fields[i].0@ == key {
        i
    } else {
        key_index_from(fields, key, i + 1)
    }
}

/// The index of the member of an object whose key is `key`, or the number of
/// members where there is none.
pub open spec fn key_index(fields: Seq<(String, JsonValue)>, key: Seq<char>) -> int {
    key_index_from(fields, key, 0)
}

/// The value of the member of an object whose key is `key`.
pub open spec fn field(fields: Seq<(String, JsonValue)>, key: Seq<char>) -> Option<JsonValue> {
    let k = key_index(fields, key);
    if 0 <= k < fields.len() {
        Some(fields[k].1)
    } else {
        None
    }
}

/// Looks up the member `key` of an object's members.
pub fn get_field<'a>(fields: &'a Vec<(String, JsonValue)>, key: &String) -> (r: Option<
    &'a JsonValue,
>)
    ensures
        r matches Some(v) ==> field(fields@, key@) == Some(*v),
        r is None ==> field(fields@, key@) is None,
{
    let mut i: usize = 0;
    while i < fields.len()
        invariant
            i <= fields.len(),
            key_index(fields@, key@) == key_index_from(fields@, key@, i as int),
        decreases fields.len() - i,
    {
        if fields[i].0 == *key {
            return Some(&fields[i].1);
        }
        i = i + 1;
    }
    None
}

/// Whether `c` is one of the ASCII digits.
pub open spec fn is_digit(c: char) -> bool {
    '0' <= c && c <= '9'
}

/// The number that a sequence of decimal digits writes.
pub open spec fn digits_value(s: Seq<char>) -> nat
    decreases s.len(),
{
    if s.len() == 0 {
        0
    } else {
        digits_value(s.drop_last()) * 10 + ((s.last() as u32) - ('0' as u32)) as nat
    }
}

/// What a decimal text reads as an unsigned 64-bit integer: an optional `+`,
/// then one digit or more, of a value that fits in 64 bits.
pub open spec fn decimal_u64(s: Seq<char>) -> Option<u64> {
    let d = if s.len() > 0 && s[0] == '+' {
        s.drop_first()
    } else {
        s
    };
    if d.len() > 0 && (forall|i: int| 0 <= i < d.len() ==> is_digit(#[trigger] d[i])) && digits_value(d)
        <= u64::MAX {
        Some(digits_value(d) as u64)
    } else {
        None
    }
}

/// Relies on `str::parse::<u64>`, which reads an optional `+` followed by
/// decimal digits, and fails on anything else or on a value above `u64::MAX`.
#[verifier::external_body]
pub(crate) fn parse_u64(s: &String) -> (r: Option<u64>)
    ensures
        r == decimal_u64(s@),
{
    s.parse::<u64>().ok()
}

/// The character of the decimal digit `d`.
pub open spec fn digit_char(d: nat) -> char {
    seq!['0', '1', '2', '3', '4', '5', '6', '7', '8', '9'][d as int]
}

/// The decimal text of `n`: its digits, most significant first, with no
/// sign and no leading zero.
pub open spec fn decimal_text(n: nat) -> Seq<char>
    decreases n,
{
    if n < 10 {
        seq![digit_char(n)]
    } else {
        decimal_text(n / 10).push(digit_char(n % 10))
    }
}

/// Relies on the `Display` of `u64`, through `to_string`: the decimal digits
/// of the number, with no sign and no leading zero.
#[verifier::external_body]
pub(crate) fn u64_text(n: u64) -> (r: String)
    ensures
        r@ == decimal_text(n as nat),
{
    n.to_string()
}

proof fn lemma_digit_char(d: nat)
    requires
        d < 10,
    ensures
        is_digit(digit_char(d)),
        (digit_char(d) as u32) - ('0' as u32) == d,
{
}

/// The decimal text of a number is all digits and reads back as that number.
pub proof fn lemma_decimal_text(n: nat)
    ensures
        decimal_text(n).len() > 0,
        forall|i: int| 0 <= i < decimal_text(n).len() ==> is_digit(#[trigger] decimal_text(n)[i]),
        digits_value(decimal_text(n)) == n,
    decreases n,
{
    lemma_digit_char(n % 10);
    if n < 10 {
        let t = decimal_text(n);
        assert(t.drop_last() =~= Seq::<char>::empty());
        assert(t.last() == digit_char(n));
        assert(n % 10 == n);
        assert(digits_value(t.drop_last()) == 0);
        assert(digits_value(t) == digits_value(t.drop_last()) * 10 + ((t.last() as u32) - ('0' as u32)) as nat);
    } else {
        lemma_decimal_text(n / 10);
        let t = decimal_text(n);
        assert(t.drop_last() =~= decimal_text(n / 10));
        assert(t.last() == digit_char(n % 10));
        assert((n / 10) * 10 + n % 10 == n) by (nonlinear_arith);
        assert(digits_value(t) == digits_value(t.drop_last()) * 10 + ((t.last() as u32) - ('0' as u32)) as nat);
        assert(digits_value(t) == (n / 10) * 10 + n % 10);
        assert forall|i: int| 0 <= i < t.len() implies is_digit(#[trigger] t[i]) by {
            if i < t.len() - 1 {
                assert(t[i] == decimal_text(n / 10)[i]);
            }
        }
    }
}

/// Writing a number as decimal text and reading the text back gives the number.
pub proof fn lemma_decimal_round_trip(n: u64)
    ensures
        decimal_u64(decimal_text(n as nat)) == Some(n),
{
    lemma_decimal_text(n as nat);
    let t = decimal_text(n as nat);
    assert(is_digit(t[0]));
}

} // verus!
