//! Parsing of two values written as `LEFT<sep>RIGHT`, such as `800x600`
//! or `-1.2,0.35`.
use std::str::FromStr;
use vstd::prelude::*;

verus! {

/// Why a delimited pair could not be parsed.
#[derive(Debug, Clone, Copy, PartialEq, Eq, Structural)]
pub enum ParseError {
    /// The input holds no separator.
    MissingSeparator,
    /// A field on either side of the separator is not a value of the type.
    MalformedField,
}

/// The two fields of `s` around the first occurrence of `sep`, or `None`
/// when `sep` does not occur in `s`.
pub open spec fn split_spec(s: Seq<char>, sep: char) -> Option<(Seq<char>, Seq<char>)> {
    match s.index_of_first(sep) {
        Some(i) => Some((s.subrange(0, i), s.subrange(i + 1, s.len() as int))),
        None => None,
    }
}

/// The index of the first occurrence of `sep` in `s`.
pub fn find_separator(s: &str, sep: char) -> (r: Option<usize>)
    ensures
        match r {
            Some(i) => s@.index_of_first(sep) == Some(i as int),
            None => s@.index_of_first(sep) is None,
        },
{
    proof {
        s@.index_of_first_ensures(sep);
    }
    let n = s.unicode_len();
    let mut i: usize = 0;
    while i < n
        invariant
            n == s@.len(),
            i <= n,
            forall|j: int| 0 <= j < i ==> s@[j] != sep,
        decreases n - i,
    {
        if s.get_char(i) == sep {
            proof {
                assert(s@.contains(sep)) by {
                    assert(s@[i as int] == sep);
                }
                s@.index_of_first_ensures(sep);
            }
            return Some(i);
        }
        i = i + 1;
    }
    None
}

/// Splits `s` at the first occurrence of `sep`; the separator itself
/// belongs to neither field.
pub fn split_pair<'a>(s: &'a str, sep: char) -> (r: Option<(&'a str, &'a str)>)
    ensures
        match r {
            Some(p) => split_spec(s@, sep) == Some((p.0@, p.1@)),
            None => split_spec(s@, sep) is None,
        },
{
    match find_separator(s, sep) {
        None => None,
        Some(i) => {
            proof {
                s@.index_of_first_ensures(sep);
            }
            let n = s.unicode_len();
            let left = s.substring_char(0, i);
            let right = s.substring_char(i + 1, n);
            Some((left, right))
        },
    }
}

/// Combines the parse results of the two fields: both must be values.
pub fn pair_from_fields<T>(left: Option<T>, right: Option<T>) -> (r: Result<(T, T), ParseError>)
    ensures
        match (left, right) {
            (Some(a), Some(b)) => r == Ok::<(T, T), ParseError>((a, b)),
            _ => r == Err::<(T, T), ParseError>(ParseError::MalformedField),
        },
{
    match (left, right) {
        (Some(a), Some(b)) => Ok((a, b)),
        _ => Err(ParseError::MalformedField),
    }
}

/// Relies on `str::parse`: the field read as a value of `T` through its
/// `FromStr` impl, `None` where that impl reports an error.
#[verifier::external_body]
fn parse_field<T: FromStr>(s: &str) -> (r: Option<T>) {
    s.parse::<T>().ok()
}

/// Parses `s` as two values of `T` around the first `sep`.
pub fn parse_pair<T: FromStr>(s: &str, separator: char) -> (r: Result<(T, T), ParseError>)
    ensures
        (r == Err::<(T, T), ParseError>(ParseError::MissingSeparator)) <==> !s@.contains(
            separator,
        ),
        s@.contains(separator) ==> (r is Ok || r == Err::<(T, T), ParseError>(
            ParseError::MalformedField,
        )),
{
    proof {
        s@.index_of_first_ensures(separator);
    }
    match split_pair(s, separator) {
        None => Err(ParseError::MissingSeparator),
        Some((left, right)) => pair_from_fields(parse_field::<T>(left), parse_field::<T>(right)),
    }
}

/// An ASCII decimal digit.
pub open spec fn is_digit(c: char) -> bool {
    '0' <= c && c <= '9'
}

/// The value of a run of decimal digits, most significant first.
pub open spec fn digits_value(d: Seq<char>) -> nat
    decreases d.len(),
{
    if d.len() == 0 {
        0
    } else {
        digits_value(d.drop_last()) * 10 + (d.last() as int - '0' as int) as nat
    }
}

/// A `u32` written in decimal: an optional `+`, then one or more digits
/// whose value fits in 32 bits. Nothing else is accepted, not even
/// surrounding whitespace.
pub open spec fn decimal_u32(s: Seq<char>) -> Option<u32> {
    let d = if s.len() > 0 && s[0] == '+' {
        s.drop_first()
    } else {
        s
    };
    if d.len() > 0 && (forall|i: int| 0 <= i < d.len() ==> is_digit(#[trigger] d[i]))
        && digits_value(d) <= u32::MAX {
        Some(digits_value(d) as u32)
    } else {
        None
    }
}

/// What parsing `s` as two `u32` values around the first `sep` gives.
pub open spec fn u32_pair_spec(s: Seq<char>, sep: char) -> Result<(u32, u32), ParseError> {
    match split_spec(s, sep) {
        None => Err(ParseError::MissingSeparator),
        Some(fields) => match (decimal_u32(fields.0), decimal_u32(fields.1)) {
            (Some(a), Some(b)) => Ok((a, b)),
            _ => Err(ParseError::MalformedField),
        },
    }
}

/// Relies on `u32::from_str` (through `str::parse`), which std documents
/// as accepting an optional `+` followed by decimal digits, and rejecting
/// an empty string, any other character and a value above `u32::MAX`.
#[verifier::external_body]
fn parse_u32_field(s: &str) -> (r: Option<u32>)
    ensures
        r == decimal_u32(s@),
{
    s.parse::<u32>().ok()
}

/// Parses `s` as two `u32` values around the first `sep`, as in the
/// raster size `4000x3000`.
pub fn parse_u32_pair(s: &str, separator: char) -> (r: Result<(u32, u32), ParseError>)
    ensures
        r == u32_pair_spec(s@, separator),
{
    match split_pair(s, separator) {
        None => Err(ParseError::MissingSeparator),
        Some((left, right)) => pair_from_fields(parse_u32_field(left), parse_u32_field(right)),
    }
}

/// Only the first separator splits: writing a separator-free `a`, the
/// separator and then any `b` gives back exactly `a` and `b`.
pub proof fn lemma_split_fields(a: Seq<char>, b: Seq<char>, sep: char)
    requires
        !a.contains(sep),
    ensures
        split_spec(a + seq![sep] + b, sep) == Some((a, b)),
{
    let s = a + seq![sep] + b;
    assert(s[a.len() as int] == sep);
    s.index_of_first_ensures(sep);
    let k = s.index_of_first(sep)->Some_0;
    if k < a.len() {
        assert(a[k] == s[k]);
    }
    assert(k == a.len());
    assert(s.subrange(0, k) =~= a);
    assert(s.subrange(k + 1, s.len() as int) =~= b);
}

/// A separator-free `a` and any `b` that both read as `u32` values, joined
/// by the separator, parse back to those two values.
pub proof fn lemma_u32_pair_round_trip(a: Seq<char>, b: Seq<char>, sep: char)
    requires
        !a.contains(sep),
        decimal_u32(a) is Some,
        decimal_u32(b) is Some,
    ensures
        u32_pair_spec(a + seq![sep] + b, sep) == Ok::<(u32, u32), ParseError>(
            (decimal_u32(a)->Some_0, decimal_u32(b)->Some_0),
        ),
{
    lemma_split_fields(a, b, sep);
}

/// The inputs that fail: without a separator (the empty string among
/// them) parsing stops at the split; with an empty field on either side of
/// the first separator the field is rejected.
pub proof fn lemma_u32_pair_rejects(s: Seq<char>, sep: char)
    ensures
        !s.contains(sep) ==> u32_pair_spec(s, sep) == Err::<(u32, u32), ParseError>(
            ParseError::MissingSeparator,
        ),
        s.len() == 0 ==> u32_pair_spec(s, sep) == Err::<(u32, u32), ParseError>(
            ParseError::MissingSeparator,
        ),
        split_spec(s, sep) matches Some(f) && (f.0.len() == 0 || f.1.len() == 0)
            ==> u32_pair_spec(s, sep) == Err::<(u32, u32), ParseError>(
            ParseError::MalformedField,
        ),
{
    s.index_of_first_ensures(sep);
}

} // verus!
