//! Reading counts: decimal `u64` values.
use vstd::prelude::*;

use crate::stats::{agrees, is_parse_error, Error};

verus! {

pub open spec fn is_digit(c: char) -> bool {
    '0' <= c && c <= '9'
}

/// The number that a string of decimal digits denotes.
pub open spec fn digits_value(s: Seq<char>) -> nat
    decreases s.len(),
{
    if s.len() == 0 {
        0
    } else {
        (digits_value(s.drop_last()) * 10 + (s.last() as int - '0' as int)) as nat
    }
}

/// What `str::parse::<u64>` accepts: an optional `+` followed by one or
/// more ASCII digits whose value fits in a `u64`.
pub open spec fn decimal_u64(s: Seq<char>) -> Option<u64> {
    let d = if s.len() > 0 && s[0] == '+' {
        s.drop_first()
    } else {
        s
    };
    if d.len() > 0 && (forall|i: int| 0 <= i < d.len() ==> is_digit(d[i])) && digits_value(d)
        <= u64::MAX {
        Some(digits_value(d) as u64)
    } else {
        None
    }
}

/// The text of the `ParseIntError` that `str::parse::<u64>` returns for `s`.
pub uninterp spec fn parse_failure_text(s: Seq<char>) -> Seq<char>;

/// The text that `{:?}` writes for the string `s` (quoted and escaped).
pub uninterp spec fn debug_text(s: Seq<char>) -> Seq<char>;

/// Calls `str::parse::<u64>`. Trusted to accept exactly what
/// [`decimal_u64`] describes, with its value; on failure it gives the
/// error's display text, named [`parse_failure_text`].
#[verifier::external_body]
fn std_parse_u64(s: &str) -> (r: Result<u64, String>)
    ensures
        match r {
            Ok(v) => decimal_u64(s@) == Some(v),
            Err(t) => decimal_u64(s@) is None && t@ == parse_failure_text(s@),
        },
{
    match s.parse::<u64>() {
        Ok(v) => Ok(v),
        Err(e) => Err(e.to_string()),
    }
}

/// Formats `s` with `{:?}` (the `Debug` impl of `str`). Trusted to give
/// the text named [`debug_text`]; what that text is is not stated.
#[verifier::external_body]
pub(crate) fn debug_quoted(s: &str) -> (r: String)
    ensures
        r@ == debug_text(s@),
{
    format!("{:?}", s)
}

/// The message for a count that is not an integer.
pub open spec fn integer_message(quoted: Seq<char>, reason: Seq<char>) -> Seq<char> {
    "expected integer, got "@ + quoted + ": "@ + reason
}

/// What [`parse_u64`] gives for `s`.
pub open spec fn u64_result(s: Seq<char>) -> Result<u64, Seq<char>> {
    match decimal_u64(s) {
        Some(v) => Ok(v),
        None => Err(integer_message(debug_text(s), parse_failure_text(s))),
    }
}

/// The error for a count that is not an integer, from the quoted count and
/// the reason that parsing gave.
pub fn integer_error(quoted: &str, reason: &str) -> (e: Error)
    ensures
        is_parse_error(e, integer_message(quoted@, reason@)),
{
    let mut m = "expected integer, got ".to_owned();
    m.append(quoted);
    m.append(": ");
    m.append(reason);
    Error::Parse(m)
}

/// Parses a count.
pub fn parse_u64(s: &str) -> (r: Result<u64, Error>)
    ensures
        agrees(r, u64_result(s@)),
{
    match std_parse_u64(s) {
        Ok(v) => Ok(v),
        Err(reason) => Err(integer_error(&debug_quoted(s), &reason)),
    }
}

} // verus!
