//! Trusted boundary to the outside crates that generate identifiers
//! and timestamps. Only the wrappers here call them; everything else
//! is verified against the contracts below.

use vstd::prelude::*;

verus! {

/// The characters a freshly generated identifier may contain:
/// lowercase hexadecimal digits and the hyphen.
pub open spec fn uuid_char(c: char) -> bool {
    ||| ('0' <= c && c <= '9')
    ||| ('a' <= c && c <= 'f')
    ||| c == '-'
}

/// Relies on uuid::Uuid::new_v4 and its Display form: a random
/// version-4 identifier rendered as 36 characters of lowercase
/// hexadecimal digits with hyphens after the 8th, 12th, 16th and
/// 20th digit. The value is random, so nothing relates two calls.
#[verifier::external_body]
pub(crate) fn fresh_uuid() -> (r: String)
    ensures
        r@.len() == 36,
        forall|i: int| 0 <= i < r@.len() ==> uuid_char(#[trigger] r@[i]),
{
    uuid::Uuid::new_v4().to_string()
}

/// Relies on chrono::Utc::now, rendered with to_rfc3339: the current
/// instant as an RFC 3339 timestamp, such as 1996-12-19T16:39:57+00:00.
/// The value depends on the clock, so only its shape is stated.
#[verifier::external_body]
pub(crate) fn iso_date() -> (r: String)
    ensures
        r@.len() >= 19,
{
    chrono::Utc::now().to_rfc3339()
}

} // verus!
