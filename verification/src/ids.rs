//! Identifier generation and parsing, delegated to the `uuid` crate.

use vstd::prelude::*;

verus! {

/// The identifier encoded by the characters `s`, if `s` is a well-formed
/// identifier string (hexadecimal in any of the forms the `uuid` crate
/// accepts: simple, hyphenated, braced, or URN-prefixed), and `None`
/// otherwise. Parsing is a function of the input characters alone; the
/// outcome is not spelled out here, so callers learn it only by calling
/// `parse_note_id`.
pub uninterp spec fn parsed_id(s: Seq<char>) -> Option<u128>;

/// Relies on `uuid::Uuid::new_v4` (a randomly generated version-4 UUID) and
/// `Uuid::as_u128`. The value is random: nothing is promised of it.
#[verifier::external_body]
pub(crate) fn fresh_id() -> u128 {
    uuid::Uuid::new_v4().as_u128()
}

/// Relies on `uuid::Uuid::try_parse`, which accepts exactly the well-formed
/// identifier strings (simple, hyphenated, braced, or URN-prefixed
/// hexadecimal) and decides by the input characters alone, and on
/// `Uuid::as_u128`, which reads the identifier back as one 128-bit value.
#[verifier::external_body]
pub(crate) fn parse_note_id(s: &str) -> (r: Option<u128>)
    ensures
        r == parsed_id(s@),
{
    match uuid::Uuid::try_parse(s) {
        Ok(u) => Some(u.as_u128()),
        Err(_) => None,
    }
}

} // verus!
