//! Conversions between strings and character vectors.
//!
//! The parsing pipeline works on `Vec<char>` and the serializer produces
//! one; these two trusted functions are the only crossings between that
//! representation and `String`.

use vstd::prelude::*;

verus! {

/// Relies on std's `str::chars`: iterating a string slice yields exactly
/// the characters of its view, in order.
#[verifier::external_body]
pub fn str_to_chars(s: &str) -> (r: Vec<char>)
    ensures
        r@ == s@,
{
    s.chars().collect()
}

/// Relies on std's `FromIterator` for `String`: collecting characters
/// yields the string whose view is that character sequence.
#[verifier::external_body]
pub fn chars_to_string(v: &Vec<char>) -> (r: String)
    ensures
        r@ == v@,
{
    v.iter().collect()
}

} // verus!
