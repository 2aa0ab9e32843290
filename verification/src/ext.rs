//! Trusted boundary to the outside crates: fresh identifiers, the wall clock,
//! and UTF-8 decoding.  Everything else in the library is verified.

use vstd::prelude::*;

verus! {

/// Relies on `uuid::Uuid::new_v4`: a freshly generated random 128-bit
/// identifier.  Nothing can be promised of a random value.
#[verifier::external_body]
pub fn fresh_id() -> u128 {
    uuid::Uuid::new_v4().as_u128()
}

/// Relies on `chrono::Utc::now` and `DateTime::timestamp_millis`: the current
/// wall-clock instant as milliseconds since the Unix epoch.  Nothing can be
/// promised of the clock's reading.
#[verifier::external_body]
pub fn now_millis() -> i64 {
    chrono::Utc::now().timestamp_millis()
}

/// Relies on `alloc::string::String::from_utf8`: it succeeds exactly on valid
/// UTF-8 input and returns the string whose byte encoding is that input.
#[verifier::external_body]
pub fn bytes_to_string(v: Vec<u8>) -> (r: Option<String>)
    ensures
        r is Some <==> vstd::utf8::valid_utf8(v@),
        r is Some ==> r.unwrap()@ == vstd::utf8::decode_utf8(v@),
{
    String::from_utf8(v).ok()
}

} // verus!
