//! Values only the host environment can supply: the current wall-clock
//! time and fresh random identifiers. Nothing useful can be promised of
//! either value, so the contracts here state shape at most; every function
//! that consumes such a value is verified for all values.

use vstd::prelude::*;
use vstd::string::StrSliceExecFns;

verus! {

/// Relies on uuid::Uuid::new_v4 and its Display form: a fresh random v4
/// UUID rendered as 36 characters of lowercase hex and hyphens. The value
/// is random, so only its length is stated.
#[verifier::external_body]
pub fn fresh_uuid() -> (r: String)
    ensures
        r@.len() == 36,
{
    uuid::Uuid::new_v4().to_string()
}

/// The first `n` characters of a fresh random UUID, as the services use
/// for their record identifiers.
pub fn fresh_short_id(n: usize) -> (r: String)
    requires
        n <= 36,
    ensures
        r@.len() == n,
{
    let u = fresh_uuid();
    let s = u.as_str().substring_char(0, n);
    s.to_owned()
}

/// Relies on chrono::Utc::now().to_rfc3339(): the current wall-clock time
/// in RFC 3339 form. The value depends on the clock, so nothing is stated
/// about it.
#[verifier::external_body]
pub fn now_rfc3339() -> (r: String) {
    chrono::Utc::now().to_rfc3339()
}

/// Relies on chrono::Utc::now().timestamp_millis(): milliseconds since the
/// Unix epoch. The value depends on the clock, so nothing is stated about
/// it; chrono itself panics on a clock set before the Unix epoch, so the
/// cast never sees a negative count.
#[verifier::external_body]
pub fn now_unix_millis() -> (r: u64) {
    chrono::Utc::now().timestamp_millis() as u64
}

/// Relies on String::from_utf8: it accepts exactly the byte strings that
/// are valid UTF-8, and decoding then re-encoding the accepted string
/// yields the input bytes.
#[verifier::external_body]
pub fn bytes_to_string(v: Vec<u8>) -> (r: Option<String>)
    ensures
        r is Some ==> vstd::utf8::encode_utf8(r->Some_0@) == v@,
        vstd::utf8::valid_utf8(v@) ==> r is Some,
{
    String::from_utf8(v).ok()
}

} // verus!
