//! Calls into std and outside crates whose behaviour the library relies on.
use vstd::prelude::*;
use vstd::utf8::{encode_utf8, valid_utf8};

verus! {

/// Relies on `std::str::from_utf8`: it accepts exactly the valid UTF-8 byte
/// strings and then yields the string whose UTF-8 bytes they are.
#[verifier::external_body]
pub(crate) fn utf8_string(b: &[u8]) -> (r: Option<String>)
    ensures
        r is Some <==> valid_utf8(b@),
        r matches Some(s) ==> encode_utf8(s@) == b@,
{
    std::str::from_utf8(b).ok().map(|s| s.to_owned())
}

/// Relies on `uuid::Uuid::new_v4`: a fresh random identifier, handed out as
/// its 16 bytes (`Uuid::as_bytes` is a `[u8; 16]`).
#[verifier::external_body]
pub(crate) fn new_id() -> (r: Vec<u8>)
    ensures
        r@.len() == 16,
{
    uuid::Uuid::new_v4().as_bytes().to_vec()
}

/// Relies on `std::time::SystemTime::now` and `duration_since(UNIX_EPOCH)`:
/// the current time in whole seconds since the epoch, `None` where the clock
/// reads before the epoch (or beyond what an `i64` holds).
#[verifier::external_body]
pub(crate) fn now_timestamp() -> (r: Option<i64>)
    ensures
        r matches Some(t) ==> t >= 0,
{
    let d = std::time::SystemTime::now().duration_since(std::time::UNIX_EPOCH).ok()?;
    i64::try_from(d.as_secs()).ok()
}

/// A JSON value of `serde_json`, carried through unread.
#[verifier::external_type_specification]
#[verifier::external_body]
pub struct ExJsonValue(serde_json::Value);

/// Whether `serde_json::from_slice` accepts the bytes as the JSON text of a
/// value.
pub uninterp spec fn json_parses(b: Seq<u8>) -> bool;

/// The JSON text that `serde_json::to_vec` writes for a value.
pub uninterp spec fn json_text_of(v: serde_json::Value) -> Seq<u8>;

/// The value that `serde_json::from_slice` reads from JSON text it accepts.
pub uninterp spec fn json_value_of(b: Seq<u8>) -> serde_json::Value;

/// Relies on `serde_json::to_vec`: the value's JSON text as bytes. Writing a
/// `Value` into a `Vec` cannot fail: map keys are strings and the writer
/// does not fail.
#[verifier::external_body]
pub(crate) fn json_to_vec(v: &serde_json::Value) -> (r: Option<Vec<u8>>)
    ensures
        r is Some,
        r matches Some(b) ==> b@ == json_text_of(*v),
{
    serde_json::to_vec(v).ok()
}

/// Relies on `serde_json::from_slice`: the value that JSON text denotes,
/// `None` where the bytes are not JSON.
#[verifier::external_body]
pub(crate) fn json_from_slice(b: &[u8]) -> (r: Option<serde_json::Value>)
    ensures
        r is Some <==> json_parses(b@),
        r matches Some(v) ==> v == json_value_of(b@),
{
    serde_json::from_slice(b).ok()
}

} // verus!
