use vstd::prelude::*;

verus! {

/// Relies on uuid::Uuid::new_v4 (random version-4 UUID), returned as its
/// 128 bits through Uuid::as_u128. Nothing is promised of the value.
#[verifier::external_body]
pub(crate) fn fresh_id() -> (r: u128) {
    uuid::Uuid::new_v4().as_u128()
}

/// Relies on chrono::Utc::now, read as milliseconds since the Unix epoch
/// through DateTime::timestamp_millis. Nothing is promised of the value.
#[verifier::external_body]
pub(crate) fn now_millis() -> (r: i64) {
    chrono::Utc::now().timestamp_millis()
}

} // verus!
