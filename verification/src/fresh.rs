//! Ambient inputs: fresh uuids and the current time.
//!
//! Both depend on the outside world, so nothing is assumed of their values;
//! the logic that consumes them is verified for whatever they return.

use vstd::prelude::*;

verus! {

/// Relies on `uuid::Uuid::new_v4`: a fresh random version-4 uuid in
/// hyphenated form, 36 characters. Nothing is assumed of its value.
#[verifier::external_body]
pub fn generate_uuid() -> (r: String)
    ensures
        r@.len() == 36,
{
    uuid::Uuid::new_v4().to_string()
}

/// Relies on `chrono::Utc::now().to_rfc3339()`: the current UTC time as
/// RFC 3339 text. Nothing is assumed of its value.
#[verifier::external_body]
pub fn now_rfc3339() -> (r: String) {
    chrono::Utc::now().to_rfc3339()
}

/// Relies on chrono's date arithmetic: the UTC time `days` days before now,
/// as RFC 3339 text. Nothing is assumed of its value. The bound keeps the
/// subtraction inside chrono's representable range.
#[verifier::external_body]
pub fn rfc3339_days_ago(days: i32) -> (r: String)
    requires
        -1_000_000 <= days <= 1_000_000,
{
    (chrono::Utc::now() - chrono::Duration::days(days as i64)).to_rfc3339()
}

} // verus!
