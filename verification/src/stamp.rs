//! The wall clock, as text.
use vstd::prelude::*;

verus! {

/// The current instant in UTC as RFC 3339 text, from `chrono::Utc::now`
/// and `DateTime::to_rfc3339`. Nothing is claimed of the text: it depends
/// on when the call is made.
#[verifier::external_body]
pub(crate) fn timestamp_now() -> (text: String) {
    chrono::Utc::now().to_rfc3339()
}

/// The current instant in UTC as year, month, day, hour, minute, second
/// and microseconds run together, from `chrono::Utc::now` and
/// `DateTime::format`. Nothing is claimed of the text: it depends on when
/// the call is made.
#[verifier::external_body]
pub(crate) fn file_stamp_now() -> (text: String) {
    chrono::Utc::now().format("%Y%m%d%H%M%S%6f").to_string()
}

} // verus!
