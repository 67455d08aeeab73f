//! Fresh identifiers.
use vstd::prelude::*;

verus! {

/// A random identifier, from `uuid::Uuid::new_v4` read as a 128-bit
/// number with `Uuid::as_u128`. Nothing is claimed of the number: it comes
/// from the operating system's random source.
#[verifier::external_body]
pub(crate) fn fresh_id() -> (id: u128) {
    uuid::Uuid::new_v4().as_u128()
}

} // verus!
