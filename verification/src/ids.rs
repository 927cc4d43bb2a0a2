//! Identifiers of document objects.
use vstd::prelude::*;

verus! {

/// A fresh random identifier: the 128 bits of `uuid::Uuid::new_v4()`.
/// The value comes from the operating system's random source, so nothing
/// is stated about it.
#[verifier::external_body]
pub(crate) fn fresh_id() -> u128 {
    uuid::Uuid::new_v4().as_u128()
}

} // verus!
