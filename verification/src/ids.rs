//! Entrant identifiers from the `uuid` crate.
use uuid::Uuid;
use vstd::prelude::*;

verus! {

#[verifier::external_type_specification]
#[verifier::external_body]
pub struct ExUuid(Uuid);

/// `uuid::Uuid::new_v4`: a random identifier. Nothing is stated of it: it
/// comes from the operating system's random source (and the crate panics
/// when that source fails).
#[verifier::external_body]
pub(crate) fn fresh_uuid() -> Uuid {
    Uuid::new_v4()
}

} // verus!
