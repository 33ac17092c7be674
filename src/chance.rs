use vstd::prelude::*;

verus! {

/// Relies on rand::random::<u64>: a fresh draw from the thread-local
/// generator. Nothing is promised of the value.
#[verifier::external_body]
pub(crate) fn random_u64() -> (r: u64) {
    rand::random::<u64>()
}

} // verus!
