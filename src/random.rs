//! The source of randomness for the search.
use vstd::prelude::*;
use rand::Rng;

verus! {

/// Relies on `rand::thread_rng().gen::<usize>()`: any `usize`, drawn from the
/// thread-local generator. Nothing is promised about which one.
#[verifier::external_body]
pub(crate) fn random_usize() -> (r: usize) {
    rand::thread_rng().gen::<usize>()
}

} // verus!
