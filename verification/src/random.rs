//! The source of randomness for the coefficients of a sharing polynomial.
//!
//! The bytes come from `rand`'s thread-local generator, a cryptographically
//! secure generator seeded by the operating system. Nothing can be said of
//! the bytes themselves, so the two functions below promise nothing: what
//! the library does with the bytes is proved for every value they may take.

use rand::rngs::ThreadRng;
use rand::Rng;
use vstd::prelude::*;

verus! {

/// `rand::rngs::ThreadRng`, the handle to the generator of a thread,
/// declared so that it can be passed from one call to the next.
#[verifier::external_type_specification]
#[verifier::external_body]
pub struct ExThreadRng(rand::rngs::ThreadRng);

/// `rand::thread_rng`: a handle to the generator of the current thread.
/// `rand` gives up where the operating system cannot seed the generator.
#[verifier::external_body]
pub(crate) fn thread_generator() -> ThreadRng {
    rand::thread_rng()
}

/// `Rng::gen::<u8>`: the next random byte of the generator.
#[verifier::external_body]
pub(crate) fn random_byte(rng: &mut ThreadRng) -> u8 {
    rng.gen::<u8>()
}

} // verus!
