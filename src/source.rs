use rand::rngs::StdRng;
use vstd::prelude::*;

verus! {

#[verifier::external_type_specification]
#[verifier::external_body]
pub struct ExStdRng(StdRng);

/// A source of uniformly distributed 64-bit words, each bit independent
/// and unbiased. Nothing is promised of the words themselves.
pub trait UniformSource {
    /// Produces one fresh word.
    fn next_word(&mut self) -> u64;
}

/// Relies on rand's `RngCore::next_u64` for `StdRng`, which never fails;
/// any word may come back.
#[verifier::external_body]
fn std_rng_word(rng: &mut StdRng) -> u64 {
    rand::RngCore::next_u64(rng)
}

impl UniformSource for StdRng {
    fn next_word(&mut self) -> u64 {
        std_rng_word(self)
    }
}

} // verus!
