//! The explicit random source that every randomised step of the renderer takes.
use vstd::prelude::*;

verus! {

#[verifier::external_type_specification]
#[verifier::external_body]
pub struct ExStdRng(rand::rngs::StdRng);

/// Relies on `rand::Rng::gen_range` with an inclusive range: a value drawn
/// from `min..=max`; it panics only on an empty range, which `requires` rules out.
#[verifier::external_body]
pub fn rand_int(min: i32, max: i32, rng: &mut rand::rngs::StdRng) -> (r: i32)
    requires
        min <= max,
    ensures
        min <= r <= max,
{
    rand::Rng::gen_range(rng, min..=max)
}

} // verus!
