use vstd::prelude::*;

verus! {

/// The next generator state: the old state advanced by the golden-ratio
/// increment, wrapping on overflow.
pub open spec fn spec_next_state(s: u64) -> u64 {
    vstd::wrapping::u64_specs::wrapping_add(s, 0x9E3779B97F4A7C15)
}

/// The well-mixed 64-bit output drawn at the step that advances the state
/// from `s`. A pure function of `s`: two runs from the same seed see the
/// same draws.
pub open spec fn spec_output(s: u64) -> u64 {
    let z0 = spec_next_state(s);
    let z1 = vstd::wrapping::u64_specs::wrapping_mul(z0 ^ (z0 >> 30u64), 0xBF58476D1CE4E5B9);
    let z2 = vstd::wrapping::u64_specs::wrapping_mul(z1 ^ (z1 >> 27u64), 0x94D049BB133111EB);
    z2 ^ (z2 >> 31u64)
}

/// One step of the splitmix64 generator: advances the state and returns a
/// mixed output, both pure functions of the old state.
pub fn rng_next(state: &mut u64) -> (r: u64)
    ensures
        *final(state) == spec_next_state(*old(state)),
        r == spec_output(*old(state)),
{
    *state = state.wrapping_add(0x9E3779B97F4A7C15);
    let z0 = *state;
    let z1 = (z0 ^ (z0 >> 30u64)).wrapping_mul(0xBF58476D1CE4E5B9);
    let z2 = (z1 ^ (z1 >> 27u64)).wrapping_mul(0x94D049BB133111EB);
    z2 ^ (z2 >> 31u64)
}

/// Relies on rand::random: draws a fresh seed from the thread-local
/// entropy source. Nothing is assumed of the value; every use is verified
/// for every possible seed. The call can abort only if the operating
/// system fails to provide entropy when the thread's generator is first
/// initialized, an environmental failure independent of any input.
#[verifier::external_body]
pub(crate) fn random_seed() -> u64 {
    rand::random::<u64>()
}

} // verus!
