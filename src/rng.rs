use vstd::prelude::*;
use rand::Rng;

verus! {

#[verifier::external_type_specification]
#[verifier::external_body]
pub struct ExIsaac64Rng(rand::Isaac64Rng);

/// The simulation's single deterministic random stream.
pub type SimRng = rand::Isaac64Rng;

/// Relies on rand's `Rng::gen_range(0, n)`: a value in `[0, n)`; it panics
/// when the range is empty.
#[verifier::external_body]
pub fn draw_below(rng: &mut SimRng, n: u64) -> (r: u64)
    requires
        n > 0,
    ensures
        r < n,
{
    rng.gen_range(0u64, n)
}

/// Relies on rand's `Rng::gen::<i64>()`: any 64-bit value.
#[verifier::external_body]
pub fn draw_i64(rng: &mut SimRng) -> (r: i64) {
    rng.gen::<i64>()
}

/// A fair coin from one draw.
pub fn coin(rng: &mut SimRng) -> (r: bool) {
    draw_below(rng, 2) == 0
}

/// True with probability `per_million / 1_000_000`.
pub fn chance(rng: &mut SimRng, per_million: u64) -> (r: bool)
    ensures
        per_million == 0 ==> !r,
        per_million >= 1_000_000 ==> r,
{
    draw_below(rng, 1_000_000) < per_million
}

} // verus!
