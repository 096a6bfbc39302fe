//! Deterministic random streams derived from the run seed: one per node and one per link.

use rand::rngs::StdRng;
use rand::{Rng, RngExt, SeedableRng};
use vstd::prelude::*;

verus! {

/// The random generator type of `rand`; its state is opaque here.
#[verifier::external_type_specification]
#[verifier::external_body]
pub struct ExStdRng(StdRng);

/// Calls `rand::SeedableRng::seed_from_u64` for `StdRng`. Nothing is stated of the
/// generator it builds, whose state is opaque here.
#[verifier::external_body]
fn std_rng_from_seed(seed: u64) -> StdRng {
    StdRng::seed_from_u64(seed)
}

/// Calls `rand::RngExt::random_range` with the inclusive range `low..=high` on a `StdRng`.
/// Claimed, as `rand` documents and its source shows for unsigned integers: for a
/// non-empty range the call returns (and does not panic) a value inside the range. Which
/// value depends on the generator's opaque state, so nothing more is stated.
#[verifier::external_body]
pub(crate) fn random_in_range(rng: &mut StdRng, low: u64, high: u64) -> (r: u64)
    requires
        low <= high,
    ensures
        low <= r <= high,
{
    rng.random_range(low..=high)
}

/// Calls `rand::Rng::next_u64` on a `StdRng`. Any `u64` may come back: the value depends
/// on the generator's opaque state, so nothing is stated of it.
#[verifier::external_body]
pub(crate) fn next_random_word(rng: &mut StdRng) -> u64 {
    rng.next_u64()
}

pub const GOLDEN_GAMMA: u64 = 0x9E37_79B9_7F4A_7C15;

pub const MIX_A: u64 = 0xBF58_476D_1CE4_E5B9;

pub const MIX_B: u64 = 0x94D0_49BB_1331_11EB;

pub const LINK_MUL: u64 = 0x100_0000_01B3;

/// The SplitMix64 finaliser, with 64-bit wrapping arithmetic.
pub open spec fn spec_splitmix64(x: u64) -> u64 {
    let a = x.wrapping_add(GOLDEN_GAMMA);
    let b = (a ^ (a >> 30u64)).wrapping_mul(MIX_A);
    let c = (b ^ (b >> 27u64)).wrapping_mul(MIX_B);
    c ^ (c >> 31u64)
}

pub fn splitmix64(x: u64) -> (r: u64)
    ensures
        r == spec_splitmix64(x),
{
    let a = x.wrapping_add(GOLDEN_GAMMA);
    let b = (a ^ (a >> 30u64)).wrapping_mul(MIX_A);
    let c = (b ^ (b >> 27u64)).wrapping_mul(MIX_B);
    c ^ (c >> 31u64)
}

/// The seed of a node's random stream.
pub open spec fn node_seed(run_seed: u64, node_id: u64) -> u64 {
    spec_splitmix64(run_seed ^ spec_splitmix64(node_id.wrapping_add(GOLDEN_GAMMA)))
}

/// The seed of a link's random stream.
pub open spec fn link_seed(run_seed: u64, from: u64, to: u64) -> u64 {
    spec_splitmix64(run_seed ^ spec_splitmix64(from.wrapping_mul(LINK_MUL).wrapping_add(to)))
}

pub fn node_seed_of(run_seed: u64, node_id: u64) -> (r: u64)
    ensures
        r == node_seed(run_seed, node_id),
{
    splitmix64(run_seed ^ splitmix64(node_id.wrapping_add(GOLDEN_GAMMA)))
}

pub fn link_seed_of(run_seed: u64, from: u64, to: u64) -> (r: u64)
    ensures
        r == link_seed(run_seed, from, to),
{
    splitmix64(run_seed ^ splitmix64(from.wrapping_mul(LINK_MUL).wrapping_add(to)))
}

/// One deterministic stream per node, seeded from the run seed and the node id.
pub fn node_rng(run_seed: u64, node_id: u64) -> StdRng {
    std_rng_from_seed(node_seed_of(run_seed, node_id))
}

/// One deterministic stream per link, seeded from the run seed and both endpoints.
pub fn link_rng(run_seed: u64, from: u64, to: u64) -> StdRng {
    std_rng_from_seed(link_seed_of(run_seed, from, to))
}

} // verus!
