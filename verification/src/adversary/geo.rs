//! A geo-plausible delay matrix: validators spread over five regions with realistic-shaped
//! one-way latencies (same region single-digit ms, cross-region tens to ~220 ms).

use crate::sim::rng::{link_rng, next_random_word};
use crate::sim::{DelayModel, NodeId, Tick};
use crate::types::ValidatorId;
use std::collections::HashMap;
use vstd::prelude::*;

verus! {

pub const REGIONS: [&'static str; 5] = ["us-east", "us-west", "europe", "asia", "sa"];

pub const NUM_REGIONS: usize = 5;

/// Symmetric one-way base latency (ms) between regions `a` and `b`.
pub open spec fn base_latency_spec(a: usize, b: usize) -> Tick {
    if a == b {
        8
    } else {
        let (x, y) = if a < b {
            (a, b)
        } else {
            (b, a)
        };
        if x == 0 && y == 1 {
            60
        } else if x == 0 && y == 2 {
            80
        } else if x == 0 && y == 3 {
            150
        } else if x == 0 && y == 4 {
            110
        } else if x == 1 && y == 2 {
            140
        } else if x == 1 && y == 3 {
            110
        } else if x == 1 && y == 4 {
            170
        } else if x == 2 && y == 3 {
            160
        } else if x == 2 && y == 4 {
            190
        } else {
            220
        }
    }
}

/// The base latency is symmetric, 8 exactly within a region, and between 60 and 220
/// across regions.
pub proof fn law_base_latency_symmetric(a: usize, b: usize)
    ensures
        base_latency_spec(a, b) == base_latency_spec(b, a),
        a == b ==> base_latency_spec(a, b) == 8,
        a != b ==> 60 <= base_latency_spec(a, b) <= 220,
{
}

fn base_latency_ms(a: usize, b: usize) -> (t: Tick)
    requires
        a < NUM_REGIONS,
        b < NUM_REGIONS,
    ensures
        t == base_latency_spec(a, b),
{
    if a == b {
        return 8;
    }
    let (x, y) = if a < b {
        (a, b)
    } else {
        (b, a)
    };
    if x == 0 && y == 1 {
        60
    } else if x == 0 && y == 2 {
        80
    } else if x == 0 && y == 3 {
        150
    } else if x == 0 && y == 4 {
        110
    } else if x == 1 && y == 2 {
        140
    } else if x == 1 && y == 3 {
        110
    } else if x == 1 && y == 4 {
        170
    } else if x == 2 && y == 3 {
        160
    } else if x == 2 && y == 4 {
        190
    } else {
        220
    }
}

/// Validator at position i goes to region i mod 5 (a later position wins for a repeated id).
pub open spec fn region_assignment(validators: Seq<ValidatorId>) -> Map<ValidatorId, usize>
    decreases validators.len(),
{
    if validators.len() == 0 {
        Map::empty()
    } else {
        region_assignment(validators.drop_last()).insert(
            validators.last(),
            ((validators.len() - 1) % 5) as usize,
        )
    }
}

pub fn assign_regions(validators: &[ValidatorId]) -> (m: HashMap<ValidatorId, usize>)
    ensures
        m@ == region_assignment(validators@),
{
    broadcast use vstd::std_specs::hash::group_hash_axioms;

    let mut m: HashMap<ValidatorId, usize> = HashMap::new();
    let mut i: usize = 0;
    while i < validators.len()
        invariant
            i <= validators@.len(),
            m@ == region_assignment(validators@.take(i as int)),
        decreases validators@.len() - i,
    {
        assert(validators@.take(i as int + 1).drop_last() =~= validators@.take(i as int));
        m.insert(validators[i], i % NUM_REGIONS);
        i = i + 1;
    }
    assert(validators@.take(validators@.len() as int) =~= validators@);
    m
}

/// The region of a node: its assigned region, or region 0 when it has none or an
/// assigned region outside the five.
pub open spec fn region_of_node(regions: Map<ValidatorId, usize>, v: NodeId) -> usize {
    if regions.contains_key(v) && regions[v] < NUM_REGIONS {
        regions[v]
    } else {
        0
    }
}

pub struct GeoDelay {
    pub region_of: HashMap<ValidatorId, usize>,
    pub jitter_ms: Tick,
}

impl GeoDelay {
    fn region(&self, v: NodeId) -> (r: usize)
        ensures
            r == region_of_node(self.region_of@, v),
            r < NUM_REGIONS,
    {
        broadcast use vstd::std_specs::hash::group_hash_axioms;

        match self.region_of.get(&v) {
            Some(r) => if *r < NUM_REGIONS {
                *r
            } else {
                0
            },
            None => 0,
        }
    }
}

impl DelayModel for GeoDelay {
    open spec fn admits(&self, run_seed: u64, from: NodeId, to: NodeId, send_seq: u64, now: Tick, d: Tick) -> bool {
        let base = base_latency_spec(region_of_node(self.region_of@, from), region_of_node(self.region_of@, to));
        &&& self.jitter_ms == 0 ==> d == base
        &&& self.jitter_ms > 0 ==> base <= d && d < base + self.jitter_ms
    }

    /// The regions' base latency, plus a jitter in `0..jitter_ms` drawn from the link's
    /// random stream.
    fn delay(&mut self, run_seed: u64, from: NodeId, to: NodeId, send_seq: u64, now: Tick) -> (d: Tick)
        ensures
            *final(self) == *old(self),
            ({
                let base = base_latency_spec(
                    region_of_node(old(self).region_of@, from),
                    region_of_node(old(self).region_of@, to),
                );
                &&& old(self).jitter_ms == 0 ==> d == base
                &&& old(self).jitter_ms > 0 ==> base <= d && d < base + old(self).jitter_ms
            }),
    {
        let ra = self.region(from);
        let rb = self.region(to);
        let base = base_latency_ms(ra, rb);
        if self.jitter_ms == 0 {
            return base;
        }
        let mut rng = link_rng(run_seed ^ send_seq.wrapping_mul(crate::sim::delay::LINK_SEQ_MUL), from, to);
        let jitter = next_random_word(&mut rng) % self.jitter_ms;
        base.saturating_add(jitter)
    }
}

} // verus!
