//! Injectable per-link message delay models.

use crate::sim::rng::{link_rng, random_in_range};
use vstd::prelude::*;

verus! {

pub type NodeId = u64;

pub type Tick = u64;

/// A per-link message delay, deterministic given `(run_seed, from, to, send_seq)`;
/// `send_seq` counts the sends on the link, and `now` is the send tick, so a model may
/// vary over time.
pub trait DelayModel {
    /// Whether the model, as it stands, may give delay `d` to the send number `send_seq`
    /// on the link `from -> to` at tick `now`. A model states its own; by default nothing
    /// is claimed.
    open spec fn admits(&self, run_seed: u64, from: NodeId, to: NodeId, send_seq: u64, now: Tick, d: Tick) -> bool {
        true
    }

    fn delay(&mut self, run_seed: u64, from: NodeId, to: NodeId, send_seq: u64, now: Tick) -> (d: Tick)
        ensures
            old(self).admits(run_seed, from, to, send_seq, now, d),
    ;
}

/// The same delay on every link, always.
pub struct FixedDelay(pub Tick);

impl DelayModel for FixedDelay {
    open spec fn admits(&self, run_seed: u64, from: NodeId, to: NodeId, send_seq: u64, now: Tick, d: Tick) -> bool {
        d == self.0
    }

    fn delay(&mut self, run_seed: u64, from: NodeId, to: NodeId, send_seq: u64, now: Tick) -> (d: Tick)
        ensures
            *final(self) == *old(self),
            d == old(self).0,
    {
        self.0
    }
}

/// A delay drawn uniformly from `min..=max` out of the link's random stream.
pub struct UniformDelay {
    pub min: Tick,
    pub max: Tick,
}

pub const LINK_SEQ_MUL: u64 = 0x9E37_79B9;

impl DelayModel for UniformDelay {
    open spec fn admits(&self, run_seed: u64, from: NodeId, to: NodeId, send_seq: u64, now: Tick, d: Tick) -> bool {
        &&& self.min >= self.max ==> d == self.min
        &&& self.min < self.max ==> self.min <= d <= self.max
    }

    fn delay(&mut self, run_seed: u64, from: NodeId, to: NodeId, send_seq: u64, now: Tick) -> (d: Tick)
        ensures
            *final(self) == *old(self),
            old(self).min >= old(self).max ==> d == old(self).min,
            old(self).min < old(self).max ==> old(self).min <= d <= old(self).max,
    {
        let mut rng = link_rng(run_seed ^ send_seq.wrapping_mul(LINK_SEQ_MUL), from, to);
        if self.min >= self.max {
            self.min
        } else {
            random_in_range(&mut rng, self.min, self.max)
        }
    }
}

/// The first override listed for the link `(from, to)`, if any.
pub open spec fn override_for(overrides: Seq<((NodeId, NodeId), Tick)>, from: NodeId, to: NodeId) -> Option<Tick>
    decreases overrides.len(),
{
    if overrides.len() == 0 {
        None
    } else if overrides[0].0 == (from, to) {
        Some(overrides[0].1)
    } else {
        override_for(overrides.drop_first(), from, to)
    }
}

/// Per-link overrides falling back to a base model; lets a run spike specific links.
pub struct OverrideDelay<B: DelayModel> {
    pub base: B,
    pub overrides: Vec<((NodeId, NodeId), Tick)>,
}

impl<B: DelayModel> DelayModel for OverrideDelay<B> {
    open spec fn admits(&self, run_seed: u64, from: NodeId, to: NodeId, send_seq: u64, now: Tick, d: Tick) -> bool {
        match override_for(self.overrides@, from, to) {
            Some(t) => d == t,
            None => self.base.admits(run_seed, from, to, send_seq, now, d),
        }
    }

    fn delay(&mut self, run_seed: u64, from: NodeId, to: NodeId, send_seq: u64, now: Tick) -> (d: Tick)
        ensures
            final(self).overrides@ == old(self).overrides@,
            override_for(old(self).overrides@, from, to) matches Some(t) ==> d == t,
    {
        let mut i: usize = 0;
        assert(self.overrides@.skip(0) =~= self.overrides@);
        while i < self.overrides.len()
            invariant
                i <= self.overrides@.len(),
                self.overrides@ == old(self).overrides@,
                override_for(self.overrides@, from, to) == override_for(
                    self.overrides@.skip(i as int),
                    from,
                    to,
                ),
                self.base == old(self).base,
            decreases self.overrides.len() - i,
        {
            let (link, t) = self.overrides[i];
            assert(self.overrides@.skip(i as int)[0] == self.overrides@[i as int]);
            if link.0 == from && link.1 == to {
                return t;
            }
            assert(self.overrides@.skip(i as int).drop_first() =~= self.overrides@.skip(i as int + 1));
            i = i + 1;
        }
        self.base.delay(run_seed, from, to, send_seq, now)
    }
}

/// Partial synchrony made literal: a large delay before `heals_at` (the global
/// stabilisation time), a small bounded one from then on.
pub struct PartitionHeal {
    pub heals_at: Tick,
    pub asynchronous_delay: Tick,
    pub synchronous_delay: Tick,
}

impl DelayModel for PartitionHeal {
    open spec fn admits(&self, run_seed: u64, from: NodeId, to: NodeId, send_seq: u64, now: Tick, d: Tick) -> bool {
        d == if now < self.heals_at {
            self.asynchronous_delay
        } else {
            self.synchronous_delay
        }
    }

    fn delay(&mut self, run_seed: u64, from: NodeId, to: NodeId, send_seq: u64, now: Tick) -> (d: Tick)
        ensures
            *final(self) == *old(self),
            d == if now < old(self).heals_at {
                old(self).asynchronous_delay
            } else {
                old(self).synchronous_delay
            },
    {
        if now < self.heals_at {
            self.asynchronous_delay
        } else {
            self.synchronous_delay
        }
    }
}

} // verus!
