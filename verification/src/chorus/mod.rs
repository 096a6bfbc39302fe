//! Chorus, the per-slot consensus protocol: its messages, votes, configuration and the
//! proof object that licenses reverting a speculative finalization.

pub mod tally;
pub mod timer;
pub mod validator;

use crate::certifier::{ascending_ids, sort_ids, VoteValue};
use crate::sim::Tick;
use crate::types::{copy_u64s, same_u64s, Digest, MetaBlock, ProposerId, Slot, ValidatorId};
use vstd::prelude::*;

verus! {

/// A round vote on one proposer: its digest and payload, or no.
#[derive(Debug, Clone, PartialEq, Eq, Hash)]
pub enum RoundVote {
    Yes { digest: Digest, payload: Vec<u64> },
    No,
}

impl View for RoundVote {
    type V = Option<(Digest, Seq<u64>)>;

    open spec fn view(&self) -> Option<(Digest, Seq<u64>)> {
        match self {
            RoundVote::Yes { digest, payload } => Some((*digest, payload@)),
            RoundVote::No => None,
        }
    }
}

impl RoundVote {
    pub fn digest(&self) -> (d: Option<Digest>)
        ensures
            d == match self@ {
                Some((digest, _)) => Some(digest),
                None => None,
            },
    {
        match self {
            RoundVote::Yes { digest, .. } => Some(*digest),
            RoundVote::No => None,
        }
    }
}

impl VoteValue for RoundVote {
    fn same_value(&self, other: &Self) -> (r: bool) {
        match (self, other) {
            (RoundVote::Yes { digest: d1, payload: p1 }, RoundVote::Yes { digest: d2, payload: p2 }) => {
                *d1 == *d2 && same_u64s(p1, p2)
            },
            (RoundVote::No, RoundVote::No) => true,
            _ => false,
        }
    }

    fn duplicate(&self) -> (r: Self) {
        match self {
            RoundVote::Yes { digest, payload } => RoundVote::Yes { digest: *digest, payload: copy_u64s(payload) },
            RoundVote::No => RoundVote::No,
        }
    }
}

impl VoteValue for MetaBlock {
    fn same_value(&self, other: &Self) -> (r: bool) {
        self.same_as(other)
    }

    fn duplicate(&self) -> (r: Self) {
        MetaBlock::duplicate(self)
    }
}

#[derive(Debug)]
pub enum ChorusMsg {
    /// A proposer's dissemination of its proposal.
    Disseminate { slot: Slot, proposer: ProposerId, payload: Vec<u64> },
    /// Round 1: one vote per proposer, cast at the deadline.
    Round1Vote { slot: Slot, proposer: ProposerId, vote: RoundVote },
    /// Round 2: a vote on the whole assembled fast meta-block.
    FastVote { slot: Slot, meta_block: MetaBlock },
    /// A validator that timed out on the fast path: its per-proposer fallback votes.
    FallbackBundle { slot: Slot, votes: Vec<(ProposerId, RoundVote)> },
    /// The meta-block a validator proposes to the fallback agreement.
    FallbackPropose { slot: Slot, meta_block: MetaBlock },
    /// The fallback leader's decision.
    FallbackDecide { slot: Slot, meta_block: MetaBlock },
    /// The echo round that certifies the leader's decision.
    FallbackEcho { slot: Slot, meta_block: MetaBlock },
}

pub open spec fn msg_slot(m: ChorusMsg) -> Slot {
    match m {
        ChorusMsg::Disseminate { slot, .. } => slot,
        ChorusMsg::Round1Vote { slot, .. } => slot,
        ChorusMsg::FastVote { slot, .. } => slot,
        ChorusMsg::FallbackBundle { slot, .. } => slot,
        ChorusMsg::FallbackPropose { slot, .. } => slot,
        ChorusMsg::FallbackDecide { slot, .. } => slot,
        ChorusMsg::FallbackEcho { slot, .. } => slot,
    }
}

impl ChorusMsg {
    pub fn slot(&self) -> (s: Slot)
        ensures
            s == msg_slot(*self),
    {
        match self {
            ChorusMsg::Disseminate { slot, .. } => *slot,
            ChorusMsg::Round1Vote { slot, .. } => *slot,
            ChorusMsg::FastVote { slot, .. } => *slot,
            ChorusMsg::FallbackBundle { slot, .. } => *slot,
            ChorusMsg::FallbackPropose { slot, .. } => *slot,
            ChorusMsg::FallbackDecide { slot, .. } => *slot,
            ChorusMsg::FallbackEcho { slot, .. } => *slot,
        }
    }
}

/// The votes of a fallback bundle, each by view.
pub open spec fn bundle_view(v: Seq<(ProposerId, RoundVote)>) -> Seq<(ProposerId, Option<(Digest, Seq<u64>)>)> {
    v.map_values(|e: (ProposerId, RoundVote)| (e.0, e.1@))
}

/// A copy of a fallback bundle's votes.
fn copy_bundle(v: &Vec<(ProposerId, RoundVote)>) -> (r: Vec<(ProposerId, RoundVote)>)
    ensures
        bundle_view(r@) == bundle_view(v@),
{
    let mut r: Vec<(ProposerId, RoundVote)> = Vec::new();
    let mut i: usize = 0;
    while i < v.len()
        invariant
            i <= v@.len(),
            r@.len() == i,
            bundle_view(r@) == bundle_view(v@.take(i as int)),
        decreases v@.len() - i,
    {
        let e = (v[i].0, v[i].1.duplicate());
        let ghost before = r@;
        r.push(e);
        proof {
            assert forall|j: int| 0 <= j < i + 1 implies #[trigger] bundle_view(r@)[j] == bundle_view(v@.take(i + 1))[j] by {
                if j < i {
                    assert(r@[j] == before[j]);
                    assert(bundle_view(before)[j] == bundle_view(v@.take(i as int))[j]);
                }
            }
        }
        i = i + 1;
        assert(bundle_view(r@) =~= bundle_view(v@.take(i as int)));
    }
    assert(v@.take(v@.len() as int) =~= v@);
    r
}

impl Clone for ChorusMsg {
    /// A copy of the same kind, for the same slot, carrying the same proposer, payload,
    /// vote, bundle of votes or meta-block (by view).
    fn clone(&self) -> (r: Self)
        ensures
            (r is Disseminate) == (*self is Disseminate),
            msg_slot(r) == msg_slot(*self),
            msg_copy(*self, r),
    {
        match self {
            ChorusMsg::Disseminate { slot, proposer, payload } => ChorusMsg::Disseminate {
                slot: *slot,
                proposer: *proposer,
                payload: copy_u64s(payload),
            },
            ChorusMsg::Round1Vote { slot, proposer, vote } => ChorusMsg::Round1Vote {
                slot: *slot,
                proposer: *proposer,
                vote: vote.duplicate(),
            },
            ChorusMsg::FastVote { slot, meta_block } => ChorusMsg::FastVote { slot: *slot, meta_block: meta_block.duplicate() },
            ChorusMsg::FallbackBundle { slot, votes } => ChorusMsg::FallbackBundle { slot: *slot, votes: copy_bundle(votes) },
            ChorusMsg::FallbackPropose { slot, meta_block } => ChorusMsg::FallbackPropose {
                slot: *slot,
                meta_block: meta_block.duplicate(),
            },
            ChorusMsg::FallbackDecide { slot, meta_block } => ChorusMsg::FallbackDecide {
                slot: *slot,
                meta_block: meta_block.duplicate(),
            },
            ChorusMsg::FallbackEcho { slot, meta_block } => ChorusMsg::FallbackEcho { slot: *slot, meta_block: meta_block.duplicate() },
        }
    }
}

/// `b` is a copy of `a`: the same kind and slot, with the same proposer, payload, vote,
/// bundle of votes or meta-block, by view.
pub open spec fn msg_copy(a: ChorusMsg, b: ChorusMsg) -> bool {
    match (a, b) {
        (
            ChorusMsg::Disseminate { slot: s1, proposer: p1, payload: x1 },
            ChorusMsg::Disseminate { slot: s2, proposer: p2, payload: x2 },
        ) => s1 == s2 && p1 == p2 && x1@ == x2@,
        (
            ChorusMsg::Round1Vote { slot: s1, proposer: p1, vote: v1 },
            ChorusMsg::Round1Vote { slot: s2, proposer: p2, vote: v2 },
        ) => s1 == s2 && p1 == p2 && v1@ == v2@,
        (ChorusMsg::FastVote { slot: s1, meta_block: m1 }, ChorusMsg::FastVote { slot: s2, meta_block: m2 }) => s1
            == s2 && m1@ == m2@,
        (ChorusMsg::FallbackBundle { slot: s1, votes: v1 }, ChorusMsg::FallbackBundle { slot: s2, votes: v2 }) => s1
            == s2 && bundle_view(v1@) == bundle_view(v2@),
        (
            ChorusMsg::FallbackPropose { slot: s1, meta_block: m1 },
            ChorusMsg::FallbackPropose { slot: s2, meta_block: m2 },
        ) => s1 == s2 && m1@ == m2@,
        (
            ChorusMsg::FallbackDecide { slot: s1, meta_block: m1 },
            ChorusMsg::FallbackDecide { slot: s2, meta_block: m2 },
        ) => s1 == s2 && m1@ == m2@,
        (ChorusMsg::FallbackEcho { slot: s1, meta_block: m1 }, ChorusMsg::FallbackEcho { slot: s2, meta_block: m2 }) => s1
            == s2 && m1@ == m2@,
        _ => false,
    }
}

#[derive(Debug, Clone)]
pub enum ProposerBehavior {
    Honest,
    Silent,
    /// Sends `payload_a` to the validators in `split_a` and `payload_b` to everyone else.
    Equivocate { payload_a: Vec<u64>, payload_b: Vec<u64>, split_a: Vec<ValidatorId> },
    /// Disseminates `payload`, which leaves out whatever it censors.
    Censor { payload: Vec<u64> },
}

#[derive(Debug, Clone)]
pub struct ChorusConfig {
    pub slot: Slot,
    pub deadline: Tick,
    pub delta: Tick,
    pub fallback_timeout: Tick,
    pub proposers: Vec<ProposerId>,
    pub validators: Vec<ValidatorId>,
    pub n: usize,
    pub f: usize,
}

/// Proof that a proposer equivocated: two groups of validators, each attesting with a
/// round-1 yes vote to a different digest for the same (slot, proposer).
#[derive(Debug, Clone, PartialEq, Eq)]
pub struct EquivocationProof {
    pub slot: Slot,
    pub proposer: ProposerId,
    pub digest_a: Digest,
    pub witnesses_a: Vec<ValidatorId>,
    pub digest_b: Digest,
    pub witnesses_b: Vec<ValidatorId>,
}

/// When proposers disseminate: `delta` before the round-1 deadline, or genesis.
pub open spec fn slot_start(c: ChorusConfig) -> Tick {
    if c.deadline >= c.delta {
        (c.deadline - c.delta) as Tick
    } else {
        0
    }
}

impl ChorusConfig {
    /// When proposers disseminate: `delta` before the round-1 deadline, or genesis.
    pub fn start_time(&self) -> (t: Tick)
        ensures
            t == slot_start(*self),
    {
        self.deadline.saturating_sub(self.delta)
    }

    /// The slot's fallback-agreement leader, rotating by slot over the validators sorted
    /// ascending.
    pub fn fallback_leader(&self) -> (l: ValidatorId)
        requires
            self.validators@.len() > 0,
        ensures
            l == ascending_ids(self.validators@)[(self.slot as usize) as int % self.validators@.len() as int],
            self.validators@.contains(l),
    {
        let sorted = sort_ids(&self.validators);
        let i = (self.slot as usize) % sorted.len();
        let l = sorted[i];
        assert(sorted@.contains(l));
        l
    }
}

} // verus!
