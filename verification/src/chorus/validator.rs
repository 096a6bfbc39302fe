//! One validator's Chorus instance for one slot: dissemination, round-1 votes, the fast
//! meta-block with its speculative finality, fast votes, and the fallback path.

use crate::certifier::{certified_at, first_certified, law_consistent_quorums_agree, some_certified, vote_count, Certifier, ThresholdCertifier, VoteValue};
use crate::chorus::tally::{count_distinct_voters, decision_spec, fallback_vote, fallback_vote_spec, pick_decision, proof_genuine, voter_union};
use crate::chorus::timer::{kind_word, lemma_timer_labels_distinct, timer_label, timer_label_spec, timer_name, TimerKind};
use crate::chorus::{bundle_view, msg_copy, msg_slot, slot_start, ChorusConfig, ChorusMsg, EquivocationProof, ProposerBehavior, RoundVote};
use crate::idmap::{has_key, keys_distinct, lemma_store_has_key, lemma_store_props, lemma_update_value_props, lookup, store, IdMap};
use crate::sim::{Ctx, Node, Outbound, Tick};
use crate::types::{
    copy_u64s, digest_of, merge_block, merged_txs, opt_payload_view, recovered_view, sort_by_key, spec_digest, Block, Digest, Entry,
    MetaBlock, ProposerId, Slot, ValidatorId,
};
use std::collections::HashMap;
use vstd::prelude::*;

verus! {

#[derive(Debug, Clone, PartialEq, Eq)]
pub struct FinalizedSlot {
    pub meta_block: MetaBlock,
    pub via_fallback: bool,
    /// The round (counted from the slot's round-1 vote) at which finality was observed.
    pub round: u32,
}

/// The round-1 (or fallback) votes cast on proposer `p`, in arrival order.
pub open spec fn votes_on(s: Seq<(ProposerId, IdMap<RoundVote>)>, p: ProposerId) -> Seq<(ValidatorId, RoundVote)> {
    match lookup(s, p) {
        Some(m) => m@,
        None => Seq::empty(),
    }
}

/// The meta-block entry a certified vote stands for.
pub open spec fn entry_of_vote(v: Option<(Digest, Seq<u64>)>) -> Entry {
    match v {
        Some((d, _)) => Entry::Included(d),
        None => Entry::Excluded,
    }
}

/// 2f+1, saturating.
pub open spec fn quorum_size(f: usize) -> nat {
    if 2 * f + 1 <= usize::MAX {
        (2 * f + 1) as nat
    } else {
        usize::MAX as nat
    }
}

/// f+1, saturating.
pub open spec fn weak_quorum_size(f: usize) -> nat {
    if f + 1 <= usize::MAX {
        (f + 1) as nat
    } else {
        usize::MAX as nat
    }
}

/// Entry `e` for proposer `p` is what a value certified by `q` round-1 votes on `p` stands for.
pub open spec fn entry_backed(round1: Seq<(ProposerId, IdMap<RoundVote>)>, p: ProposerId, q: nat, e: Entry) -> bool {
    exists|i: int|
        0 <= i < votes_on(round1, p).len() && #[trigger] certified_at(votes_on(round1, p), i, q) && e
            == entry_of_vote(votes_on(round1, p)[i].1@)
}

/// `raw` lists, for every proposer of the slot in order, an entry certified by a quorum
/// `q` of the round-1 votes on that proposer.
pub open spec fn fast_entries_backed(
    proposers: Seq<ProposerId>,
    round1: Seq<(ProposerId, IdMap<RoundVote>)>,
    q: nat,
    raw: Seq<(ProposerId, Entry)>,
) -> bool {
    &&& raw.len() == proposers.len()
    &&& forall|k: int|
        0 <= k < raw.len() ==> (#[trigger] raw[k]).0 == proposers[k] && entry_backed(round1, proposers[k], q, raw[k].1)
}

/// The payload of the first vote in `s` saying yes to `d`, if any.
pub open spec fn first_yes_payload(s: Seq<(ValidatorId, RoundVote)>, d: Digest) -> Option<Seq<u64>>
    decreases s.len(),
{
    if s.len() == 0 {
        None
    } else {
        match s[0].1@ {
            Some((d0, p)) => if d0 == d {
                Some(p)
            } else {
                first_yes_payload(s.drop_first(), d)
            },
            None => first_yes_payload(s.drop_first(), d),
        }
    }
}

/// Calls `format!` for the log line of a speculative finalization.
#[verifier::external_body]
fn speculated_line(slot: u64, id: ValidatorId) -> String {
    format!("slot {} speculatively finalized by validator {}", slot, id)
}

/// Calls `format!` for the log line of a finalization.
#[verifier::external_body]
fn finalized_line(slot: u64, id: ValidatorId, via_fallback: bool) -> String {
    format!("slot {} finalized by validator {} via_fallback={}", slot, id, via_fallback)
}

/// Calls `format!` for the log line of a finalization that differs from the speculative view.
#[verifier::external_body]
fn revert_line(slot: u64, id: ValidatorId, speculative: &MetaBlock, finalized: &MetaBlock) -> String {
    format!("slot {} REVERT at validator {}: speculative {:?} != final {:?}", slot, id, speculative, finalized)
}

/// A request that sends a dissemination.
pub open spec fn is_dissemination(o: Outbound<ChorusMsg>) -> bool {
    match o {
        Outbound::Send { msg, .. } => msg is Disseminate,
        Outbound::Timer { .. } => false,
    }
}

/// `after` is `before` followed by requests none of which sends a dissemination.
pub open spec fn adds_no_dissemination(before: Seq<Outbound<ChorusMsg>>, after: Seq<Outbound<ChorusMsg>>) -> bool {
    &&& after.len() >= before.len()
    &&& forall|i: int| 0 <= i < before.len() ==> #[trigger] after[i] == before[i]
    &&& forall|i: int| before.len() <= i < after.len() ==> !is_dissemination(#[trigger] after[i])
}

proof fn lemma_adds_no_dissemination_trans(
    a: Seq<Outbound<ChorusMsg>>,
    b: Seq<Outbound<ChorusMsg>>,
    c: Seq<Outbound<ChorusMsg>>,
)
    requires
        adds_no_dissemination(a, b),
        adds_no_dissemination(b, c),
    ensures
        adds_no_dissemination(a, c),
{
    assert forall|i: int| a.len() <= i < c.len() implies !is_dissemination(#[trigger] c[i]) by {
        if i < b.len() {
            assert(c[i] == b[i]);
        }
    }
}

/// Setting a timer sends no dissemination.
proof fn lemma_timer_adds_no_dissemination(before: Seq<Outbound<ChorusMsg>>, after: Seq<Outbound<ChorusMsg>>)
    requires
        after.len() == before.len() + 1,
        after.drop_last() == before || after == before.push(after.last()),
        after.last() is Timer,
    ensures
        adds_no_dissemination(before, after),
{
    assert forall|i: int| 0 <= i < before.len() implies #[trigger] after[i] == before[i] by {
        assert(after.drop_last()[i] == after[i]);
    }
}

/// Request `o` sends proposer `proposer`'s dissemination of `payload` for `slot` to `v`.
pub open spec fn dissemination_to(o: Outbound<ChorusMsg>, v: ValidatorId, slot: Slot, proposer: ProposerId, payload: Seq<u64>) -> bool {
    match o {
        Outbound::Send { to, msg } => match msg {
            ChorusMsg::Disseminate { slot: s, proposer: p, payload: x } => to == v && s == slot && p == proposer && x@
                == payload,
            _ => false,
        },
        Outbound::Timer { .. } => false,
    }
}

/// `after` is `before` followed by one dissemination for `slot` by `proposer` to each of
/// `to`, in order, carrying `payload_for(v)` to `v`.
pub open spec fn sends_disseminations(
    before: Seq<Outbound<ChorusMsg>>,
    after: Seq<Outbound<ChorusMsg>>,
    to: Seq<ValidatorId>,
    slot: Slot,
    proposer: ProposerId,
    payload_for: spec_fn(ValidatorId) -> Seq<u64>,
) -> bool {
    &&& after.len() == before.len() + to.len()
    &&& forall|i: int| 0 <= i < before.len() ==> #[trigger] after[i] == before[i]
    &&& forall|i: int|
        0 <= i < to.len() ==> #[trigger] dissemination_to(after[before.len() + i], to[i], slot, proposer, payload_for(to[i]))
}

/// `after` holds `id`'s own proposal `payload` with its digest, and agrees with `before` on
/// every other proposer.
pub open spec fn holds_own(
    before: Seq<(ProposerId, (Digest, Vec<u64>))>,
    after: Seq<(ProposerId, (Digest, Vec<u64>))>,
    id: ProposerId,
    payload: Seq<u64>,
) -> bool {
    &&& lookup(after, id) matches Some(x) && x.0 == spec_digest(payload) && x.1@ == payload
    &&& forall|q: ProposerId| q != id ==> #[trigger] lookup(after, q) == lookup(before, q)
}

/// The behavior `behaviors` configures for `id`'s own proposals, if any.
pub open spec fn own_behavior(behaviors: Map<ProposerId, ProposerBehavior>, id: ProposerId) -> Option<ProposerBehavior> {
    if behaviors.contains_key(id) {
        Some(behaviors[id])
    } else {
        None
    }
}

/// What an equivocating proposer sends `v`: `payload_a` to the members of `split_a`,
/// `payload_b` to everyone else.
pub open spec fn split_payload(payload_a: Seq<u64>, payload_b: Seq<u64>, split_a: Seq<ValidatorId>, v: ValidatorId) -> Seq<u64> {
    if split_a.contains(v) {
        payload_a
    } else {
        payload_b
    }
}

/// `f` is a finalization by the given path and round, of the earliest value that `q` of
/// the votes `s` back.
pub open spec fn finalized_by(f: Option<FinalizedSlot>, via_fallback: bool, round: u32, s: Seq<(ValidatorId, MetaBlock)>, q: nat) -> bool {
    match f {
        Some(fs) => fs.via_fallback == via_fallback && fs.round == round && first_certified(s, q, fs.meta_block@),
        None => false,
    }
}

/// Every proposer of `proposers` has a round-1 value backed by `q` votes.
pub open spec fn all_certified(proposers: Seq<ProposerId>, round1: Seq<(ProposerId, IdMap<RoundVote>)>, q: nat) -> bool {
    forall|k: int| 0 <= k < proposers.len() ==> #[trigger] some_certified(votes_on(round1, proposers[k]), q)
}

/// Entry `e` is what the votes on `p` support at threshold `t`: the earliest value that
/// reaches `t`, or `Excluded` when none does.
pub open spec fn supported_entry(votes: Seq<(ProposerId, IdMap<RoundVote>)>, p: ProposerId, t: nat, e: Entry) -> bool {
    if some_certified(votes_on(votes, p), t) {
        exists|v: Option<(Digest, Seq<u64>)>| #[trigger] first_certified(votes_on(votes, p), t, v) && e == entry_of_vote(v)
    } else {
        e == Entry::Excluded
    }
}

/// `raw` lists, for every proposer in order, the entry its votes support at threshold `t`.
pub open spec fn supported_entries(
    proposers: Seq<ProposerId>,
    votes: Seq<(ProposerId, IdMap<RoundVote>)>,
    t: nat,
    raw: Seq<(ProposerId, Entry)>,
) -> bool {
    &&& raw.len() == proposers.len()
    &&& forall|k: int|
        0 <= k < raw.len() ==> (#[trigger] raw[k]).0 == proposers[k] && supported_entry(votes, proposers[k], t, raw[k].1)
}

/// Request `o` asks for a timer labelled `label`, `after` ticks from now.
pub open spec fn timer_request(o: Outbound<ChorusMsg>, after: int, label: Seq<char>) -> bool {
    match o {
        Outbound::Timer { after: a, timer } => a == after && timer@ == label,
        Outbound::Send { .. } => false,
    }
}

/// `a + b`, saturating at `u64::MAX`.
pub open spec fn saturating_sum(a: u64, b: u64) -> u64 {
    if a + b > u64::MAX {
        u64::MAX
    } else {
        (a + b) as u64
    }
}

/// `o1` begins with `o0` and then sends a fallback bundle for `slot` carrying `votes` (by
/// view) to each of `to`, in order.
pub open spec fn sends_bundle(
    o0: Seq<Outbound<ChorusMsg>>,
    o1: Seq<Outbound<ChorusMsg>>,
    to: Seq<ValidatorId>,
    slot: Slot,
    votes: Seq<(ProposerId, Option<(Digest, Seq<u64>)>)>,
) -> bool {
    &&& o1.len() >= o0.len() + to.len()
    &&& o1.take(o0.len() as int) == o0
    &&& forall|i: int|
        0 <= i < to.len() ==> match #[trigger] o1[o0.len() + i] {
            Outbound::Send { to: v, msg: ChorusMsg::FallbackBundle { slot: s, votes: vs } } => v == to[i] && s == slot
                && bundle_view(vs@) == votes,
            _ => false,
        }
}

/// The equivocation proofs found along the fallback votes `rs`, in order.
pub open spec fn proofs_found(rs: Seq<(RoundVote, Option<EquivocationProof>)>) -> Seq<EquivocationProof>
    decreases rs.len(),
{
    if rs.len() == 0 {
        Seq::empty()
    } else {
        proofs_found(rs.drop_last()) + match rs.last().1 {
            Some(p) => seq![p],
            None => Seq::empty(),
        }
    }
}

/// `rs` holds, for every proposer in order, its fallback vote (with any proof found) on
/// the round-1 votes `round1`, at threshold `t`.
pub open spec fn fallback_votes_for(
    rs: Seq<(RoundVote, Option<EquivocationProof>)>,
    proposers: Seq<ProposerId>,
    round1: Seq<(ProposerId, IdMap<RoundVote>)>,
    slot: Slot,
    t: nat,
) -> bool {
    &&& rs.len() == proposers.len()
    &&& forall|k: int| 0 <= k < rs.len() ==> fallback_vote_spec(votes_on(round1, proposers[k]), slot, proposers[k], t, #[trigger] rs[k])
}

/// The bundle of the fallback votes `rs` on `proposers`, by view.
pub open spec fn bundle_of(rs: Seq<(RoundVote, Option<EquivocationProof>)>, proposers: Seq<ProposerId>) -> Seq<(ProposerId, Option<(Digest, Seq<u64>)>)> {
    Seq::new(rs.len(), |k: int| (proposers[k], rs[k].0@))
}

/// The view of the round-1 vote a validator casts on `p`: yes, with the digest and payload
/// it saw disseminated, or no.
pub open spec fn own_vote_view(received: Seq<(ProposerId, (Digest, Vec<u64>))>, p: ProposerId) -> Option<(Digest, Seq<u64>)> {
    match lookup(received, p) {
        Some(seen) => Some((seen.0, seen.1@)),
        None => None,
    }
}

/// Request `o` sends `v` a round-1 vote in `slot` on `p` whose view is `vote`.
pub open spec fn round1_vote_to(o: Outbound<ChorusMsg>, v: ValidatorId, slot: Slot, p: ProposerId, vote: Option<(Digest, Seq<u64>)>) -> bool {
    match o {
        Outbound::Send { to, msg: ChorusMsg::Round1Vote { slot: s, proposer, vote: x } } => to == v && s == slot
            && proposer == p && x@ == vote,
        _ => false,
    }
}

/// From position `start` on, `o` holds, for each proposer of `ps` in order, a block of
/// one request per validator of `to`, in order, sending it this validator's round-1 vote
/// on that proposer: exactly one vote per validator and proposer.
pub open spec fn round1_blocks(
    o: Seq<Outbound<ChorusMsg>>,
    start: int,
    to: Seq<ValidatorId>,
    slot: Slot,
    ps: Seq<ProposerId>,
    received: Seq<(ProposerId, (Digest, Vec<u64>))>,
) -> bool {
    &&& o.len() >= start + ps.len() * to.len()
    &&& forall|k: int, i: int|
        #![trigger ps[k], to[i]]
        0 <= k < ps.len() && 0 <= i < to.len() ==> round1_vote_to(
            o[start + k * to.len() + i],
            to[i],
            slot,
            ps[k],
            own_vote_view(received, ps[k]),
        )
}

proof fn lemma_block_index(k: int, kk: int, i: int, v: int)
    requires
        0 <= kk < k,
        0 <= i < v,
    ensures
        kk * v + i < k * v,
        (k + 1) * v == k * v + v,
        0 <= kk * v,
{
    assert(kk * v + i < k * v) by (nonlinear_arith)
        requires
            0 <= kk < k,
            0 <= i < v,
    ;
    assert((k + 1) * v == k * v + v) by (nonlinear_arith);
    assert(0 <= kk * v) by (nonlinear_arith)
        requires
            0 <= kk,
            0 <= i < v,
    ;
}

proof fn lemma_round1_blocks_kept(
    a: Seq<Outbound<ChorusMsg>>,
    b: Seq<Outbound<ChorusMsg>>,
    start: int,
    to: Seq<ValidatorId>,
    slot: Slot,
    ps: Seq<ProposerId>,
    received: Seq<(ProposerId, (Digest, Vec<u64>))>,
)
    requires
        0 <= start,
        round1_blocks(a, start, to, slot, ps, received),
        b.len() >= a.len(),
        forall|i: int| 0 <= i < a.len() ==> #[trigger] b[i] == a[i],
    ensures
        round1_blocks(b, start, to, slot, ps, received),
{
    assert forall|k: int, i: int|
        #![trigger ps[k], to[i]]
        0 <= k < ps.len() && 0 <= i < to.len() implies round1_vote_to(
            b[start + k * to.len() + i],
            to[i],
            slot,
            ps[k],
            own_vote_view(received, ps[k]),
        ) by {
        lemma_block_index(ps.len() as int, k, i, to.len() as int);
        assert(b[start + k * to.len() + i] == a[start + k * to.len() + i]);
    }
}

/// Request `o` sends a copy of `msg` to `v`.
pub open spec fn sent_copy(o: Outbound<ChorusMsg>, v: ValidatorId, msg: ChorusMsg) -> bool {
    match o {
        Outbound::Send { to, msg: m } => to == v && msg_copy(msg, m),
        Outbound::Timer { .. } => false,
    }
}

/// `after` is `before` followed by a copy of `msg` sent to each of `to`, in order.
pub open spec fn broadcast_of(
    before: Seq<Outbound<ChorusMsg>>,
    after: Seq<Outbound<ChorusMsg>>,
    to: Seq<ValidatorId>,
    msg: ChorusMsg,
) -> bool {
    &&& after.len() == before.len() + to.len()
    &&& forall|i: int| 0 <= i < before.len() ==> #[trigger] after[i] == before[i]
    &&& forall|i: int| 0 <= i < to.len() ==> #[trigger] sent_copy(after[before.len() + i], to[i], msg)
}

/// A broadcast sends a copy of its message to each recipient, in order; one of a message
/// that is no dissemination sends no dissemination.
proof fn lemma_broadcast_adds_no_dissemination(
    before: Seq<Outbound<ChorusMsg>>,
    after: Seq<Outbound<ChorusMsg>>,
    to: Seq<ValidatorId>,
    msg: ChorusMsg,
)
    requires
        after.len() == before.len() + to.len(),
        after.take(before.len() as int) == before,
        forall|i: int|
            0 <= i < to.len() ==> match #[trigger] after[before.len() + i] {
                Outbound::Send { to: t, msg: m } => t == to[i] && cloned(msg, m),
                Outbound::Timer { .. } => false,
            },
    ensures
        broadcast_of(before, after, to, msg),
        !(msg is Disseminate) ==> adds_no_dissemination(before, after),
{
    assert forall|i: int| 0 <= i < before.len() implies #[trigger] after[i] == before[i] by {
        assert(after.take(before.len() as int)[i] == after[i]);
    }
    assert forall|i: int| 0 <= i < to.len() implies #[trigger] sent_copy(after[before.len() + i], to[i], msg) by {
        match after[before.len() + i] {
            Outbound::Send { to: t, msg: m } => {
                assert(cloned(msg, m));
            },
            Outbound::Timer { .. } => {},
        }
    }
    if !(msg is Disseminate) {
        assert forall|i: int| before.len() <= i < after.len() implies !is_dissemination(#[trigger] after[i]) by {
            let k = i - before.len();
            assert(after[before.len() + k] == after[i]);
            assert(sent_copy(after[before.len() + k], to[k], msg));
        }
    }
}

pub struct ChorusValidator {
    pub id: ValidatorId,
    pub config: ChorusConfig,
    pub behavior: HashMap<ProposerId, ProposerBehavior>,
    /// A byzantine-silent validator: it never sends anything, as if crashed. (Distinct
    /// from `ProposerBehavior::Silent`, which mutes only a proposer's dissemination.)
    pub muted: bool,
    certifier: ThresholdCertifier,
    /// Proposals seen disseminated directly: proposer -> (digest, payload).
    received: IdMap<(Digest, Vec<u64>)>,
    round1_votes: IdMap<IdMap<RoundVote>>,
    cast_round1: bool,
    fast_meta_block: Option<MetaBlock>,
    pub speculative: Option<FinalizedSlot>,
    fast_votes: IdMap<MetaBlock>,
    cast_fast_vote: bool,
    fallback_timer_fired: bool,
    sent_fallback_bundle: bool,
    second_round_senders: IdMap<()>,
    fallback_votes: IdMap<IdMap<RoundVote>>,
    sent_fallback_propose: bool,
    fallback_proposals: IdMap<MetaBlock>,
    sent_fallback_decide: bool,
    echoed: Option<MetaBlock>,
    fallback_echoes: IdMap<MetaBlock>,
    pub finalized: Option<FinalizedSlot>,
    pub equivocation_proofs: Vec<EquivocationProof>,
    speculative_tick: Option<Tick>,
    finalized_tick: Option<Tick>,
    last_dissemination_tick: Option<Tick>,
    /// Whether timer labels carry the slot (`deadline#<slot>`), as they must for an
    /// instance inside a pipeline, which routes fired timers by slot.
    slot_timers: bool,
}

/// Stores `vote` by `voter` on proposer `p`.
fn record_vote(map: &mut IdMap<IdMap<RoundVote>>, p: ProposerId, voter: ValidatorId, vote: RoundVote)
    ensures
        votes_on(final(map)@, p) == store(votes_on(old(map)@, p), voter, vote),
        forall|q: ProposerId| q != p ==> #[trigger] lookup(final(map)@, q) == lookup(old(map)@, q),
        has_key(final(map)@, p),
{
    proof {
        use_type_invariant(&*map);
    }
    let ghost m0 = map@;
    let d: IdMap<RoundVote> = IdMap::new();
    let ghost dv = d;
    let i = map.index_or_insert(p, d);
    let ghost m1 = map@;
    proof {
        use_type_invariant(&*map);
        if !has_key(m0, p) {
            lemma_store_props(m0, p, dv);
            assert(store(m0, p, dv) == m1);
        }
    }
    let mut inner: IdMap<RoundVote> = IdMap::new();
    map.swap_value_at(i, &mut inner);
    let ghost m_mid = map@;
    assert(inner@ == votes_on(m0, p)) by {
        if has_key(m0, p) {
            assert(m1 == m0);
        } else {
            assert(m1[i as int] == (p, dv));
        }
    }
    inner.insert(voter, vote);
    let ghost inner1 = inner;
    map.swap_value_at(i, &mut inner);
    proof {
        assert(map@ =~= m1.update(i as int, (p, inner1)));
        lemma_update_value_props(m1, i as int, inner1);
        assert forall|q: ProposerId| q != p implies #[trigger] lookup(map@, q) == lookup(m0, q) by {
            if !has_key(m0, p) {
                lemma_store_props(m0, p, dv);
            }
        }
    }
}

impl ChorusValidator {
    pub closed spec fn spec_id(&self) -> ValidatorId {
        self.id
    }

    pub closed spec fn spec_config(&self) -> ChorusConfig {
        self.config
    }

    /// How each proposer's dissemination behaves, by proposer.
    pub closed spec fn spec_behavior(&self) -> Map<ProposerId, ProposerBehavior> {
        self.behavior@
    }

    pub closed spec fn spec_muted(&self) -> bool {
        self.muted
    }

    /// The state a validator starts in: it has seen, voted and sent nothing, no timer of
    /// it has fired, every tally is empty, it has decided nothing and holds no proof, and
    /// its certifier counts with its configuration's `n` and `f`.
    pub closed spec fn fresh(&self) -> bool {
        &&& self.certifier == ThresholdCertifier { n: self.config.n, f: self.config.f }
        &&& self.received@.len() == 0
        &&& self.round1_votes@.len() == 0
        &&& !self.cast_round1
        &&& self.fast_meta_block is None
        &&& self.speculative is None
        &&& self.fast_votes@.len() == 0
        &&& !self.cast_fast_vote
        &&& !self.fallback_timer_fired
        &&& !self.sent_fallback_bundle
        &&& self.second_round_senders@.len() == 0
        &&& self.fallback_votes@.len() == 0
        &&& !self.sent_fallback_propose
        &&& self.fallback_proposals@.len() == 0
        &&& !self.sent_fallback_decide
        &&& self.echoed is None
        &&& self.fallback_echoes@.len() == 0
        &&& self.finalized is None
        &&& self.equivocation_proofs@.len() == 0
        &&& self.speculative_tick is None
        &&& self.finalized_tick is None
        &&& self.last_dissemination_tick is None
    }

    /// Whether this validator has cast its round-1 votes.
    pub closed spec fn spec_cast_round1(&self) -> bool {
        self.cast_round1
    }

    /// The label of timer `kind`: its bare name for a stand-alone validator, tagged with
    /// the slot for a pipeline instance.
    pub closed spec fn timer_label_of(&self, kind: TimerKind) -> Seq<char> {
        if self.slot_timers {
            timer_label_spec(kind, self.config.slot)
        } else {
            kind_word(kind)
        }
    }

    /// Whether this validator labels its timers with the slot.
    pub closed spec fn spec_slot_timers(&self) -> bool {
        self.slot_timers
    }

    pub closed spec fn spec_finalized(&self) -> Option<FinalizedSlot> {
        self.finalized
    }

    pub closed spec fn spec_speculative(&self) -> Option<FinalizedSlot> {
        self.speculative
    }

    pub closed spec fn spec_proofs(&self) -> Seq<EquivocationProof> {
        self.equivocation_proofs@
    }

    /// The f the instance's certifier counts with.
    pub closed spec fn fault_bound(&self) -> usize {
        self.certifier.f
    }

    /// Proposals seen disseminated: proposer -> (digest, payload).
    pub closed spec fn received_view(&self) -> Seq<(ProposerId, (Digest, Vec<u64>))> {
        self.received@
    }

    /// Round-1 votes per proposer.
    pub closed spec fn round1(&self) -> Seq<(ProposerId, IdMap<RoundVote>)> {
        self.round1_votes@
    }

    /// Fast (round-2) votes per voter.
    pub closed spec fn fast_votes_view(&self) -> Seq<(ValidatorId, MetaBlock)> {
        self.fast_votes@
    }

    /// The validators a second-round message (fast vote or fallback bundle) came from.
    pub closed spec fn senders_view(&self) -> Seq<(ValidatorId, ())> {
        self.second_round_senders@
    }

    /// Fallback votes per proposer, per voter.
    pub closed spec fn fallback_votes_view(&self) -> Seq<(ProposerId, IdMap<RoundVote>)> {
        self.fallback_votes@
    }

    /// After a round-1 vote that does not complete the fast path, as `new` stands: the
    /// fallback timer has fired, no fast meta-block or bundle exists, and round-1 votes of
    /// 2f+1 distinct validators are in.
    pub closed spec fn round1_fallback_due(self, new: ChorusValidator) -> bool {
        &&& !self.fast_path_due(new)
        &&& self.fallback_timer_fired
        &&& self.fast_meta_block is None
        &&& !self.sent_fallback_bundle
        &&& voter_union(new.round1_votes@).len() >= quorum_size(self.certifier.f)
    }

    /// Fallback proposals per proposing validator.
    pub closed spec fn proposals_view(&self) -> Seq<(ValidatorId, MetaBlock)> {
        self.fallback_proposals@
    }

    /// Fallback echoes per voter.
    pub closed spec fn echoes_view(&self) -> Seq<(ValidatorId, MetaBlock)> {
        self.fallback_echoes@
    }

    /// The payload recovered for `proposer`'s entry `Included(digest)`.
    pub open spec fn recovered_payload(self, proposer: ProposerId, digest: Digest) -> Option<Seq<u64>> {
        match lookup(self.received_view(), proposer) {
            Some(seen) if seen.0 == digest => Some(seen.1@),
            _ => first_yes_payload(votes_on(self.round1(), proposer), digest),
        }
    }

    /// What the merge takes for one meta-block entry.
    pub open spec fn recovered_entry(self, e: (ProposerId, Entry)) -> (ProposerId, Option<Seq<u64>>) {
        match e.1 {
            Entry::Included(d) => (e.0, self.recovered_payload(e.0, d)),
            Entry::Excluded => (e.0, None),
        }
    }

    /// No fast meta-block is built yet, and the round-1 votes of `new` hold a 2f+1
    /// certificate for every proposer.
    pub closed spec fn fast_path_due(self, new: ChorusValidator) -> bool {
        &&& self.fast_meta_block is None
        &&& all_certified(self.config.proposers@, new.round1_votes@, quorum_size(self.certifier.f))
    }

    /// The fast path as `new` takes it from `self`: the fast meta-block is the canonical
    /// form of one 2f+1-certified entry per proposer; it becomes the speculative view if
    /// there was none; and, unless this validator already voted, its fast vote goes to
    /// every validator (outbox `o0` becomes `o1`) and fast finality is tried.
    pub closed spec fn fast_path_taken(self, new: ChorusValidator, o0: Seq<Outbound<ChorusMsg>>, o1: Seq<Outbound<ChorusMsg>>) -> bool {
        let q = quorum_size(self.certifier.f);
        &&& new.fast_meta_block is Some
        &&& new.fast_meta_block->0.slot == self.config.slot
        &&& exists|raw: Seq<(ProposerId, Entry)>|
            new.fast_meta_block->0.entries@ == sort_by_key(raw) && #[trigger] fast_entries_backed(
                self.config.proposers@,
                new.round1_votes@,
                q,
                raw,
            )
        &&& new.speculative is Some
        &&& self.speculative is None ==> new.speculative->0.meta_block@ == new.fast_meta_block->0@
            && new.speculative->0.round == 1 && !new.speculative->0.via_fallback
        &&& !self.cast_fast_vote ==> {
            &&& new.cast_fast_vote
            &&& broadcast_of(
                o0,
                o1,
                self.config.validators@,
                ChorusMsg::FastVote { slot: self.config.slot, meta_block: new.fast_meta_block->0 },
            )
            &&& self.finalized is None && some_certified(new.fast_votes@, q) ==> finalized_by(
                new.finalized,
                false,
                2,
                new.fast_votes@,
                q,
            )
        }
        &&& self.cast_fast_vote ==> o1 == o0
    }

    /// The meta-block this validator proposes to the fallback agreement: the first fast
    /// vote it holds, else the canonical meta-block of the entries its fallback votes
    /// support at f+1.
    spec fn fallback_candidate(self, mb: MetaBlock) -> bool {
        if self.fast_votes@.len() > 0 {
            mb@ == self.fast_votes@[0].1@
        } else {
            &&& mb.slot == self.config.slot
            &&& exists|raw: Seq<(ProposerId, Entry)>|
                mb.entries@ == sort_by_key(raw) && #[trigger] supported_entries(
                    self.config.proposers@,
                    self.fallback_votes@,
                    weak_quorum_size(self.certifier.f),
                    raw,
                )
        }
    }

    /// `o1` is `o0` followed by a fallback proposal of a candidate to every validator.
    spec fn proposes_candidate(self, o0: Seq<Outbound<ChorusMsg>>, o1: Seq<Outbound<ChorusMsg>>) -> bool {
        exists|mb: MetaBlock|
            #[trigger] self.fallback_candidate(mb) && broadcast_of(
                o0,
                o1,
                self.config.validators@,
                ChorusMsg::FallbackPropose { slot: self.config.slot, meta_block: mb },
            )
    }

    /// This validator is the slot's fallback leader, has not decided yet, and holds at
    /// least 2f+1 (and at least one) fallback proposals.
    spec fn leads_decision(self) -> bool {
        &&& self.config.validators@.len() > 0
        &&& !self.sent_fallback_decide
        &&& self.id == self.leader()
        &&& self.fallback_proposals@.len() >= quorum_size(self.certifier.f)
        &&& self.fallback_proposals@.len() > 0
    }

    /// `o1` is `o0` followed by the leader's decision over its proposals, sent to every
    /// validator.
    spec fn sends_decision(self, o0: Seq<Outbound<ChorusMsg>>, o1: Seq<Outbound<ChorusMsg>>) -> bool {
        exists|mb: MetaBlock|
            #[trigger] decision_spec(self.fallback_proposals@, mb) && broadcast_of(
                o0,
                o1,
                self.config.validators@,
                ChorusMsg::FallbackDecide { slot: self.config.slot, meta_block: mb },
            )
    }

    /// The slot's fallback leader: the validators sorted ascending, rotated by slot.
    pub closed spec fn leader(self) -> ValidatorId {
        crate::certifier::ascending_ids(self.config.validators@)[(self.config.slot as usize) as int
            % self.config.validators@.len() as int]
    }

    /// A fallback decision `mb` from `from`, as `new` handles it from `self` (outbox `o0`
    /// becoming `o1`): the first one that comes from the leader is echoed to every
    /// validator and counted as this validator's own echo, and fallback finality is
    /// tried; any other changes nothing.
    pub closed spec fn echoes_decision(
        self,
        new: ChorusValidator,
        from: ValidatorId,
        mb: MetaBlock,
        o0: Seq<Outbound<ChorusMsg>>,
        o1: Seq<Outbound<ChorusMsg>>,
    ) -> bool {
        let q = quorum_size(self.certifier.f);
        if self.config.validators@.len() > 0 && self.echoed is None && from == self.leader() {
            &&& new.echoed is Some
            &&& new.echoed->0@ == mb@
            &&& new.fallback_echoes@ == store(self.fallback_echoes@, self.id, mb)
            &&& broadcast_of(o0, o1, self.config.validators@, ChorusMsg::FallbackEcho { slot: self.config.slot, meta_block: mb })
            &&& self.finalized is None && some_certified(new.fallback_echoes@, q) ==> finalized_by(
                new.finalized,
                true,
                3,
                new.fallback_echoes@,
                q,
            )
        } else {
            new == self && o1 == o0
        }
    }

    /// After a second-round message, as `new` stands: once 2f+1 distinct validators have
    /// sent one and nothing was proposed yet, a candidate goes to the fallback agreement;
    /// otherwise nothing is sent.
    pub closed spec fn propose_step(self, new: ChorusValidator, o0: Seq<Outbound<ChorusMsg>>, o1: Seq<Outbound<ChorusMsg>>) -> bool {
        if self.sent_fallback_propose || new.second_round_senders@.len() < quorum_size(self.certifier.f) {
            o1 == o0 && new.sent_fallback_propose == self.sent_fallback_propose
        } else {
            new.sent_fallback_propose && new.proposes_candidate(o0, o1)
        }
    }

    /// After a fallback proposal, as `new` stands: the leader that has not decided yet and
    /// holds 2f+1 proposals sends its decision; otherwise nothing is sent.
    pub closed spec fn decide_step(self, new: ChorusValidator, o0: Seq<Outbound<ChorusMsg>>, o1: Seq<Outbound<ChorusMsg>>) -> bool {
        if self.config.validators@.len() > 0 && !self.sent_fallback_decide && self.id == self.leader()
            && new.fallback_proposals@.len() >= quorum_size(self.certifier.f) && new.fallback_proposals@.len() > 0 {
            new.sent_fallback_decide && new.sends_decision(o0, o1)
        } else {
            o1 == o0 && new.sent_fallback_decide == self.sent_fallback_decide
        }
    }

    /// Setting the proposal flag keeps what a candidate is.
    proof fn lemma_candidate_kept(self, new: ChorusValidator, o0: Seq<Outbound<ChorusMsg>>, o1: Seq<Outbound<ChorusMsg>>)
        requires
            new == (ChorusValidator { sent_fallback_propose: true, ..self }),
            self.proposes_candidate(o0, o1),
        ensures
            new.proposes_candidate(o0, o1),
    {
        let mb = choose|mb: MetaBlock|
            #[trigger] self.fallback_candidate(mb) && broadcast_of(
                o0,
                o1,
                self.config.validators@,
                ChorusMsg::FallbackPropose { slot: self.config.slot, meta_block: mb },
            );
        if self.fast_votes@.len() == 0 {
            let raw = choose|raw: Seq<(ProposerId, Entry)>|
                mb.entries@ == sort_by_key(raw) && #[trigger] supported_entries(
                    self.config.proposers@,
                    self.fallback_votes@,
                    weak_quorum_size(self.certifier.f),
                    raw,
                );
            assert(supported_entries(new.config.proposers@, new.fallback_votes@, weak_quorum_size(new.certifier.f), raw));
        }
        assert(new.fallback_candidate(mb));
    }

    /// What dissemination does, as `new` stands after it from `self` (outbox `o0` becoming
    /// `o1`), by the validator's own proposer behavior: nothing when silent; otherwise its
    /// payload (honest: `[id * 1000]`, wrapping) to every validator, split between two
    /// payloads when equivocating, keeping its own copy when it is a validator.
    pub closed spec fn dissemination_step(self, new: ChorusValidator, o0: Seq<Outbound<ChorusMsg>>, o1: Seq<Outbound<ChorusMsg>>) -> bool {
        match own_behavior(self.behavior@, self.id) {
            Some(ProposerBehavior::Silent) => new.received@ == self.received@ && o1
                == o0,
            Some(ProposerBehavior::Censor { payload }) => holds_own(
                self.received@,
                new.received@,
                self.id,
                payload@,
            ) && sends_disseminations(
                o0,
                o1,
                self.config.validators@,
                self.config.slot,
                self.id,
                |v: ValidatorId| payload@,
            ),
            Some(ProposerBehavior::Equivocate { payload_a, payload_b, split_a }) => sends_disseminations(
                o0,
                o1,
                self.config.validators@,
                self.config.slot,
                self.id,
                |v: ValidatorId| split_payload(payload_a@, payload_b@, split_a@, v),
            ) && if self.config.validators@.contains(self.id) {
                holds_own(
                    self.received@,
                    new.received@,
                    self.id,
                    split_payload(payload_a@, payload_b@, split_a@, self.id),
                )
            } else {
                new.received@ == self.received@
            },
            _ => holds_own(
                self.received@,
                new.received@,
                self.id,
                seq![self.id.wrapping_mul(1000)],
            ) && sends_disseminations(
                o0,
                o1,
                self.config.validators@,
                self.config.slot,
                self.id,
                |v: ValidatorId| seq![self.id.wrapping_mul(1000)],
            ),
        }
    }

    /// At start time `now`, neither the proposal nor the round-1 votes are due yet.
    pub closed spec fn start_not_due(self, now: Tick) -> bool {
        &&& now < self.config.deadline
        &&& (!self.config.proposers@.contains(self.id) || now < slot_start(self.config))
    }

    /// `o1` is `o0` followed by the timers a start at `now` sets: the dissemination timer
    /// (proposers only) for the slot start, the deadline timer, and, if it lies ahead, the
    /// fallback timer `fallback_timeout` past the deadline.
    pub closed spec fn start_timers_set(self, now: Tick, o0: Seq<Outbound<ChorusMsg>>, o1: Seq<Outbound<ChorusMsg>>) -> bool {
        let n0 = o0.len() as int;
        let d: int = if self.config.proposers@.contains(self.id) { 1 } else { 0 };
        let timeout_at = saturating_sum(self.config.deadline, self.config.fallback_timeout);
        let t: int = if timeout_at > now { 1 } else { 0 };
        &&& o1.len() == n0 + d + 1 + t
        &&& o1.take(n0) == o0
        &&& d == 1 ==> timer_request(o1[n0], slot_start(self.config) - now, self.timer_label_of(TimerKind::Disseminate))
        &&& timer_request(o1[n0 + d], self.config.deadline - now, self.timer_label_of(TimerKind::Deadline))
        &&& t == 1 ==> timer_request(
            o1[n0 + d + 1],
            timeout_at - now,
            self.timer_label_of(TimerKind::FallbackTimeout),
        )
    }

    /// Whether this validator has sent its fallback bundle.
    pub closed spec fn spec_sent_bundle(&self) -> bool {
        self.sent_fallback_bundle
    }

    /// The fallback path is due: the fallback timer has fired (or `fired`), no fast
    /// meta-block exists, no bundle was sent, and 2f+1 distinct validators cast round-1
    /// votes.
    pub closed spec fn fallback_due(self, fired: bool) -> bool {
        &&& self.fallback_timer_fired || fired
        &&& self.fast_meta_block is None
        &&& !self.sent_fallback_bundle
        &&& voter_union(self.round1_votes@).len() >= quorum_size(self.certifier.f)
    }

    /// Entering the fallback path, as `new` stands after it from `self` (outbox `o0`
    /// becoming `o1`), with round-1 votes `round1`: the bundle is marked sent; a fallback
    /// vote is computed for every proposer; the proofs found are appended in order; and the
    /// bundle of those votes goes to every validator.
    pub closed spec fn enters_fallback(
        self,
        new: ChorusValidator,
        round1: Seq<(ProposerId, IdMap<RoundVote>)>,
        o0: Seq<Outbound<ChorusMsg>>,
        o1: Seq<Outbound<ChorusMsg>>,
    ) -> bool {
        &&& new.sent_fallback_bundle
        &&& exists|rs: Seq<(RoundVote, Option<EquivocationProof>)>|
            #[trigger] fallback_votes_for(rs, self.config.proposers@, round1, self.config.slot, weak_quorum_size(self.certifier.f))
                && new.equivocation_proofs@ == self.equivocation_proofs@ + proofs_found(rs) && sends_bundle(
                o0,
                o1,
                self.config.validators@,
                self.config.slot,
                bundle_of(rs, self.config.proposers@),
            )
    }

    /// A finalized slot, once recorded, and a speculative view, once formed, never change;
    /// equivocation proofs are only ever appended; identity and configuration are fixed;
    /// round-1 votes, once cast, stay cast.
    pub open spec fn keeps_decisions(self, new: ChorusValidator) -> bool {
        &&& (self.spec_finalized() is Some ==> new.spec_finalized() == self.spec_finalized())
        &&& (self.spec_speculative() is Some ==> new.spec_speculative() == self.spec_speculative())
        &&& new.spec_proofs().len() >= self.spec_proofs().len()
        &&& new.spec_proofs().take(self.spec_proofs().len() as int) == self.spec_proofs()
        &&& new.spec_id() == self.spec_id()
        &&& new.spec_config() == self.spec_config()
        &&& new.spec_muted() == self.spec_muted()
        &&& new.fault_bound() == self.fault_bound()
        &&& (self.spec_cast_round1() ==> new.spec_cast_round1())
    }

    /// A slot newly finalized in a step is backed by a quorum: 2f+1 fast votes for the
    /// meta-block (round 2, fast path), or 2f+1 fallback echoes of it (round 3).
    pub open spec fn finality_justified(self, new: ChorusValidator) -> bool {
        self.spec_finalized() is None ==> match new.spec_finalized() {
            None => true,
            Some(fs) => {
                ||| (!fs.via_fallback && fs.round == 2 && vote_count(new.fast_votes_view(), fs.meta_block@)
                    >= quorum_size(new.fault_bound()))
                ||| (fs.via_fallback && fs.round == 3 && vote_count(new.echoes_view(), fs.meta_block@)
                    >= quorum_size(new.fault_bound()))
            },
        }
    }

    /// A speculative view newly formed in a step is the canonical fast meta-block: every
    /// proposer's entry is certified by 2f+1 round-1 votes, at round 1.
    pub open spec fn speculation_justified(self, new: ChorusValidator) -> bool {
        self.spec_speculative() is None ==> match new.spec_speculative() {
            None => true,
            Some(sp) => {
                &&& sp.round == 1
                &&& !sp.via_fallback
                &&& sp.meta_block.slot == new.spec_config().slot
                &&& exists|raw: Seq<(ProposerId, Entry)>|
                    sp.meta_block.entries@ == sort_by_key(raw) && #[trigger] fast_entries_backed(
                        new.spec_config().proposers@,
                        new.round1(),
                        quorum_size(new.fault_bound()),
                        raw,
                    )
            },
        }
    }

    /// Equivocation proofs added in a step are genuine: read off the round-1 votes on the
    /// proposer they name, with at least f+1 witnesses for each of two digests.
    pub open spec fn new_proofs_genuine(self, new: ChorusValidator) -> bool {
        forall|j: int|
            self.spec_proofs().len() <= j < new.spec_proofs().len() ==> proof_genuine(
                #[trigger] new.spec_proofs()[j],
                votes_on(new.round1(), new.spec_proofs()[j].proposer),
                new.spec_config().slot,
                new.spec_proofs()[j].proposer,
                weak_quorum_size(new.fault_bound()),
            )
    }

    /// What every step of an instance guarantees.
    pub open spec fn step_ok(self, new: ChorusValidator) -> bool {
        &&& self.keeps_decisions(new)
        &&& self.finality_justified(new)
        &&& self.speculation_justified(new)
        &&& self.new_proofs_genuine(new)
    }

    pub proof fn lemma_step_refl(self)
        ensures
            self.step_ok(self),
    {
        assert(self.spec_proofs().take(self.spec_proofs().len() as int) =~= self.spec_proofs());
    }

    /// A step that records no decision and no proof, keeps identity and configuration, and
    /// does not take back cast round-1 votes.
    pub open spec fn quiet_step(self, new: ChorusValidator) -> bool {
        &&& new.spec_finalized() == self.spec_finalized()
        &&& new.spec_speculative() == self.spec_speculative()
        &&& new.spec_proofs() == self.spec_proofs()
        &&& new.spec_id() == self.spec_id()
        &&& new.spec_config() == self.spec_config()
        &&& new.spec_muted() == self.spec_muted()
        &&& new.fault_bound() == self.fault_bound()
        &&& (self.spec_cast_round1() ==> new.spec_cast_round1())
    }

    pub proof fn lemma_quiet_step(self, new: ChorusValidator)
        requires
            self.quiet_step(new),
        ensures
            self.step_ok(new),
    {
        assert(self.spec_proofs().take(self.spec_proofs().len() as int) =~= self.spec_proofs());
    }

    /// Two steps make a step, provided the second leaves alone what justified the first.
    pub proof fn lemma_step_compose(a: ChorusValidator, b: ChorusValidator, c: ChorusValidator)
        requires
            a.step_ok(b),
            b.step_ok(c),
            a.spec_finalized() is None && b.spec_finalized() is Some ==> c.fast_votes_view()
                == b.fast_votes_view() && c.echoes_view() == b.echoes_view(),
            a.spec_speculative() is None && b.spec_speculative() is Some ==> c.round1() == b.round1(),
            b.spec_proofs().len() > a.spec_proofs().len() ==> c.round1() == b.round1(),
        ensures
            a.step_ok(c),
    {
        let pa = a.spec_proofs();
        let pb = b.spec_proofs();
        let pc = c.spec_proofs();
        assert(pc.take(pa.len() as int) =~= pb.take(pa.len() as int)) by {
            assert(pc.take(pb.len() as int) == pb);
        }
        assert forall|j: int| pa.len() <= j < pc.len() implies proof_genuine(
            #[trigger] pc[j],
            votes_on(c.round1(), pc[j].proposer),
            c.spec_config().slot,
            pc[j].proposer,
            weak_quorum_size(c.fault_bound()),
        ) by {
            if j < pb.len() {
                assert(pc[j] == pc.take(pb.len() as int)[j]);
                assert(pb[j] == pc[j]);
            }
        }
        if a.spec_speculative() is None && b.spec_speculative() is Some {
            let sp = b.spec_speculative().unwrap();
            let raw = choose|raw: Seq<(ProposerId, Entry)>|
                sp.meta_block.entries@ == sort_by_key(raw) && #[trigger] fast_entries_backed(
                    b.spec_config().proposers@,
                    b.round1(),
                    quorum_size(b.fault_bound()),
                    raw,
                );
            assert(fast_entries_backed(
                c.spec_config().proposers@,
                c.round1(),
                quorum_size(c.fault_bound()),
                raw,
            ));
        }
    }
}

/// The voters in `s` are all in `all`, each recorded once.
pub open spec fn tally_over(s: Seq<(ValidatorId, MetaBlock)>, all: Set<ValidatorId>) -> bool {
    &&& keys_distinct(s)
    &&& forall|i: int| 0 <= i < s.len() ==> all.contains(#[trigger] s[i].0)
}

/// Two tallies record every shared voter's meta-block alike.
pub open spec fn tallies_consistent(s1: Seq<(ValidatorId, MetaBlock)>, s2: Seq<(ValidatorId, MetaBlock)>) -> bool {
    forall|i: int, j: int|
        0 <= i < s1.len() && 0 <= j < s2.len() && #[trigger] s1[i].0 == #[trigger] s2[j].0 ==> s1[i].1@ == s2[j].1@
}

/// Over any run of steps of one validator (each of its callbacks is one), a finalized slot
/// and a speculative view, once there, never change.
pub proof fn law_decisions_never_overwritten(states: Seq<ChorusValidator>)
    requires
        forall|k: int| 0 <= k < states.len() - 1 ==> #[trigger] states[k].step_ok(states[k + 1]),
    ensures
        forall|i: int, j: int|
            #![trigger states[i].spec_finalized(), states[j].spec_finalized()]
            0 <= i <= j < states.len() && states[i].spec_finalized() is Some ==> states[j].spec_finalized()
                == states[i].spec_finalized(),
        forall|i: int, j: int|
            #![trigger states[i].spec_speculative(), states[j].spec_speculative()]
            0 <= i <= j < states.len() && states[i].spec_speculative() is Some ==> states[j].spec_speculative()
                == states[i].spec_speculative(),
    decreases states.len(),
{
    if states.len() > 1 {
        let init = states.drop_last();
        assert forall|k: int| 0 <= k < init.len() - 1 implies #[trigger] init[k].step_ok(init[k + 1]) by {
            assert(states[k].step_ok(states[k + 1]));
        }
        law_decisions_never_overwritten(init);
        let n = states.len() - 1;
        assert forall|i: int, j: int|
            #![trigger states[i].spec_finalized(), states[j].spec_finalized()]
            0 <= i <= j < states.len() && states[i].spec_finalized() is Some implies states[j].spec_finalized()
                == states[i].spec_finalized() by {
            if j < n {
                assert(init[i] == states[i] && init[j] == states[j]);
            } else if i < n {
                assert(init[i] == states[i] && init[n - 1] == states[n - 1]);
                assert(init[i].spec_finalized() is Some ==> init[n - 1].spec_finalized() == init[i].spec_finalized());
                let k = n - 1;
                assert(states[k].step_ok(states[k + 1]));
            }
        }
        assert forall|i: int, j: int|
            #![trigger states[i].spec_speculative(), states[j].spec_speculative()]
            0 <= i <= j < states.len() && states[i].spec_speculative() is Some implies states[j].spec_speculative()
                == states[i].spec_speculative() by {
            if j < n {
                assert(init[i] == states[i] && init[j] == states[j]);
            } else if i < n {
                assert(init[i] == states[i] && init[n - 1] == states[n - 1]);
                assert(init[i].spec_speculative() is Some ==> init[n - 1].spec_speculative() == init[i].spec_speculative());
                let k = n - 1;
                assert(states[k].step_ok(states[k + 1]));
            }
        }
    }
}

/// Two validators that finalize a slot by the same path, each in one step, out of at most
/// 3f+1 validators whose votes (fast votes, or fallback echoes) both recorded alike,
/// finalize the same meta-block: their 2f+1 quorums share a voter.
pub proof fn law_same_path_finality_agrees(
    a0: ChorusValidator,
    a1: ChorusValidator,
    b0: ChorusValidator,
    b1: ChorusValidator,
    all: Set<ValidatorId>,
)
    requires
        a0.step_ok(a1),
        b0.step_ok(b1),
        a0.spec_finalized() is None,
        b0.spec_finalized() is None,
        a1.spec_finalized() is Some,
        b1.spec_finalized() is Some,
        a1.spec_finalized().unwrap().via_fallback == b1.spec_finalized().unwrap().via_fallback,
        a1.fault_bound() == b1.fault_bound(),
        2 * a1.fault_bound() + 1 <= usize::MAX,
        all.finite(),
        all.len() <= 3 * a1.fault_bound() + 1,
        !a1.spec_finalized().unwrap().via_fallback ==> tally_over(a1.fast_votes_view(), all) && tally_over(
            b1.fast_votes_view(),
            all,
        ) && tallies_consistent(a1.fast_votes_view(), b1.fast_votes_view()),
        a1.spec_finalized().unwrap().via_fallback ==> tally_over(a1.echoes_view(), all) && tally_over(
            b1.echoes_view(),
            all,
        ) && tallies_consistent(a1.echoes_view(), b1.echoes_view()),
    ensures
        a1.spec_finalized().unwrap().meta_block@ == b1.spec_finalized().unwrap().meta_block@,
{
    let f = a1.fault_bound() as nat;
    let ma = a1.spec_finalized().unwrap().meta_block@;
    let mb = b1.spec_finalized().unwrap().meta_block@;
    if a1.spec_finalized().unwrap().via_fallback {
        law_consistent_quorums_agree(a1.echoes_view(), b1.echoes_view(), all, f, ma, mb);
    } else {
        law_consistent_quorums_agree(a1.fast_votes_view(), b1.fast_votes_view(), all, f, ma, mb);
    }
}

/// What a proposer sends when it disseminates.
enum Dissemination {
    Nothing,
    ToAll(Vec<u64>),
    Split { payload_a: Vec<u64>, payload_b: Vec<u64>, split_a: Vec<ValidatorId> },
}

fn contains_id(ids: &Vec<ValidatorId>, x: ValidatorId) -> (r: bool)
    ensures
        r == ids@.contains(x),
{
    crate::types::contains_u64(ids, x)
}

impl ChorusValidator {
    pub fn new(id: ValidatorId, config: ChorusConfig, behavior: HashMap<ProposerId, ProposerBehavior>) -> (v: Self)
        ensures
            v.spec_id() == id,
            v.spec_config() == config,
            !v.spec_muted(),
            v.spec_finalized() is None,
            v.spec_speculative() is None,
            v.spec_proofs() == Seq::<EquivocationProof>::empty(),
            v.fault_bound() == config.f,
            v.spec_speculative_tick() is None,
            v.spec_finalized_tick() is None,
            v.spec_last_dissemination_tick() is None,
            v.spec_behavior() == behavior@,
            v.received_view().len() == 0,
            v.round1().len() == 0,
            v.fast_votes_view().len() == 0,
            v.echoes_view().len() == 0,
            !v.spec_slot_timers(),
            v.fresh(),
    {
        Self::new_with_muted(id, config, behavior, false)
    }

    /// The validator as one slot's instance inside a pipeline: like `new_with_muted`, but
    /// its timer labels carry the slot, so the pipeline can route them.
    pub fn new_instance(
        id: ValidatorId,
        config: ChorusConfig,
        behavior: HashMap<ProposerId, ProposerBehavior>,
        muted: bool,
    ) -> (v: Self)
        ensures
            v.spec_id() == id,
            v.spec_config() == config,
            v.spec_muted() == muted,
            v.spec_finalized() is None,
            v.spec_speculative() is None,
            v.spec_proofs() == Seq::<EquivocationProof>::empty(),
            v.fault_bound() == config.f,
            v.spec_speculative_tick() is None,
            v.spec_finalized_tick() is None,
            v.spec_last_dissemination_tick() is None,
            v.spec_behavior() == behavior@,
            v.received_view().len() == 0,
            v.round1().len() == 0,
            v.fast_votes_view().len() == 0,
            v.echoes_view().len() == 0,
            v.spec_slot_timers(),
            v.fresh(),
    {
        let mut v = Self::new_with_muted(id, config, behavior, muted);
        v.slot_timers = true;
        v
    }

    pub fn new_with_muted(
        id: ValidatorId,
        config: ChorusConfig,
        behavior: HashMap<ProposerId, ProposerBehavior>,
        muted: bool,
    ) -> (v: Self)
        ensures
            v.spec_id() == id,
            v.spec_config() == config,
            v.spec_muted() == muted,
            v.spec_finalized() is None,
            v.spec_speculative() is None,
            v.spec_proofs() == Seq::<EquivocationProof>::empty(),
            v.fault_bound() == config.f,
            v.spec_speculative_tick() is None,
            v.spec_finalized_tick() is None,
            v.spec_last_dissemination_tick() is None,
            v.spec_behavior() == behavior@,
            v.received_view().len() == 0,
            v.round1().len() == 0,
            v.fast_votes_view().len() == 0,
            v.echoes_view().len() == 0,
            !v.spec_slot_timers(),
            v.fresh(),
    {
        let certifier = ThresholdCertifier { n: config.n, f: config.f };
        ChorusValidator {
            id,
            config,
            behavior,
            muted,
            certifier,
            received: IdMap::new(),
            round1_votes: IdMap::new(),
            cast_round1: false,
            fast_meta_block: None,
            speculative: None,
            fast_votes: IdMap::new(),
            cast_fast_vote: false,
            fallback_timer_fired: false,
            sent_fallback_bundle: false,
            second_round_senders: IdMap::new(),
            fallback_votes: IdMap::new(),
            sent_fallback_propose: false,
            fallback_proposals: IdMap::new(),
            sent_fallback_decide: false,
            echoed: None,
            fallback_echoes: IdMap::new(),
            finalized: None,
            equivocation_proofs: Vec::new(),
            speculative_tick: None,
            finalized_tick: None,
            last_dissemination_tick: None,
            slot_timers: false,
        }
    }

    pub fn finalized_slot(&self) -> (r: &Option<FinalizedSlot>)
        ensures
            *r == self.spec_finalized(),
    {
        &self.finalized
    }

    pub fn speculative_slot(&self) -> (r: &Option<FinalizedSlot>)
        ensures
            *r == self.spec_speculative(),
    {
        &self.speculative
    }

    pub fn proofs(&self) -> (r: &Vec<EquivocationProof>)
        ensures
            r@ == self.spec_proofs(),
    {
        &self.equivocation_proofs
    }

    /// The round-1 deadline of this instance's slot.
    pub fn deadline(&self) -> (d: Tick)
        ensures
            d == self.spec_config().deadline,
    {
        self.config.deadline
    }

    /// When this validator formed its speculative view.
    pub closed spec fn spec_speculative_tick(&self) -> Option<Tick> {
        self.speculative_tick
    }

    /// When this validator observed finality.
    pub closed spec fn spec_finalized_tick(&self) -> Option<Tick> {
        self.finalized_tick
    }

    /// When this validator last accepted a dissemination.
    pub closed spec fn spec_last_dissemination_tick(&self) -> Option<Tick> {
        self.last_dissemination_tick
    }

    /// When this validator formed its speculative view.
    pub fn speculative_tick(&self) -> (r: Option<Tick>)
        ensures
            r == self.spec_speculative_tick(),
    {
        self.speculative_tick
    }

    /// When this validator observed finality.
    pub fn finalized_tick(&self) -> (r: Option<Tick>)
        ensures
            r == self.spec_finalized_tick(),
    {
        self.finalized_tick
    }

    /// When this validator last accepted a dissemination.
    pub fn last_dissemination_tick(&self) -> (r: Option<Tick>)
        ensures
            r == self.spec_last_dissemination_tick(),
    {
        self.last_dissemination_tick
    }

    fn timer_label_for(&self, kind: TimerKind) -> (s: String)
        ensures
            s@ == self.timer_label_of(kind),
    {
        if self.slot_timers {
            timer_label(kind, self.config.slot)
        } else {
            timer_name(kind)
        }
    }

    fn is_proposer(&self) -> (r: bool)
        ensures
            r == self.config.proposers@.contains(self.id),
    {
        contains_id(&self.config.proposers, self.id)
    }

    fn quorum(&self) -> (q: usize)
        ensures
            q == quorum_size(self.certifier.f),
    {
        self.certifier.quorum_2f_plus_1()
    }

    fn weak_quorum(&self) -> (q: usize)
        ensures
            q == weak_quorum_size(self.certifier.f),
            q >= 1,
    {
        self.certifier.quorum_f_plus_1()
    }

    /// Records a finalization, unless one is already recorded.
    fn finalize(&mut self, ctx: &mut Ctx<ChorusMsg>, meta_block: MetaBlock, via_fallback: bool, round: u32)
        ensures
            final(ctx).outbox() == old(ctx).outbox(),
            adds_no_dissemination(old(ctx).outbox(), final(ctx).outbox()),
            old(self).finalized is Some ==> final(self).finalized == old(self).finalized,
            old(self).finalized is None ==> final(self).finalized == Some(
                FinalizedSlot { meta_block, via_fallback, round },
            ),
            final(self).speculative == old(self).speculative,
            final(self).equivocation_proofs@ == old(self).equivocation_proofs@,
            final(self).id == old(self).id,
            final(self).config == old(self).config,
            final(self).muted == old(self).muted,
            final(self).certifier == old(self).certifier,
            final(self).received@ == old(self).received@,
            final(self).round1_votes@ == old(self).round1_votes@,
            final(self).fast_votes@ == old(self).fast_votes@,
            final(self).fallback_echoes@ == old(self).fallback_echoes@,
            final(self).fast_meta_block == old(self).fast_meta_block,
            final(self).cast_fast_vote == old(self).cast_fast_vote,
            *final(self) == (ChorusValidator {
                finalized: final(self).finalized,
                finalized_tick: final(self).finalized_tick,
                ..*old(self)
            }),
    {
        if self.finalized.is_some() {
            return;
        }
        match &self.speculative {
            Some(spec) => {
                if !spec.meta_block.same_as(&meta_block) {
                    ctx.log(revert_line(self.config.slot, self.id, &spec.meta_block, &meta_block));
                }
            },
            None => {},
        }
        ctx.log(finalized_line(self.config.slot, self.id, via_fallback));
        self.finalized = Some(FinalizedSlot { meta_block, via_fallback, round });
        self.finalized_tick = Some(ctx.now());
    }

    fn try_finalize_fast(&mut self, ctx: &mut Ctx<ChorusMsg>)
        ensures
            final(ctx).outbox() == old(ctx).outbox(),
            old(self).finalized is None && some_certified(old(self).fast_votes@, quorum_size(old(self).certifier.f))
                ==> finalized_by(final(self).finalized, false, 2, old(self).fast_votes@, quorum_size(old(self).certifier.f)),
            !(old(self).finalized is None && some_certified(old(self).fast_votes@, quorum_size(old(self).certifier.f)))
                ==> final(self).finalized == old(self).finalized,
            adds_no_dissemination(old(ctx).outbox(), final(ctx).outbox()),
            old(self).step_ok(*final(self)),
            final(self).speculative == old(self).speculative,
            final(self).equivocation_proofs@ == old(self).equivocation_proofs@,
            final(self).received@ == old(self).received@,
            final(self).round1_votes@ == old(self).round1_votes@,
            final(self).fast_votes@ == old(self).fast_votes@,
            final(self).fallback_echoes@ == old(self).fallback_echoes@,
            final(self).fast_meta_block == old(self).fast_meta_block,
            final(self).cast_fast_vote == old(self).cast_fast_vote,
            *final(self) == (ChorusValidator {
                finalized: final(self).finalized,
                finalized_tick: final(self).finalized_tick,
                ..*old(self)
            }),
    {
        proof {
            old(self).lemma_step_refl();
        }
        if self.finalized.is_some() {
            return;
        }
        let q = self.quorum();
        match self.certifier.certify(&self.fast_votes, q) {
            Some(c) => {
                self.finalize(ctx, c.value, false, 2);
                proof {
                    assert(self.spec_proofs().take(old(self).spec_proofs().len() as int) =~= old(self).spec_proofs());
                }
            },
            None => {},
        }
    }

    fn try_finalize_fallback(&mut self, ctx: &mut Ctx<ChorusMsg>)
        ensures
            final(ctx).outbox() == old(ctx).outbox(),
            old(self).finalized is None && some_certified(old(self).fallback_echoes@, quorum_size(old(self).certifier.f))
                ==> finalized_by(final(self).finalized, true, 3, old(self).fallback_echoes@, quorum_size(old(self).certifier.f)),
            !(old(self).finalized is None && some_certified(old(self).fallback_echoes@, quorum_size(old(self).certifier.f)))
                ==> final(self).finalized == old(self).finalized,
            adds_no_dissemination(old(ctx).outbox(), final(ctx).outbox()),
            old(self).step_ok(*final(self)),
            final(self).speculative == old(self).speculative,
            final(self).equivocation_proofs@ == old(self).equivocation_proofs@,
            final(self).received@ == old(self).received@,
            final(self).round1_votes@ == old(self).round1_votes@,
            final(self).fast_votes@ == old(self).fast_votes@,
            final(self).fallback_echoes@ == old(self).fallback_echoes@,
            *final(self) == (ChorusValidator {
                finalized: final(self).finalized,
                finalized_tick: final(self).finalized_tick,
                ..*old(self)
            }),
    {
        proof {
            old(self).lemma_step_refl();
        }
        if self.finalized.is_some() {
            return;
        }
        let q = self.quorum();
        match self.certifier.certify(&self.fallback_echoes, q) {
            Some(c) => {
                self.finalize(ctx, c.value, true, 3);
                proof {
                    assert(self.spec_proofs().take(old(self).spec_proofs().len() as int) =~= old(self).spec_proofs());
                }
            },
            None => {},
        }
    }
}

impl ChorusValidator {
    /// Once every proposer has a 2f+1 round-1 certificate, assembles the fast meta-block,
    /// forms the speculative view, and casts this validator's fast vote.
    fn try_build_fast_meta_block(&mut self, ctx: &mut Ctx<ChorusMsg>)
        ensures
            adds_no_dissemination(old(ctx).outbox(), final(ctx).outbox()),
            old(self).step_ok(*final(self)),
            final(self).equivocation_proofs@ == old(self).equivocation_proofs@,
            final(self).received@ == old(self).received@,
            final(self).round1_votes@ == old(self).round1_votes@,
            final(self).fallback_echoes@ == old(self).fallback_echoes@,
            old(self).fast_meta_block is Some ==> *final(self) == *old(self),
            !old(self).fast_path_due(*old(self)) ==> *final(self) == *old(self) && *final(ctx) == *old(ctx),
            old(self).fast_path_due(*old(self)) ==> old(self).fast_path_taken(
                *final(self),
                old(ctx).outbox(),
                final(ctx).outbox(),
            ),
    {
        proof {
            old(self).lemma_step_refl();
        }
        if self.fast_meta_block.is_some() {
            return;
        }
        let q = self.quorum();
        let ghost round1 = self.round1_votes@;
        let ghost proposers = self.config.proposers@;
        let mut entries: Vec<(ProposerId, Entry)> = Vec::new();
        let mut k: usize = 0;
        while k < self.config.proposers.len()
            invariant
                k <= proposers.len(),
                proposers == self.config.proposers@,
                round1 == self.round1_votes@,
                q == quorum_size(self.certifier.f),
                *self == *old(self),
                old(self).step_ok(*self),
                entries@.len() == k,
                forall|j: int|
                    0 <= j < k ==> (#[trigger] entries@[j]).0 == proposers[j] && entry_backed(round1, proposers[j], q as nat, entries@[j].1),
            decreases proposers.len() - k,
        {
            let proposer = self.config.proposers[k];
            let votes = match self.round1_votes.get(proposer) {
                Some(v) => v,
                None => {
                    proof {
                        assert(votes_on(round1, proposers[k as int]).len() == 0);
                        assert(!some_certified(votes_on(round1, proposers[k as int]), q as nat));
                    }
                    return;
                },
            };
            match self.certifier.certify(votes, q) {
                Some(c) => {
                    let e = match c.value {
                        RoundVote::Yes { digest, .. } => Entry::Included(digest),
                        RoundVote::No => Entry::Excluded,
                    };
                    let ghost before = entries@;
                    entries.push((proposer, e));
                    proof {
                        assert(votes_on(round1, proposer) == votes@);
                        let i = choose|i: int|
                            0 <= i < votes@.len() && #[trigger] certified_at(votes@, i, q as nat) && c.value@
                                == votes@[i].1@ && (forall|j: int| 0 <= j < i ==> !certified_at(votes@, j, q as nat))
                                && vote_count(votes@, c.value@) >= q as nat && c.signers@.len() == vote_count(votes@, c.value@)
                                && crate::certifier::strictly_increasing(c.signers@) && (forall|kk: u64|
                                #[trigger] c.signers@.contains(kk) <==> crate::certifier::voters_of(votes@, c.value@).contains(kk));
                        assert(e == entry_of_vote(c.value@));
                        assert(entry_backed(round1, proposer, q as nat, e));
                        assert forall|j: int|
                            0 <= j < k + 1 implies (#[trigger] entries@[j]).0 == proposers[j] && entry_backed(round1, proposers[j], q as nat, entries@[j].1) by {
                            if j < k {
                                assert(entries@[j] == before[j]);
                            } else {
                                assert(certified_at(votes_on(round1, proposers[j]), i, q as nat));
                            }
                        }
                    }
                },
                None => {
                    proof {
                        assert(votes_on(round1, proposer) == votes@);
                        assert(!some_certified(votes_on(round1, proposers[k as int]), q as nat));
                    }
                    return;
                },
            }
            k = k + 1;
        }
        proof {
            assert forall|kk: int| 0 <= kk < proposers.len() implies #[trigger] some_certified(
                votes_on(round1, proposers[kk]),
                q as nat,
            ) by {
                assert(entries@[kk].0 == proposers[kk] && entry_backed(round1, proposers[kk], q as nat, entries@[kk].1));
                let i = choose|i: int|
                    0 <= i < votes_on(round1, proposers[kk]).len() && #[trigger] certified_at(
                        votes_on(round1, proposers[kk]),
                        i,
                        q as nat,
                    ) && entries@[kk].1 == entry_of_vote(votes_on(round1, proposers[kk])[i].1@);
            }
        }
        let ghost raw = entries@;
        let mb = MetaBlock { slot: self.config.slot, entries }.canonical();
        self.fast_meta_block = Some(mb.duplicate());
        assert(self.fast_meta_block->0@ == mb@);
        if self.speculative.is_none() {
            self.speculative = Some(FinalizedSlot { meta_block: mb.duplicate(), via_fallback: false, round: 1 });
            self.speculative_tick = Some(ctx.now());
            ctx.log(speculated_line(self.config.slot, self.id));
            proof {
                assert(fast_entries_backed(proposers, round1, q as nat, raw));
                assert(self.speculative->0.meta_block.entries@ == sort_by_key(raw));
                assert(fast_entries_backed(
                    self.spec_config().proposers@,
                    self.round1(),
                    quorum_size(self.fault_bound()),
                    raw,
                ));
                assert(old(self).speculation_justified(*self));
            }
        }
        let ghost mid = *self;
        proof {
            assert(self.spec_proofs().take(old(self).spec_proofs().len() as int) =~= old(self).spec_proofs());
            assert(old(self).step_ok(mid));
        }
        if !self.cast_fast_vote {
            self.cast_fast_vote = true;
            self.fast_votes.insert(self.id, mb.duplicate());
            let msg = ChorusMsg::FastVote { slot: self.config.slot, meta_block: mb };
            let ghost sent = msg;
            let ghost before_send = ctx.outbox();
            ctx.broadcast(self.config.validators.as_slice(), msg);
            proof {
                lemma_broadcast_adds_no_dissemination(before_send, ctx.outbox(), self.config.validators@, sent);
                let target = ChorusMsg::FastVote { slot: self.config.slot, meta_block: self.fast_meta_block->0 };
                assert forall|i: int| 0 <= i < self.config.validators@.len() implies #[trigger] sent_copy(
                    ctx.outbox()[before_send.len() + i],
                    self.config.validators@[i],
                    target,
                ) by {
                    assert(sent_copy(ctx.outbox()[before_send.len() + i], self.config.validators@[i], sent));
                }
            }
            let ghost mid2 = *self;
            proof {
                assert(self.spec_proofs().take(mid.spec_proofs().len() as int) =~= mid.spec_proofs());
                assert(mid.step_ok(mid2));
                Self::lemma_step_compose(*old(self), mid, mid2);
            }
            self.try_finalize_fast(ctx);
            proof {
                Self::lemma_step_compose(*old(self), mid2, *self);
            }
        }
        proof {
            assert(fast_entries_backed(proposers, round1, q as nat, raw));
            assert(self.fast_meta_block->0.entries@ == sort_by_key(raw));
        }
    }

    /// Proposes a meta-block to the fallback agreement once 2f+1 second-round messages
    /// (fast votes or fallback bundles) have arrived: a fast-voted meta-block if one was
    /// seen, else the meta-block the f+1 fallback votes support.
    fn maybe_propose_to_fallback_agreement(&mut self, ctx: &mut Ctx<ChorusMsg>)
        ensures
            adds_no_dissemination(old(ctx).outbox(), final(ctx).outbox()),
            old(self).step_ok(*final(self)),
            final(self).finalized == old(self).finalized,
            final(self).speculative == old(self).speculative,
            final(self).equivocation_proofs@ == old(self).equivocation_proofs@,
            final(self).received@ == old(self).received@,
            final(self).round1_votes@ == old(self).round1_votes@,
            final(self).fast_votes@ == old(self).fast_votes@,
            final(self).fallback_echoes@ == old(self).fallback_echoes@,
            old(self).sent_fallback_propose || old(self).second_round_senders@.len() < quorum_size(old(self).certifier.f)
                ==> *final(self) == *old(self) && *final(ctx) == *old(ctx),
            !(old(self).sent_fallback_propose || old(self).second_round_senders@.len() < quorum_size(
                old(self).certifier.f,
            )) ==> *final(self) == (ChorusValidator { sent_fallback_propose: true, ..*old(self) })
                && old(self).proposes_candidate(old(ctx).outbox(), final(ctx).outbox()),
    {
        proof {
            old(self).lemma_step_refl();
        }
        if self.sent_fallback_propose {
            return;
        }
        if self.second_round_senders.len() < self.quorum() {
            return;
        }
        self.sent_fallback_propose = true;
        let candidate = if self.fast_votes.len() > 0 {
            self.fast_votes.value_at(0).duplicate()
        } else {
            let t = self.weak_quorum();
            let ghost proposers = self.config.proposers@;
            let ghost fvotes = self.fallback_votes@;
            let mut entries: Vec<(ProposerId, Entry)> = Vec::new();
            let mut k: usize = 0;
            while k < self.config.proposers.len()
                invariant
                    k <= self.config.proposers@.len(),
                    proposers == self.config.proposers@,
                    fvotes == self.fallback_votes@,
                    entries@.len() == k,
                    forall|j: int|
                        0 <= j < k ==> (#[trigger] entries@[j]).0 == proposers[j] && supported_entry(
                            fvotes,
                            proposers[j],
                            t as nat,
                            entries@[j].1,
                        ),
                decreases self.config.proposers@.len() - k,
            {
                let proposer = self.config.proposers[k];
                let entry = match self.fallback_votes.get(proposer) {
                    Some(votes) => {
                        proof {
                            assert(votes_on(fvotes, proposer) == votes@);
                        }
                        match self.certifier.certify(votes, t) {
                            Some(c) => {
                                let e = match c.value {
                                    RoundVote::Yes { digest, .. } => Entry::Included(digest),
                                    RoundVote::No => Entry::Excluded,
                                };
                                proof {
                                    let s = votes@;
                                    let i = choose|i: int|
                                        0 <= i < s.len() && #[trigger] certified_at(s, i, t as nat) && c.value@ == s[i].1@
                                            && (forall|j: int| 0 <= j < i ==> !certified_at(s, j, t as nat))
                                            && vote_count(s, c.value@) >= t as nat && c.signers@.len() == vote_count(
                                            s,
                                            c.value@,
                                        ) && crate::certifier::strictly_increasing(c.signers@) && (forall|kk: u64|
                                            #[trigger] c.signers@.contains(kk)
                                                <==> crate::certifier::voters_of(s, c.value@).contains(kk));
                                    assert(first_certified(s, t as nat, c.value@));
                                    assert(some_certified(s, t as nat));
                                    assert(e == entry_of_vote(c.value@));
                                }
                                e
                            },
                            None => {
                                proof {
                                    assert(!some_certified(votes@, t as nat));
                                }
                                Entry::Excluded
                            },
                        }
                    },
                    None => {
                        proof {
                            assert(votes_on(fvotes, proposer).len() == 0);
                            assert(!some_certified(votes_on(fvotes, proposer), t as nat));
                        }
                        Entry::Excluded
                    },
                };
                let ghost before = entries@;
                entries.push((proposer, entry));
                proof {
                    assert forall|j: int| 0 <= j < k + 1 implies (#[trigger] entries@[j]).0 == proposers[j] && supported_entry(
                        fvotes,
                        proposers[j],
                        t as nat,
                        entries@[j].1,
                    ) by {
                        if j < k {
                            assert(entries@[j] == before[j]);
                        }
                    }
                }
                k = k + 1;
            }
            let ghost raw = entries@;
            let mb = MetaBlock { slot: self.config.slot, entries }.canonical();
            proof {
                assert(supported_entries(proposers, fvotes, t as nat, raw));
                assert(old(self).fallback_candidate(mb));
            }
            mb
        };
        proof {
            assert(old(self).fallback_candidate(candidate));
        }
        let msg = ChorusMsg::FallbackPropose { slot: self.config.slot, meta_block: candidate };
        let ghost sent = msg;
        let ghost before_send = ctx.outbox();
        ctx.broadcast(self.config.validators.as_slice(), msg);
        proof {
            lemma_broadcast_adds_no_dissemination(before_send, ctx.outbox(), self.config.validators@, sent);
            assert(old(self).proposes_candidate(before_send, ctx.outbox()));
        }
        proof {
            assert(self.spec_proofs().take(old(self).spec_proofs().len() as int) =~= old(self).spec_proofs());
        }
    }

    /// The slot's fallback leader decides once 2f+1 proposals are in: the proposal of
    /// greatest multiplicity, ties going to the one whose `Debug` text is least.
    fn maybe_lead_fallback_agreement(&mut self, ctx: &mut Ctx<ChorusMsg>)
        ensures
            adds_no_dissemination(old(ctx).outbox(), final(ctx).outbox()),
            old(self).step_ok(*final(self)),
            final(self).finalized == old(self).finalized,
            final(self).speculative == old(self).speculative,
            final(self).equivocation_proofs@ == old(self).equivocation_proofs@,
            final(self).received@ == old(self).received@,
            final(self).round1_votes@ == old(self).round1_votes@,
            final(self).fast_votes@ == old(self).fast_votes@,
            final(self).fallback_echoes@ == old(self).fallback_echoes@,
            !old(self).leads_decision() ==> *final(self) == *old(self) && *final(ctx) == *old(ctx),
            old(self).leads_decision() ==> *final(self) == (ChorusValidator { sent_fallback_decide: true, ..*old(self) })
                && old(self).sends_decision(old(ctx).outbox(), final(ctx).outbox()),
    {
        proof {
            old(self).lemma_step_refl();
        }
        if self.config.validators.len() == 0 || self.sent_fallback_decide {
            return;
        }
        if self.id != self.config.fallback_leader() {
            return;
        }
        if self.fallback_proposals.len() < self.quorum() || self.fallback_proposals.len() == 0 {
            return;
        }
        self.sent_fallback_decide = true;
        let decision = pick_decision(&self.fallback_proposals);
        let msg = ChorusMsg::FallbackDecide { slot: self.config.slot, meta_block: decision };
        let ghost sent = msg;
        let ghost before_send = ctx.outbox();
        ctx.broadcast(self.config.validators.as_slice(), msg);
        proof {
            lemma_broadcast_adds_no_dissemination(before_send, ctx.outbox(), self.config.validators@, sent);
            assert(old(self).sends_decision(before_send, ctx.outbox()));
        }
        proof {
            assert(self.spec_proofs().take(old(self).spec_proofs().len() as int) =~= old(self).spec_proofs());
        }
    }

    /// Echoes the fallback leader's decision (the first one received) and finalizes once
    /// 2f+1 echoes agree.
    fn on_fallback_decide(&mut self, ctx: &mut Ctx<ChorusMsg>, from: ValidatorId, meta_block: MetaBlock)
        ensures
            adds_no_dissemination(old(ctx).outbox(), final(ctx).outbox()),
            old(self).step_ok(*final(self)),
            final(self).speculative == old(self).speculative,
            final(self).equivocation_proofs@ == old(self).equivocation_proofs@,
            final(self).received@ == old(self).received@,
            final(self).round1_votes@ == old(self).round1_votes@,
            final(self).fast_votes@ == old(self).fast_votes@,
            old(self).echoes_decision(*final(self), from, meta_block, old(ctx).outbox(), final(ctx).outbox()),
    {
        proof {
            old(self).lemma_step_refl();
        }
        if self.config.validators.len() == 0 || self.echoed.is_some() {
            return;
        }
        if from != self.config.fallback_leader() {
            return;
        }
        let ghost mb = meta_block;
        self.echoed = Some(meta_block.duplicate());
        let msg = ChorusMsg::FallbackEcho { slot: self.config.slot, meta_block: meta_block.duplicate() };
        self.fallback_echoes.insert(self.id, meta_block);
        let ghost sent = msg;
        let ghost before_send = ctx.outbox();
        ctx.broadcast(self.config.validators.as_slice(), msg);
        proof {
            lemma_broadcast_adds_no_dissemination(before_send, ctx.outbox(), self.config.validators@, sent);
            let target = ChorusMsg::FallbackEcho { slot: self.config.slot, meta_block: mb };
            assert forall|i: int| 0 <= i < self.config.validators@.len() implies #[trigger] sent_copy(
                ctx.outbox()[before_send.len() + i],
                self.config.validators@[i],
                target,
            ) by {
                assert(sent_copy(ctx.outbox()[before_send.len() + i], self.config.validators@[i], sent));
            }
        }
        let ghost mid = *self;
        proof {
            assert(self.spec_proofs().take(old(self).spec_proofs().len() as int) =~= old(self).spec_proofs());
        }
        self.try_finalize_fallback(ctx);
        proof {
            Self::lemma_step_compose(*old(self), mid, *self);
        }
    }

    /// Leaves the fast path: computes a fallback vote per proposer (recording any
    /// equivocation proof found), sends them as one bundle, and tries to propose.
    fn enter_fallback(&mut self, ctx: &mut Ctx<ChorusMsg>)
        ensures
            adds_no_dissemination(old(ctx).outbox(), final(ctx).outbox()),
            old(self).step_ok(*final(self)),
            final(self).finalized == old(self).finalized,
            final(self).speculative == old(self).speculative,
            final(self).received@ == old(self).received@,
            final(self).round1_votes@ == old(self).round1_votes@,
            final(self).fast_votes@ == old(self).fast_votes@,
            final(self).fallback_echoes@ == old(self).fallback_echoes@,
            old(self).sent_fallback_bundle || old(self).fast_meta_block is Some ==> *final(self) == *old(self)
                && *final(ctx) == *old(ctx),
            !(old(self).sent_fallback_bundle || old(self).fast_meta_block is Some) ==> old(self).enters_fallback(
                *final(self),
                old(self).round1_votes@,
                old(ctx).outbox(),
                final(ctx).outbox(),
            ),
            final(self).fallback_timer_fired == old(self).fallback_timer_fired,
    {
        proof {
            old(self).lemma_step_refl();
        }
        if self.sent_fallback_bundle || self.fast_meta_block.is_some() {
            return;
        }
        self.sent_fallback_bundle = true;
        let t = self.weak_quorum();
        let ghost mut rs: Seq<(RoundVote, Option<EquivocationProof>)> = Seq::empty();
        proof {
            assert(self.equivocation_proofs@ =~= old(self).equivocation_proofs@ + proofs_found(rs));
        }
        let mut bundle: Vec<(ProposerId, RoundVote)> = Vec::new();
        let mut k: usize = 0;
        while k < self.config.proposers.len()
            invariant
                k <= self.config.proposers@.len(),
                t == weak_quorum_size(self.certifier.f),
                t >= 1,
                old(self).step_ok(*self),
                self.sent_fallback_bundle,
                self.fallback_timer_fired == old(self).fallback_timer_fired,
                ctx.outbox() == old(ctx).outbox(),
                self.finalized == old(self).finalized,
                self.speculative == old(self).speculative,
                self.received@ == old(self).received@,
                self.round1_votes@ == old(self).round1_votes@,
                self.fast_votes@ == old(self).fast_votes@,
                self.fallback_echoes@ == old(self).fallback_echoes@,
                self.config == old(self).config,
                self.certifier == old(self).certifier,
                rs.len() == k,
                bundle@.len() == k,
                forall|j: int|
                    0 <= j < k ==> (#[trigger] bundle@[j]).0 == old(self).config.proposers@[j] && bundle@[j].1@ == rs[j].0@
                        && fallback_vote_spec(
                        votes_on(old(self).round1_votes@, old(self).config.proposers@[j]),
                        old(self).config.slot,
                        old(self).config.proposers@[j],
                        t as nat,
                        rs[j],
                    ),
                self.equivocation_proofs@ == old(self).equivocation_proofs@ + proofs_found(rs),
            decreases self.config.proposers@.len() - k,
        {
            let proposer = self.config.proposers[k];
            let empty: IdMap<RoundVote> = IdMap::new();
            let (vote, found) = match self.round1_votes.get(proposer) {
                Some(votes) => fallback_vote(votes, self.config.slot, proposer, t),
                None => fallback_vote(&empty, self.config.slot, proposer, t),
            };
            let ghost r = (vote, found);
            proof {
                assert(fallback_vote_spec(votes_on(old(self).round1_votes@, proposer), old(self).config.slot, proposer, t as nat, r));
            }
            let ghost rs0 = rs;
            proof {
                rs = rs.push(r);
            }
            let ghost before = *self;
            match found {
                Some(pr) => {
                    self.equivocation_proofs.push(pr);
                    proof {
                        assert(self.spec_proofs().take(before.spec_proofs().len() as int) =~= before.spec_proofs());
                        assert(before.step_ok(*self));
                        Self::lemma_step_compose(*old(self), before, *self);
                    }
                },
                None => {},
            }
            let ghost before2 = *self;
            record_vote(&mut self.fallback_votes, proposer, self.id, vote.duplicate());
            let ghost bundle0 = bundle@;
            bundle.push((proposer, vote));
            proof {
                assert(rs.drop_last() =~= rs0);
                assert(self.equivocation_proofs@ =~= old(self).equivocation_proofs@ + proofs_found(rs));
                assert forall|j: int| 0 <= j < k + 1 implies (#[trigger] bundle@[j]).0 == old(self).config.proposers@[j]
                    && bundle@[j].1@ == rs[j].0@ && fallback_vote_spec(
                    votes_on(old(self).round1_votes@, old(self).config.proposers@[j]),
                    old(self).config.slot,
                    old(self).config.proposers@[j],
                    t as nat,
                    rs[j],
                ) by {
                    if j < k {
                        assert(bundle@[j] == bundle0[j]);
                        assert(rs[j] == rs0[j]);
                    }
                }
                assert(self.spec_proofs() == before2.spec_proofs());
                before2.lemma_step_refl();
                assert(before2.step_ok(*self));
                Self::lemma_step_compose(*old(self), before2, *self);
            }
            k = k + 1;
        }
        let ghost before3 = *self;
        let ghost bundle_final = bundle@;
        self.second_round_senders.insert(self.id, ());
        let msg = ChorusMsg::FallbackBundle { slot: self.config.slot, votes: bundle };
        let ghost sent = msg;
        let ghost before_send = ctx.outbox();
        ctx.broadcast(self.config.validators.as_slice(), msg);
        proof {
            lemma_broadcast_adds_no_dissemination(before_send, ctx.outbox(), self.config.validators@, sent);
        }
        proof {
            before3.lemma_step_refl();
            assert(before3.step_ok(*self));
            Self::lemma_step_compose(*old(self), before3, *self);
        }
        let ghost before4 = *self;
        let ghost o4 = ctx.outbox();
        proof {
            assert(bundle_view(bundle@) =~= bundle_of(rs, old(self).config.proposers@));
            assert(sends_bundle(before_send, o4, self.config.validators@, self.config.slot, bundle_of(rs, old(self).config.proposers@))) by {
                assert forall|i: int| 0 <= i < self.config.validators@.len() implies match #[trigger] o4[before_send.len() + i] {
                    Outbound::Send { to: v, msg: ChorusMsg::FallbackBundle { slot: s, votes: vs } } => v == self.config.validators@[i]
                        && s == self.config.slot && bundle_view(vs@) == bundle_of(rs, old(self).config.proposers@),
                    _ => false,
                } by {
                    assert(sent_copy(o4[before_send.len() + i], self.config.validators@[i], sent));
                }
            }
        }
        self.maybe_propose_to_fallback_agreement(ctx);
        proof {
            Self::lemma_step_compose(*old(self), before4, *self);
            assert(ctx.outbox().take(o4.len() as int) =~= o4);
            assert(ctx.outbox().take(before_send.len() as int) =~= before_send);
            assert forall|i: int| 0 <= i < self.config.validators@.len() implies #[trigger] ctx.outbox()[before_send.len() + i] == o4[before_send.len() + i] by {
            }
            assert forall|j: int| 0 <= j < rs.len() implies fallback_vote_spec(
                votes_on(old(self).round1_votes@, old(self).config.proposers@[j]),
                old(self).config.slot,
                old(self).config.proposers@[j],
                weak_quorum_size(old(self).certifier.f),
                #[trigger] rs[j],
            ) by {
                assert(bundle_view(bundle_final)[j] == bundle_of(rs, old(self).config.proposers@)[j]);
                assert(bundle_final[j].0 == old(self).config.proposers@[j]);
            }
            assert(fallback_votes_for(rs, old(self).config.proposers@, old(self).round1_votes@, old(self).config.slot, weak_quorum_size(old(self).certifier.f)));
            assert(old(self).enters_fallback(*self, old(self).round1_votes@, old(ctx).outbox(), ctx.outbox()));
        }
    }

    /// Goes to the fallback path once the fallback timer has fired, the fast path has not
    /// produced a meta-block, and round-1 votes from 2f+1 distinct validators are in.
    fn maybe_enter_fallback(&mut self, ctx: &mut Ctx<ChorusMsg>)
        ensures
            adds_no_dissemination(old(ctx).outbox(), final(ctx).outbox()),
            old(self).step_ok(*final(self)),
            final(self).finalized == old(self).finalized,
            final(self).speculative == old(self).speculative,
            final(self).received@ == old(self).received@,
            final(self).round1_votes@ == old(self).round1_votes@,
            final(self).fast_votes@ == old(self).fast_votes@,
            final(self).fallback_echoes@ == old(self).fallback_echoes@,
            old(self).fast_meta_block is Some ==> *final(self) == *old(self) && *final(ctx) == *old(ctx),
            !old(self).fallback_due(false) ==> *final(self) == *old(self) && *final(ctx) == *old(ctx),
            old(self).fallback_due(false) ==> old(self).enters_fallback(
                *final(self),
                old(self).round1_votes@,
                old(ctx).outbox(),
                final(ctx).outbox(),
            ),
            final(self).fallback_timer_fired == old(self).fallback_timer_fired,
    {
        proof {
            old(self).lemma_step_refl();
        }
        if self.fast_meta_block.is_some() || self.sent_fallback_bundle {
            return;
        }
        let distinct_voters = count_distinct_voters(&self.round1_votes);
        if self.fallback_timer_fired && distinct_voters >= self.quorum() {
            self.enter_fallback(ctx);
        }
    }
}

impl ChorusValidator {
    /// Stores this validator's own copy of its proposal and sends it to every validator.
    fn publish(&mut self, ctx: &mut Ctx<ChorusMsg>, payload: Vec<u64>)
        ensures
            old(self).quiet_step(*final(self)),
            final(self).round1_votes@ == old(self).round1_votes@,
            final(self).fast_votes@ == old(self).fast_votes@,
            final(self).fallback_echoes@ == old(self).fallback_echoes@,
            holds_own(old(self).received@, final(self).received@, old(self).id, payload@),
            sends_disseminations(
                old(ctx).outbox(),
                final(ctx).outbox(),
                old(self).config.validators@,
                old(self).config.slot,
                old(self).id,
                |v: ValidatorId| payload@,
            ),
            final(ctx).logged() == old(ctx).logged(),
            final(ctx).spec_node() == old(ctx).spec_node(),
            final(ctx).spec_tick() == old(ctx).spec_tick(),
    {
        proof {
            use_type_invariant(&self.received);
        }
        let ghost r0 = self.received@;
        let ghost p = payload@;
        let digest = digest_of(payload.as_slice());
        let own = copy_u64s(&payload);
        let ghost entry = (digest, own);
        self.received.insert(self.id, (digest, own));
        proof {
            lemma_store_props(r0, self.id, entry);
        }
        let msg = ChorusMsg::Disseminate { slot: self.config.slot, proposer: self.id, payload };
        let ghost sent = msg;
        let ghost before_send = ctx.outbox();
        ctx.broadcast(self.config.validators.as_slice(), msg);
        proof {
            let after = ctx.outbox();
            let to = self.config.validators@;
            assert forall|i: int| 0 <= i < before_send.len() implies #[trigger] after[i] == before_send[i] by {
                assert(after.take(before_send.len() as int)[i] == after[i]);
            }
            assert forall|i: int| 0 <= i < to.len() implies #[trigger] dissemination_to(
                after[before_send.len() + i],
                to[i],
                self.config.slot,
                self.id,
                p,
            ) by {
                match after[before_send.len() + i] {
                    Outbound::Send { to: t, msg: m } => {
                        assert(cloned(sent, m));
                    },
                    Outbound::Timer { .. } => {},
                }
            }
        }
    }

    /// A proposer's dissemination, as its configured behavior dictates: honest (a payload
    /// of its own), silent, censoring (a payload that leaves the target out), or
    /// equivocating (one payload to `split_a`, another to everyone else).
    fn disseminate(&mut self, ctx: &mut Ctx<ChorusMsg>)
        ensures
            old(self).quiet_step(*final(self)),
            final(self).round1_votes@ == old(self).round1_votes@,
            final(self).fast_votes@ == old(self).fast_votes@,
            final(self).fallback_echoes@ == old(self).fallback_echoes@,
            final(ctx).logged() == old(ctx).logged(),
            final(ctx).spec_node() == old(ctx).spec_node(),
            final(ctx).spec_tick() == old(ctx).spec_tick(),
            old(self).dissemination_step(*final(self), old(ctx).outbox(), final(ctx).outbox()),
    {
        broadcast use vstd::std_specs::hash::group_hash_axioms;

        let ghost b = own_behavior(self.behavior@, self.id);
        let plan = match self.behavior.get(&self.id) {
            Some(ProposerBehavior::Silent) => Dissemination::Nothing,
            Some(ProposerBehavior::Censor { payload }) => Dissemination::ToAll(copy_u64s(payload)),
            Some(ProposerBehavior::Equivocate { payload_a, payload_b, split_a }) => Dissemination::Split {
                payload_a: copy_u64s(payload_a),
                payload_b: copy_u64s(payload_b),
                split_a: copy_u64s(split_a),
            },
            _ => {
                let honest = vec![self.id.wrapping_mul(1000)];
                assert(honest@ =~= seq![self.id.wrapping_mul(1000)]);
                Dissemination::ToAll(honest)
            },
        };
        assert(match b {
            Some(ProposerBehavior::Silent) => plan is Nothing,
            Some(ProposerBehavior::Censor { payload }) => plan matches Dissemination::ToAll(x) && x@ == payload@,
            Some(ProposerBehavior::Equivocate { payload_a, payload_b, split_a }) => plan matches Dissemination::Split {
                payload_a: a,
                payload_b: bb,
                split_a: sa,
            } && a@ == payload_a@ && bb@ == payload_b@ && sa@ == split_a@,
            _ => plan matches Dissemination::ToAll(x) && x@ == seq![self.id.wrapping_mul(1000)],
        });
        match plan {
            Dissemination::Nothing => {},
            Dissemination::ToAll(payload) => {
                self.publish(ctx, payload);
            },
            Dissemination::Split { payload_a, payload_b, split_a } => {
                let ghost vs = self.config.validators@;
                let ghost o0 = ctx.outbox();
                let ghost r0 = self.received@;
                let ghost id = self.id;
                let ghost pick = |v: ValidatorId| split_payload(payload_a@, payload_b@, split_a@, v);
                let mut i: usize = 0;
                while i < self.config.validators.len()
                    invariant
                        i <= self.config.validators@.len(),
                        vs == self.config.validators@,
                        id == self.id,
                        self.config.slot == old(self).config.slot,
                        pick == (|v: ValidatorId| split_payload(payload_a@, payload_b@, split_a@, v)),
                        old(self).quiet_step(*self),
                        self.round1_votes@ == old(self).round1_votes@,
                        self.fast_votes@ == old(self).fast_votes@,
                        self.fallback_echoes@ == old(self).fallback_echoes@,
                        ctx.logged() == old(ctx).logged(),
                        ctx.spec_node() == old(ctx).spec_node(),
                        ctx.spec_tick() == old(ctx).spec_tick(),
                        ctx.outbox().len() == o0.len() + i,
                        forall|k: int| 0 <= k < o0.len() ==> #[trigger] ctx.outbox()[k] == o0[k],
                        forall|k: int|
                            0 <= k < i ==> #[trigger] dissemination_to(
                                ctx.outbox()[o0.len() + k],
                                vs[k],
                                self.config.slot,
                                id,
                                pick(vs[k]),
                            ),
                        vs.take(i as int).contains(id) ==> holds_own(r0, self.received@, id, pick(id)),
                        !vs.take(i as int).contains(id) ==> self.received@ == r0,
                    decreases self.config.validators@.len() - i,
                {
                    assert(vs.take(i as int + 1) =~= vs.take(i as int).push(vs[i as int]));
                    let v = self.config.validators[i];
                    let payload = if contains_id(&split_a, v) {
                        copy_u64s(&payload_a)
                    } else {
                        copy_u64s(&payload_b)
                    };
                    assert(payload@ == pick(v));
                    if v == self.id {
                        proof {
                            use_type_invariant(&self.received);
                        }
                        let ghost r1 = self.received@;
                        let digest = digest_of(payload.as_slice());
                        let own = copy_u64s(&payload);
                        let ghost entry = (digest, own);
                        self.received.insert(self.id, (digest, own));
                        proof {
                            lemma_store_props(r1, id, entry);
                        }
                    }
                    let ghost before = ctx.outbox();
                    ctx.send(v, ChorusMsg::Disseminate { slot: self.config.slot, proposer: self.id, payload });
                    proof {
                        assert(ctx.outbox()[o0.len() + i] == before.push(ctx.outbox().last())[o0.len() + i]);
                        assert forall|k: int| 0 <= k < i + 1 implies #[trigger] dissemination_to(
                            ctx.outbox()[o0.len() + k],
                            vs[k],
                            self.config.slot,
                            id,
                            pick(vs[k]),
                        ) by {
                            if k < i {
                                assert(ctx.outbox()[o0.len() + k] == before[o0.len() + k]);
                            }
                        }
                        let t1 = vs.take(i as int + 1);
                        if !t1.contains(id) {
                            assert(t1[i as int] == v);
                            if vs.take(i as int).contains(id) {
                                let k = choose|k: int| 0 <= k < i && vs.take(i as int)[k] == id;
                                assert(t1[k] == id);
                            }
                        }
                    }
                    i = i + 1;
                }
                proof {
                    assert(vs.take(vs.len() as int) =~= vs);
                }
            },
        }
    }

    /// At the deadline: one round-1 vote per proposer (yes with the digest and payload
    /// seen disseminated, else no), sent to everyone; then the fast path and, if due, the
    /// fallback path are tried. Only the first call acts.
    fn cast_round1_votes(&mut self, ctx: &mut Ctx<ChorusMsg>)
        ensures
            adds_no_dissemination(old(ctx).outbox(), final(ctx).outbox()),
            old(self).step_ok(*final(self)),
            final(self).cast_round1,
            old(self).cast_round1 ==> *final(self) == *old(self) && *final(ctx) == *old(ctx),
            !old(self).cast_round1 ==> round1_blocks(
                final(ctx).outbox(),
                old(ctx).outbox().len() as int,
                old(self).config.validators@,
                old(self).config.slot,
                old(self).config.proposers@,
                old(self).received@,
            ),
    {
        proof {
            old(self).lemma_step_refl();
        }
        if self.cast_round1 {
            return;
        }
        self.cast_round1 = true;
        let ghost o0 = ctx.outbox();
        let ghost ps = self.config.proposers@;
        let mut k: usize = 0;
        while k < self.config.proposers.len()
            invariant
                adds_no_dissemination(old(ctx).outbox(), ctx.outbox()),
                k <= self.config.proposers@.len(),
                old(self).quiet_step(*self),
                self.cast_round1,
                o0 == old(ctx).outbox(),
                ps == old(self).config.proposers@,
                self.received@ == old(self).received@,
                self.config == old(self).config,
                ctx.outbox().len() == o0.len() + k * old(self).config.validators@.len(),
                round1_blocks(
                    ctx.outbox(),
                    o0.len() as int,
                    old(self).config.validators@,
                    old(self).config.slot,
                    ps.take(k as int),
                    old(self).received@,
                ),
            decreases self.config.proposers@.len() - k,
        {
            let proposer = self.config.proposers[k];
            let vote = match self.received.get(proposer) {
                Some(seen) => RoundVote::Yes { digest: seen.0, payload: copy_u64s(&seen.1) },
                None => RoundVote::No,
            };
            proof {
                assert(vote@ == own_vote_view(old(self).received@, proposer));
            }
            record_vote(&mut self.round1_votes, proposer, self.id, vote.duplicate());
            let msg = ChorusMsg::Round1Vote { slot: self.config.slot, proposer, vote };
            let ghost sent = msg;
            let ghost before_send = ctx.outbox();
            ctx.broadcast(self.config.validators.as_slice(), msg);
            proof {
                lemma_broadcast_adds_no_dissemination(before_send, ctx.outbox(), self.config.validators@, sent);
                let to = old(self).config.validators@;
                let slot = old(self).config.slot;
                let rv = old(self).received@;
                let v = to.len() as int;
                assert(before_send.len() == o0.len() + k * v);
                assert((k + 1) * v == k * v + v) by (nonlinear_arith);
                assert(ctx.outbox().len() == o0.len() + (k + 1) * v);
                assert forall|kk: int, i: int|
                    #![trigger ps.take(k + 1)[kk], to[i]]
                    0 <= kk < ps.take(k + 1).len() && 0 <= i < to.len() implies round1_vote_to(
                    ctx.outbox()[o0.len() + kk * v + i],
                    to[i],
                    slot,
                    ps.take(k + 1)[kk],
                    own_vote_view(rv, ps.take(k + 1)[kk]),
                ) by {
                    if kk < k {
                        assert(ps.take(k + 1)[kk] == ps.take(k as int)[kk]);
                        lemma_block_index(k as int, kk, i, v);
                        assert(ctx.outbox()[o0.len() + kk * v + i] == before_send[o0.len() + kk * v + i]);
                        assert(round1_vote_to(
                            before_send[o0.len() + kk * v + i],
                            to[i],
                            slot,
                            ps.take(k as int)[kk],
                            own_vote_view(rv, ps.take(k as int)[kk]),
                        ));
                    } else {
                        assert(ps.take(k + 1)[kk] == proposer);
                        assert(sent_copy(ctx.outbox()[before_send.len() + i], to[i], sent));
                        assert(round1_vote_to(ctx.outbox()[before_send.len() + i], to[i], slot, proposer, own_vote_view(rv, proposer)));
                    }
                }
            }
            k = k + 1;
        }
        let ghost b = *self;
        let ghost ob = ctx.outbox();
        proof {
            old(self).lemma_quiet_step(b);
            assert(ps.take(ps.len() as int) =~= ps);
        }
        self.try_build_fast_meta_block(ctx);
        let ghost c = *self;
        let ghost oc = ctx.outbox();
        proof {
            Self::lemma_step_compose(*old(self), b, c);
        }
        self.maybe_enter_fallback(ctx);
        proof {
            Self::lemma_step_compose(*old(self), c, *self);
            assert(b.spec_cast_round1());
            let to = old(self).config.validators@;
            let slot = old(self).config.slot;
            lemma_round1_blocks_kept(ob, oc, o0.len() as int, to, slot, ps, old(self).received@);
            lemma_round1_blocks_kept(oc, ctx.outbox(), o0.len() as int, to, slot, ps, old(self).received@);
        }
    }

    /// What a validator that finalized the slot recovers: for each included proposer,
    /// the payload seen disseminated if its digest matches, else the payload of the first
    /// round-1 vote carrying that digest; nothing for an excluded one.
    fn recover_payload(&self, proposer: ProposerId, digest: Digest) -> (r: Option<Vec<u64>>)
        ensures
            opt_payload_view(r) == self.recovered_payload(proposer, digest),
    {
        match self.received.get(proposer) {
            Some(seen) => {
                if seen.0 == digest {
                    return Some(copy_u64s(&seen.1));
                }
            },
            None => {},
        }
        match self.round1_votes.get(proposer) {
            Some(votes) => {
                let mut j: usize = 0;
                assert(votes@.skip(0) =~= votes@);
                while j < votes.len()
                    invariant
                        j <= votes@.len(),
                        votes_on(self.round1(), proposer) == votes@,
                        self.recovered_payload(proposer, digest) == first_yes_payload(votes@, digest),
                        first_yes_payload(votes@, digest) == first_yes_payload(votes@.skip(j as int), digest),
                    decreases votes@.len() - j,
                {
                    assert(votes@.skip(j as int)[0] == votes@[j as int]);
                    assert(votes@.skip(j as int).drop_first() =~= votes@.skip(j as int + 1));
                    match votes.value_at(j) {
                        RoundVote::Yes { digest: d, payload } => {
                            if *d == digest {
                                return Some(copy_u64s(payload));
                            }
                        },
                        RoundVote::No => {},
                    }
                    j = j + 1;
                }
                None
            },
            None => None,
        }
    }

    /// The block of the finalized slot: the recovered proposals of its meta-block, merged.
    pub fn recovered_block(&self) -> (r: Option<Block>)
        ensures
            r is Some <==> self.spec_finalized() is Some,
            r matches Some(b) ==> b.slot == self.spec_config().slot && b.txs@ == merged_txs(
                self.spec_finalized()->0.meta_block.entries@.map_values(|e: (ProposerId, Entry)| self.recovered_entry(e)),
            ),
    {
        match &self.finalized {
            None => None,
            Some(fs) => {
                let ghost f = |e: (ProposerId, Entry)| self.recovered_entry(e);
                let mut recovered: Vec<(ProposerId, Option<Vec<u64>>)> = Vec::new();
                let mut k: usize = 0;
                while k < fs.meta_block.entries.len()
                    invariant
                        k <= fs.meta_block.entries@.len(),
                        forall|e: (ProposerId, Entry)| #[trigger] f(e) == self.recovered_entry(e),
                        recovered_view(recovered@) == fs.meta_block.entries@.take(k as int).map_values(f),
                    decreases fs.meta_block.entries@.len() - k,
                {
                    let (p, e) = fs.meta_block.entries[k];
                    let payload = match e {
                        Entry::Included(d) => self.recover_payload(p, d),
                        Entry::Excluded => None,
                    };
                    let ghost before = recovered_view(recovered@);
                    proof {
                        assert(fs.meta_block.entries@[k as int] == (p, e));
                        assert(f((p, e)) == (p, opt_payload_view(payload)));
                    }
                    recovered.push((p, payload));
                    proof {
                        assert(recovered_view(recovered@) =~= before.push((p, opt_payload_view(payload))));
                        assert(fs.meta_block.entries@.take(k as int + 1).map_values(f) =~= fs.meta_block.entries@.take(
                            k as int,
                        ).map_values(f).push(f(fs.meta_block.entries@[k as int])));
                    }
                    k = k + 1;
                }
                assert(fs.meta_block.entries@.take(k as int) =~= fs.meta_block.entries@);
                Some(merge_block(self.config.slot, recovered.as_slice()))
            },
        }
    }
}

impl Node for ChorusValidator {
    type Message = ChorusMsg;

    /// The start callback, as `new` stands after it (see `on_start`).
    open spec fn start_step(self, new: Self, c0: Ctx<ChorusMsg>, c1: Ctx<ChorusMsg>) -> bool {
        &&& self.step_ok(new)
        &&& self.spec_muted() ==> new == self && c1 == c0
        &&& !(self.spec_config().proposers@.contains(self.spec_id()) && c0.spec_tick() >= slot_start(
            self.spec_config(),
        )) ==> adds_no_dissemination(c0.outbox(), c1.outbox())
        &&& !self.spec_muted() && self.start_not_due(c0.spec_tick()) ==> new == self
            && self.start_timers_set(c0.spec_tick(), c0.outbox(), c1.outbox())
        &&& !self.spec_muted() && c0.spec_tick() >= self.spec_config().deadline
            ==> new.spec_cast_round1()
    }

    /// The message callback, as `new` stands after it (see `on_message`).
    open spec fn message_step(self, new: Self, c0: Ctx<ChorusMsg>, c1: Ctx<ChorusMsg>, from: ValidatorId, msg: ChorusMsg) -> bool {
        &&& self.step_ok(new)
        &&& self.spec_muted() ==> new == self && c1 == c0
        &&& !self.spec_muted() ==> match msg {
            ChorusMsg::Disseminate { slot, proposer, payload } => c1 == c0 && new.received_view() == if slot
                == self.spec_config().slot && proposer == from && c0.spec_tick() <= self.spec_config().deadline && !has_key(self.received_view(), proposer) {
                self.received_view().push((proposer, (spec_digest(payload@), payload)))
            } else {
                self.received_view()
            },
            ChorusMsg::Round1Vote { slot, proposer, vote } => slot == self.spec_config().slot ==> {
                &&& votes_on(new.round1(), proposer) == store(votes_on(self.round1(), proposer), from, vote)
                &&& self.fast_path_due(new) ==> self.fast_path_taken(
                    new,
                    c0.outbox(),
                    c1.outbox(),
                )
                &&& self.round1_fallback_due(new) ==> self.enters_fallback(new, new.round1(), c0.outbox(), c1.outbox())
            },
            ChorusMsg::FastVote { slot, meta_block } => slot == self.spec_config().slot ==> {
                &&& new.fast_votes_view() == store(self.fast_votes_view(), from, meta_block)
                &&& self.spec_finalized() is None && some_certified(
                    new.fast_votes_view(),
                    quorum_size(self.fault_bound()),
                ) ==> finalized_by(
                    new.spec_finalized(),
                    false,
                    2,
                    new.fast_votes_view(),
                    quorum_size(self.fault_bound()),
                )
                &&& self.propose_step(new, c0.outbox(), c1.outbox())
                &&& has_key(new.senders_view(), from)
            },
            ChorusMsg::FallbackBundle { slot, votes } => slot == self.spec_config().slot ==> {
                &&& self.propose_step(new, c0.outbox(), c1.outbox())
                &&& has_key(new.senders_view(), from)
                &&& forall|k: int|
                    0 <= k < votes@.len() ==> has_key(votes_on(new.fallback_votes_view(), #[trigger] votes@[k].0), from)
            },
            ChorusMsg::FallbackPropose { slot, meta_block } => slot == self.spec_config().slot ==> {
                &&& new.proposals_view() == store(self.proposals_view(), from, meta_block)
                &&& self.decide_step(new, c0.outbox(), c1.outbox())
            },
            ChorusMsg::FallbackDecide { slot, meta_block } => slot == self.spec_config().slot
                ==> self.echoes_decision(new, from, meta_block, c0.outbox(), c1.outbox()),
            ChorusMsg::FallbackEcho { slot, meta_block } => slot == self.spec_config().slot ==> {
                &&& new.echoes_view() == store(self.echoes_view(), from, meta_block)
                &&& self.spec_finalized() is None && some_certified(
                    new.echoes_view(),
                    quorum_size(self.fault_bound()),
                ) ==> finalized_by(
                    new.spec_finalized(),
                    true,
                    3,
                    new.echoes_view(),
                    quorum_size(self.fault_bound()),
                )
            },
        }
        &&& msg_slot(msg) != self.spec_config().slot ==> new == self && c1 == c0
        &&& adds_no_dissemination(c0.outbox(), c1.outbox())
    }

    /// The timer callback, as `new` stands after it (see `on_timer`).
    open spec fn timer_step(self, new: Self, c0: Ctx<ChorusMsg>, c1: Ctx<ChorusMsg>, timer: String) -> bool {
        &&& self.step_ok(new)
        &&& self.spec_muted() ==> new == self && c1 == c0
        &&& timer@ != self.timer_label_of(TimerKind::Disseminate) && timer@
            != self.timer_label_of(TimerKind::Deadline) && timer@ != self.timer_label_of(TimerKind::FallbackTimeout) ==> new == self && c1 == c0
        &&& timer@ != self.timer_label_of(TimerKind::Disseminate) ==> adds_no_dissemination(c0.outbox(), c1.outbox())
        &&& !self.spec_muted() && timer@ == self.timer_label_of(TimerKind::Disseminate)
            ==> self.dissemination_step(new, c0.outbox(), c1.outbox())
        &&& !self.spec_muted() && timer@ == self.timer_label_of(TimerKind::Deadline) && self.spec_cast_round1() ==> new
            == self && c1 == c0
        &&& !self.spec_muted() && timer@ == self.timer_label_of(TimerKind::Deadline)
            ==> new.spec_cast_round1() && (!self.spec_cast_round1() ==> round1_blocks(
            c1.outbox(),
            c0.outbox().len() as int,
            self.spec_config().validators@,
            self.spec_config().slot,
            self.spec_config().proposers@,
            self.received_view(),
        ))
        &&& !self.spec_muted() && timer@ == self.timer_label_of(TimerKind::FallbackTimeout)
            ==> (self.fallback_due(true) ==> self.enters_fallback(new, self.round1(), c0.outbox(), c1.outbox())) && (
        !self.fallback_due(true) ==> c1.outbox() == c0.outbox())
    }

    fn id(&self) -> (r: ValidatorId)
        ensures
            r == self.spec_id(),
    {
        self.id
    }

    /// Disseminates (proposers, at the slot's start time), casts round-1 votes at the
    /// deadline, and arms the fallback timer; whatever is not due yet gets a timer.
    fn on_start(&mut self, ctx: &mut Ctx<ChorusMsg>)
    {
        proof {
            old(self).lemma_step_refl();
        }
        if self.muted {
            return;
        }
        let ghost o0 = ctx.outbox();
        if self.is_proposer() {
            let start = self.config.start_time();
            if ctx.now() >= start {
                self.disseminate(ctx);
            } else {
                ctx.set_timer_string(start - ctx.now(), self.timer_label_for(TimerKind::Disseminate));
                proof {
                    lemma_timer_adds_no_dissemination(o0, ctx.outbox());
                }
            }
        }
        let ghost o1 = ctx.outbox();
        let ghost a = *self;
        proof {
            old(self).lemma_quiet_step(a);
        }
        let deadline = self.config.deadline;
        if ctx.now() >= deadline {
            self.cast_round1_votes(ctx);
            proof {
                Self::lemma_step_compose(*old(self), a, *self);
            }
        } else {
            ctx.set_timer_string(deadline - ctx.now(), self.timer_label_for(TimerKind::Deadline));
            proof {
                lemma_timer_adds_no_dissemination(o1, ctx.outbox());
            }
        }
        let ghost o2 = ctx.outbox();
        let timeout_at = deadline.saturating_add(self.config.fallback_timeout);
        if timeout_at > ctx.now() {
            ctx.set_timer_string(timeout_at - ctx.now(), self.timer_label_for(TimerKind::FallbackTimeout));
            proof {
                lemma_timer_adds_no_dissemination(o2, ctx.outbox());
            }
        }
        proof {
            if !(old(self).spec_config().proposers@.contains(old(self).spec_id()) && old(ctx).spec_tick() >= slot_start(
                old(self).spec_config(),
            )) {
                lemma_adds_no_dissemination_trans(o0, o1, o2);
                lemma_adds_no_dissemination_trans(o0, o2, ctx.outbox());
            }
            if old(self).start_not_due(old(ctx).spec_tick()) {
                let n0 = o0.len() as int;
                let d: int = if old(self).config.proposers@.contains(old(self).id) { 1 } else { 0 };
                assert(o1.len() == n0 + d);
                assert(o1.take(n0) =~= o0);
                assert(o2 == o1.push(o2.last()));
                assert(o2.take(n0) =~= o0);
                assert(o2[n0 + d] == o2.last());
                if timeout_at > old(ctx).spec_tick() {
                    assert(ctx.outbox() == o2.push(ctx.outbox().last()));
                    assert(ctx.outbox().take(n0) =~= o0);
                    assert(ctx.outbox()[n0 + d] == o2[n0 + d]);
                    if d == 1 {
                        assert(ctx.outbox()[n0] == o1[n0]);
                    }
                } else {
                    if d == 1 {
                        assert(o2[n0] == o1[n0]);
                    }
                }
                assert(old(self).start_timers_set(old(ctx).spec_tick(), o0, ctx.outbox()));
            }
        }
    }

    fn on_message(&mut self, ctx: &mut Ctx<ChorusMsg>, from: ValidatorId, msg: ChorusMsg)
    {
        proof {
            old(self).lemma_step_refl();
        }
        if self.muted {
            return;
        }
        match msg {
            ChorusMsg::Disseminate { slot, proposer, payload } => {
                if slot != self.config.slot || proposer != from {
                    return;
                }
                if ctx.now() > self.config.deadline {
                    return;
                }
                if !self.received.contains_key(proposer) {
                    let digest = digest_of(payload.as_slice());
                    self.received.insert(proposer, (digest, payload));
                    self.last_dissemination_tick = Some(ctx.now());
                    proof {
                        assert(!has_key(old(self).received@, proposer));
                    }
                }
                proof {
                    old(self).lemma_quiet_step(*self);
                }
            },
            ChorusMsg::Round1Vote { slot, proposer, vote } => {
                if slot != self.config.slot {
                    return;
                }
                record_vote(&mut self.round1_votes, proposer, from, vote);
                let ghost b = *self;
                proof {
                    old(self).lemma_quiet_step(b);
                }
                self.try_build_fast_meta_block(ctx);
                let ghost c = *self;
                proof {
                    Self::lemma_step_compose(*old(self), b, c);
                }
                let ghost oc = ctx.outbox();
                self.maybe_enter_fallback(ctx);
                proof {
                    Self::lemma_step_compose(*old(self), c, *self);
                    if old(self).round1_fallback_due(*self) {
                        assert(!b.fast_path_due(b));
                        assert(c == b);
                        assert(c.fallback_due(false));
                        assert(c.enters_fallback(*self, c.round1_votes@, oc, ctx.outbox()));
                        assert(old(self).enters_fallback(*self, self.round1(), old(ctx).outbox(), ctx.outbox()));
                    }
                }
            },
            ChorusMsg::FastVote { slot, meta_block } => {
                if slot != self.config.slot {
                    return;
                }
                self.fast_votes.insert(from, meta_block);
                let ghost s0 = self.second_round_senders@;
                self.second_round_senders.insert(from, ());
                proof {
                    lemma_store_has_key(s0, from, ());
                }
                let ghost b = *self;
                proof {
                    old(self).lemma_quiet_step(b);
                }
                self.try_finalize_fast(ctx);
                let ghost c = *self;
                let ghost oc = ctx.outbox();
                proof {
                    Self::lemma_step_compose(*old(self), b, c);
                }
                self.maybe_propose_to_fallback_agreement(ctx);
                proof {
                    Self::lemma_step_compose(*old(self), c, *self);
                    if !(c.sent_fallback_propose || c.second_round_senders@.len() < quorum_size(c.certifier.f)) {
                        c.lemma_candidate_kept(*self, oc, ctx.outbox());
                    }
                }
            },
            ChorusMsg::FallbackBundle { slot, votes } => {
                if slot != self.config.slot {
                    return;
                }
                let ghost s0 = self.second_round_senders@;
                self.second_round_senders.insert(from, ());
                proof {
                    lemma_store_has_key(s0, from, ());
                }
                let ghost b0 = *self;
                let mut k: usize = 0;
                while k < votes.len()
                    invariant
                        k <= votes@.len(),
                        old(self).quiet_step(*self),
                        *self == (ChorusValidator { fallback_votes: self.fallback_votes, ..b0 }),
                        forall|j: int| 0 <= j < k ==> has_key(votes_on(self.fallback_votes@, #[trigger] votes@[j].0), from),
                    decreases votes@.len() - k,
                {
                    let (proposer, vote) = (votes[k].0, votes[k].1.duplicate());
                    let ghost fv0 = self.fallback_votes@;
                    record_vote(&mut self.fallback_votes, proposer, from, vote);
                    proof {
                        lemma_store_has_key(votes_on(fv0, proposer), from, vote);
                        assert forall|j: int| 0 <= j < k + 1 implies has_key(votes_on(self.fallback_votes@, #[trigger] votes@[j].0), from) by {
                            if j < k && votes@[j].0 != proposer {
                                assert(lookup(self.fallback_votes@, votes@[j].0) == lookup(fv0, votes@[j].0));
                                assert(votes_on(fv0, votes@[j].0) == votes_on(self.fallback_votes@, votes@[j].0));
                            }
                        }
                    }
                    k = k + 1;
                }
                let ghost b = *self;
                proof {
                    old(self).lemma_quiet_step(b);
                }
                self.maybe_propose_to_fallback_agreement(ctx);
                proof {
                    Self::lemma_step_compose(*old(self), b, *self);
                    if !(b.sent_fallback_propose || b.second_round_senders@.len() < quorum_size(b.certifier.f)) {
                        b.lemma_candidate_kept(*self, old(ctx).outbox(), ctx.outbox());
                    }
                }
            },
            ChorusMsg::FallbackPropose { slot, meta_block } => {
                if slot != self.config.slot {
                    return;
                }
                self.fallback_proposals.insert(from, meta_block);
                let ghost b = *self;
                proof {
                    old(self).lemma_quiet_step(b);
                }
                self.maybe_lead_fallback_agreement(ctx);
                proof {
                    Self::lemma_step_compose(*old(self), b, *self);
                }
            },
            ChorusMsg::FallbackDecide { slot, meta_block } => {
                if slot != self.config.slot {
                    return;
                }
                self.on_fallback_decide(ctx, from, meta_block);
            },
            ChorusMsg::FallbackEcho { slot, meta_block } => {
                if slot != self.config.slot {
                    return;
                }
                self.fallback_echoes.insert(from, meta_block);
                let ghost b = *self;
                proof {
                    old(self).lemma_quiet_step(b);
                }
                self.try_finalize_fallback(ctx);
                proof {
                    Self::lemma_step_compose(*old(self), b, *self);
                }
            },
        }
    }

    fn on_timer(&mut self, ctx: &mut Ctx<ChorusMsg>, timer: String)
    {
        proof {
            old(self).lemma_step_refl();
            lemma_timer_labels_distinct(old(self).config.slot);
        }
        if self.muted {
            return;
        }
        if timer == self.timer_label_for(TimerKind::Disseminate) {
            self.disseminate(ctx);
            proof {
                old(self).lemma_quiet_step(*self);
            }
        } else if timer == self.timer_label_for(TimerKind::Deadline) {
            self.cast_round1_votes(ctx);
        } else if timer == self.timer_label_for(TimerKind::FallbackTimeout) {
            self.fallback_timer_fired = true;
            let ghost b = *self;
            proof {
                old(self).lemma_quiet_step(b);
            }
            self.maybe_enter_fallback(ctx);
            proof {
                Self::lemma_step_compose(*old(self), b, *self);
            }
        }
    }
}

} // verus!
