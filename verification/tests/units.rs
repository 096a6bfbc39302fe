// Exact values of the library's functions, and the laws it proves, on concrete inputs.

use cadence_mini::certifier::{Certifier, ThresholdCertifier};
use cadence_mini::chorus::tally::{count_distinct_voters, fallback_vote, pick_decision, strong_digests, witnesses_of};
use cadence_mini::chorus::timer::{timer_label, timer_slot, TimerKind};
use cadence_mini::chorus::{ChorusConfig, ChorusMsg, RoundVote};
use cadence_mini::idmap::IdMap;
use cadence_mini::mcp::k_proposers_for_slot;
use cadence_mini::pipeline::ConductorConfig;
use cadence_mini::sim::queue::{EventQueue, Payload, QueueItem};
use cadence_mini::sim::rng::{link_seed_of, node_seed_of, splitmix64};
use cadence_mini::sim::{DelayModel, FixedDelay, OverrideDelay, Trace, TraceKind, UniformDelay};
use cadence_mini::types::{digest_of, merge_block, Entry, MetaBlock, Proposal};
use std::collections::hash_map::DefaultHasher;
use std::hash::{Hash, Hasher};

fn std_hash(payload: &[u64]) -> u64 {
    let mut h = DefaultHasher::new();
    payload.hash(&mut h);
    h.finish()
}

fn chorus_cfg(validators: Vec<u64>, slot: u64, deadline: u64, delta: u64) -> ChorusConfig {
    ChorusConfig { slot, deadline, delta, fallback_timeout: 30, proposers: vec![0], validators, n: 4, f: 1 }
}

fn conductor_cfg(validators: Vec<u64>) -> ConductorConfig {
    ConductorConfig { n: 4, f: 1, delta: 5, fallback_timeout: 60, tau: 5, window: 4, threshold: 2, validators }
}

// ---- digests and proposals ----

#[test]
fn digest_is_the_std_hash_of_the_payload() {
    assert_eq!(digest_of(&[1, 2, 3]), std_hash(&[1, 2, 3]));
    assert_eq!(digest_of(&[]), std_hash(&[]));
    assert_ne!(digest_of(&[7]), 7);
    assert_eq!(digest_of(&[4, 5]), digest_of(&[4, 5]));
    assert_ne!(digest_of(&[4, 5]), digest_of(&[5, 4]));
    let p = Proposal { slot: 3, proposer: 1, payload: vec![9, 8] };
    assert_eq!(p.digest(), digest_of(&[9, 8]));
}

// ---- meta-blocks and the merge rule ----

#[test]
fn canonical_orders_by_proposer_and_is_idempotent() {
    let mb = MetaBlock { slot: 2, entries: vec![(3, Entry::Excluded), (1, Entry::Included(5)), (2, Entry::Excluded)] };
    let c = mb.canonical();
    assert_eq!(c.entries, vec![(1, Entry::Included(5)), (2, Entry::Excluded), (3, Entry::Excluded)]);
    assert_eq!(c.slot, 2);
    assert_eq!(c.clone().canonical(), c);
}

#[test]
fn merge_orders_by_proposer_and_drops_repeats() {
    let recovered = vec![(2, Some(vec![5, 6, 1])), (0, Some(vec![1, 2, 2])), (1, None), (3, Some(vec![6, 7]))];
    let b = merge_block(9, &recovered);
    assert_eq!(b.slot, 9);
    assert_eq!(b.txs, vec![1, 2, 5, 6, 7]);
}

#[test]
fn merge_of_nothing_is_empty() {
    assert!(merge_block(1, &[]).txs.is_empty());
    assert!(merge_block(1, &[(0, None), (1, Some(vec![]))]).txs.is_empty());
}

// ---- certification ----

#[test]
fn quorums_are_two_f_plus_one_and_f_plus_one() {
    let c = ThresholdCertifier { n: 4, f: 1 };
    assert_eq!(c.n(), 4);
    assert_eq!(c.f(), 1);
    assert_eq!(c.quorum_2f_plus_1(), 3);
    assert_eq!(c.quorum_f_plus_1(), 2);
    let big = ThresholdCertifier { n: 10, f: usize::MAX };
    assert_eq!(big.quorum_2f_plus_1(), usize::MAX);
    assert_eq!(big.quorum_f_plus_1(), usize::MAX);
}

#[test]
fn certify_finds_the_first_value_with_enough_signers() {
    let c = ThresholdCertifier { n: 4, f: 1 };
    let mut votes: IdMap<RoundVote> = IdMap::new();
    votes.insert(3, RoundVote::No);
    votes.insert(0, RoundVote::Yes { digest: 7, payload: vec![1] });
    votes.insert(2, RoundVote::Yes { digest: 7, payload: vec![1] });
    votes.insert(1, RoundVote::Yes { digest: 7, payload: vec![1] });
    let cert = c.certify(&votes, 3).expect("three yes votes certify");
    assert_eq!(cert.value, RoundVote::Yes { digest: 7, payload: vec![1] });
    assert_eq!(cert.signers, vec![0, 1, 2]);
    assert!(c.certify(&votes, 4).is_none());
    let first = c.certify(&votes, 1).expect("any vote certifies at threshold 1");
    assert_eq!(first.value, RoundVote::No);
    assert_eq!(first.signers, vec![3]);
}

// ---- round votes and the fallback vote ----

#[test]
fn round_vote_digest() {
    assert_eq!(RoundVote::Yes { digest: 4, payload: vec![] }.digest(), Some(4));
    assert_eq!(RoundVote::No.digest(), None);
}

fn votes_of(list: &[(u64, Option<u64>)]) -> IdMap<RoundVote> {
    let mut m: IdMap<RoundVote> = IdMap::new();
    for &(v, d) in list {
        let vote = match d {
            Some(d) => RoundVote::Yes { digest: d, payload: vec![d * 10] },
            None => RoundVote::No,
        };
        m.insert(v, vote);
    }
    m
}

#[test]
fn fallback_vote_single_strong_digest_says_yes() {
    let votes = votes_of(&[(0, Some(5)), (1, Some(5)), (2, None), (3, Some(6))]);
    let (vote, proof) = fallback_vote(&votes, 1, 0, 2);
    assert_eq!(vote, RoundVote::Yes { digest: 5, payload: vec![50] });
    assert!(proof.is_none());
}

#[test]
fn fallback_vote_two_strong_digests_prove_equivocation() {
    let votes = votes_of(&[(0, Some(9)), (1, Some(5)), (2, Some(9)), (3, Some(5))]);
    let (vote, proof) = fallback_vote(&votes, 4, 7, 2);
    assert_eq!(vote, RoundVote::No);
    let p = proof.expect("two digests each with f+1 witnesses");
    assert_eq!((p.slot, p.proposer), (4, 7));
    assert_eq!((p.digest_a, p.digest_b), (5, 9));
    assert_eq!(p.witnesses_a, vec![1, 3]);
    assert_eq!(p.witnesses_b, vec![0, 2]);
    // the two witness groups never share a validator
    assert!(p.witnesses_a.iter().all(|w| !p.witnesses_b.contains(w)));
}

#[test]
fn fallback_vote_without_strong_digest_says_no() {
    let votes = votes_of(&[(0, Some(9)), (1, Some(5)), (2, None)]);
    let (vote, proof) = fallback_vote(&votes, 1, 0, 2);
    assert_eq!(vote, RoundVote::No);
    assert!(proof.is_none());
}

#[test]
fn strong_digests_are_ascending_and_witnesses_in_vote_order() {
    let votes = votes_of(&[(3, Some(9)), (1, Some(2)), (0, Some(9)), (2, Some(2)), (4, Some(4))]);
    assert_eq!(strong_digests(&votes, 2), vec![2, 9]);
    assert_eq!(strong_digests(&votes, 1), vec![2, 4, 9]);
    assert_eq!(witnesses_of(&votes, 9), vec![3, 0]);
    assert!(witnesses_of(&votes, 77).is_empty());
}

#[test]
fn decision_is_the_most_supported_then_least() {
    let a = MetaBlock { slot: 1, entries: vec![(0, Entry::Included(3))] };
    let b = MetaBlock { slot: 1, entries: vec![(0, Entry::Excluded)] };
    let mut proposals: IdMap<MetaBlock> = IdMap::new();
    proposals.insert(0, b.clone());
    proposals.insert(1, a.clone());
    proposals.insert(2, a.clone());
    assert_eq!(pick_decision(&proposals), a);
    let mut tie: IdMap<MetaBlock> = IdMap::new();
    tie.insert(0, b.clone());
    tie.insert(1, a.clone());
    let first = pick_decision(&tie);
    let mut tie2: IdMap<MetaBlock> = IdMap::new();
    tie2.insert(0, a.clone());
    tie2.insert(1, b.clone());
    // a tie is broken the same way whatever the arrival order
    assert_eq!(pick_decision(&tie2), first);
}

#[test]
fn distinct_voters_are_counted_once() {
    let mut votes: IdMap<IdMap<RoundVote>> = IdMap::new();
    votes.insert(0, votes_of(&[(0, None), (1, None)]));
    votes.insert(1, votes_of(&[(1, None), (2, Some(3))]));
    assert_eq!(count_distinct_voters(&votes), 3);
}

// ---- configuration ----

#[test]
fn start_time_is_delta_before_the_deadline() {
    assert_eq!(chorus_cfg(vec![0], 1, 20, 10).start_time(), 10);
    assert_eq!(chorus_cfg(vec![0], 1, 5, 10).start_time(), 0);
}

#[test]
fn fallback_leader_rotates_over_sorted_validators() {
    assert_eq!(chorus_cfg(vec![3, 1, 2], 1, 20, 10).fallback_leader(), 2);
    assert_eq!(chorus_cfg(vec![3, 1, 2], 3, 20, 10).fallback_leader(), 1);
    assert_eq!(chorus_cfg(vec![3, 1, 2], 5, 20, 10).fallback_leader(), 3);
}

#[test]
fn message_slot_of_each_kind() {
    let msgs = vec![
        ChorusMsg::Disseminate { slot: 1, proposer: 0, payload: vec![] },
        ChorusMsg::Round1Vote { slot: 2, proposer: 0, vote: RoundVote::No },
        ChorusMsg::FallbackBundle { slot: 3, votes: vec![] },
        ChorusMsg::FallbackPropose { slot: 4, meta_block: MetaBlock { slot: 4, entries: vec![] } },
        ChorusMsg::FallbackDecide { slot: 5, meta_block: MetaBlock { slot: 5, entries: vec![] } },
        ChorusMsg::FallbackEcho { slot: 6, meta_block: MetaBlock { slot: 6, entries: vec![] } },
    ];
    let slots: Vec<u64> = msgs.iter().map(|m| m.slot()).collect();
    assert_eq!(slots, vec![1, 2, 3, 4, 5, 6]);
}

// ---- proposers per slot ----

#[test]
fn k_proposers_rotate_from_the_slot() {
    let cfg = conductor_cfg(vec![10, 11, 12, 13]);
    assert_eq!(k_proposers_for_slot(&cfg, 2, 3), vec![12, 13, 10]);
    assert_eq!(k_proposers_for_slot(&cfg, 5, 1), vec![11]);
    assert_eq!(k_proposers_for_slot(&cfg, 0, 10), vec![10, 11, 12, 13]);
    assert!(k_proposers_for_slot(&cfg, 7, 0).is_empty());
    let empty = conductor_cfg(vec![]);
    assert!(k_proposers_for_slot(&empty, 7, 3).is_empty());
}

// ---- timer labels ----

#[test]
fn timer_labels_round_trip() {
    assert_eq!(timer_label(TimerKind::Deadline, 42), "deadline#42");
    assert_eq!(timer_label(TimerKind::Disseminate, 0), "disseminate#0");
    assert_eq!(timer_label(TimerKind::FallbackTimeout, u64::MAX), format!("fallback_timeout#{}", u64::MAX));
    for kind in [TimerKind::Disseminate, TimerKind::Deadline, TimerKind::FallbackTimeout] {
        for slot in [0u64, 1, 9, 10, 12345, u64::MAX] {
            assert_eq!(timer_slot(&timer_label(kind, slot)), Some(slot));
        }
    }
}

#[test]
fn timer_slot_rejects_malformed_labels() {
    assert_eq!(timer_slot("deadline"), None);
    assert_eq!(timer_slot("deadline#"), None);
    assert_eq!(timer_slot("deadline#1x"), None);
    assert_eq!(timer_slot("a#1#7"), Some(7));
    assert_eq!(timer_slot("x#18446744073709551616"), None);
    assert_eq!(timer_slot("#007"), Some(7));
}

// ---- randomness and delays ----

#[test]
fn splitmix64_matches_the_reference_stream() {
    assert_eq!(splitmix64(0), 0xE220_A839_7B1D_CDAF);
    assert_eq!(node_seed_of(5, 3), splitmix64(5 ^ splitmix64(3u64.wrapping_add(0x9E37_79B9_7F4A_7C15))));
    assert_eq!(link_seed_of(5, 1, 2), splitmix64(5 ^ splitmix64(1u64.wrapping_mul(0x100_0000_01B3).wrapping_add(2))));
}

#[test]
fn delay_models() {
    assert_eq!(FixedDelay(7).delay(1, 0, 1, 0, 0), 7);
    let mut u = UniformDelay { min: 3, max: 6 };
    let mut seen = std::collections::HashSet::new();
    for seq in 0..200u64 {
        let d = u.delay(11, 0, 1, seq, 0);
        assert!((3..=6).contains(&d));
        seen.insert(d);
    }
    assert!(seen.len() > 1);
    let mut degenerate = UniformDelay { min: 9, max: 2 };
    assert_eq!(degenerate.delay(11, 0, 1, 0, 0), 9);
    let mut o = OverrideDelay { base: FixedDelay(4), overrides: vec![((0, 1), 40), ((0, 1), 50)] };
    assert_eq!(o.delay(0, 0, 1, 0, 0), 40);
    assert_eq!(o.delay(0, 1, 0, 0, 0), 4);
}

// ---- containers ----

#[test]
fn id_map_keeps_insertion_order_and_replaces_in_place() {
    let mut m: IdMap<u64> = IdMap::new();
    m.insert(5, 50);
    m.insert(2, 20);
    m.insert(5, 55);
    assert_eq!(m.len(), 2);
    assert_eq!(m.key_at(0), 5);
    assert_eq!(*m.value_at(0), 55);
    assert_eq!(m.get(2), Some(&20));
    assert_eq!(m.get(3), None);
    assert!(m.contains_key(2));
    assert_eq!(m.find(2), Some(1));
    let i = m.index_or_insert(9, 90);
    assert_eq!((i, m.len()), (2, 3));
    assert_eq!(m.index_or_insert(5, 0), 0);
    let mut v = 1;
    m.swap_value_at(1, &mut v);
    assert_eq!((v, *m.value_at(1)), (20, 1));
}

#[test]
fn event_queue_pops_in_tick_then_sequence_order() {
    let mut q: EventQueue<()> = EventQueue::new();
    for (tick, seq) in [(5, 1), (3, 2), (5, 0), (9, 3), (3, 4)] {
        q.push(QueueItem { tick, seq, node: 0, payload: Payload::Timer { timer: String::new() } });
    }
    assert_eq!(q.len(), 5);
    assert_eq!(q.peek_tick(), Some(3));
    let mut order = Vec::new();
    while let Some(item) = q.pop_min() {
        order.push((item.tick, item.seq));
    }
    assert_eq!(order, vec![(3, 2), (3, 4), (5, 0), (5, 1), (9, 3)]);
    assert!(q.pop_min().is_none());
}

#[test]
fn trace_records_in_order() {
    let mut t = Trace::new();
    t.record(1, 0, TraceKind::Custom { node: 2, label: "a".to_string() });
    t.record(3, 1, TraceKind::TimerFired { node: 2, timer: "b".to_string() });
    assert_eq!(t.events.len(), 2);
    assert_eq!(t.events[1].tick, 3);
    assert_eq!(Trace::default().events.len(), 0);
}

#[test]
fn decision_ties_go_to_the_least_debug_text() {
    let nine = MetaBlock { slot: 1, entries: vec![(0, Entry::Included(9))] };
    let ten = MetaBlock { slot: 1, entries: vec![(0, Entry::Included(10))] };
    let mut tie: IdMap<MetaBlock> = IdMap::new();
    tie.insert(0, nine.clone());
    tie.insert(1, ten.clone());
    // "...Included(10)..." sorts before "...Included(9)..." as text
    assert_eq!(pick_decision(&tie), ten);
    let mut tie2: IdMap<MetaBlock> = IdMap::new();
    tie2.insert(0, ten.clone());
    tie2.insert(1, nine.clone());
    assert_eq!(pick_decision(&tie2), ten);
    tie2.insert(2, nine.clone());
    assert_eq!(pick_decision(&tie2), nine);
}

#[test]
fn fallback_vote_takes_the_certified_payload() {
    let mut votes: IdMap<RoundVote> = IdMap::new();
    votes.insert(0, RoundVote::Yes { digest: 5, payload: vec![1] });
    votes.insert(1, RoundVote::Yes { digest: 5, payload: vec![2] });
    votes.insert(2, RoundVote::Yes { digest: 5, payload: vec![2] });
    let (vote, proof) = fallback_vote(&votes, 1, 0, 2);
    assert_eq!(vote, RoundVote::Yes { digest: 5, payload: vec![2] });
    assert!(proof.is_none());
}

#[test]
fn fallback_vote_without_a_certified_value_says_no() {
    let mut votes: IdMap<RoundVote> = IdMap::new();
    votes.insert(0, RoundVote::Yes { digest: 5, payload: vec![1] });
    votes.insert(1, RoundVote::Yes { digest: 5, payload: vec![2] });
    let (vote, proof) = fallback_vote(&votes, 1, 0, 2);
    assert_eq!(vote, RoundVote::No);
    assert!(proof.is_none());
}

#[test]
fn canonical_form_ignores_entry_order() {
    let a = MetaBlock { slot: 3, entries: vec![(2, Entry::Excluded), (0, Entry::Included(7)), (1, Entry::Included(4))] };
    let b = MetaBlock { slot: 3, entries: vec![(1, Entry::Included(4)), (2, Entry::Excluded), (0, Entry::Included(7))] };
    let ca = a.canonical();
    assert_eq!(ca, b.canonical());
    assert_eq!(ca.entries, vec![(0, Entry::Included(7)), (1, Entry::Included(4)), (2, Entry::Excluded)]);
}

#[test]
fn certificate_ignores_vote_order_when_a_majority_is_needed() {
    let c = ThresholdCertifier { n: 4, f: 1 };
    let list = [(0u64, Some(5u64)), (1, Some(6)), (2, Some(5)), (3, Some(5))];
    let forward = votes_of(&list);
    let mut reversed_list = list.to_vec();
    reversed_list.reverse();
    let backward = votes_of(&reversed_list);
    let a = c.certify(&forward, 3).expect("three votes for 5");
    let b = c.certify(&backward, 3).expect("three votes for 5");
    assert_eq!(a.value, b.value);
    assert_eq!(a.value, RoundVote::Yes { digest: 5, payload: vec![50] });
    assert!(c.certify(&forward, 4).is_none() && c.certify(&backward, 4).is_none());
}
