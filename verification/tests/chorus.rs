// Chorus, one slot at a time: safety, the fast path, liveness, resilience, the
// multiple-concurrent-proposer properties and speculative finality.

use cadence_mini::chorus::validator::ChorusValidator;
use cadence_mini::chorus::{ChorusConfig, ChorusMsg, EquivocationProof, ProposerBehavior};
use cadence_mini::sim::{DelayModel, Engine, FixedDelay, Node, OverrideDelay, TraceKind, UniformDelay};
use cadence_mini::speculative::{justifying_proof, outcome, SpeculativeOutcome};
use cadence_mini::types::{Entry, MetaBlock};
use std::collections::HashMap;

const N: usize = 4;
const F: usize = 1;
const DELTA: u64 = 10;
const DEADLINE: u64 = 20;
const FALLBACK_TIMEOUT: u64 = 30;

fn base_config(proposers: Vec<u64>) -> ChorusConfig {
    ChorusConfig {
        slot: 1,
        deadline: DEADLINE,
        delta: DELTA,
        fallback_timeout: FALLBACK_TIMEOUT,
        proposers,
        validators: (0..N as u64).collect(),
        n: N,
        f: F,
    }
}

fn build_engine(
    config: ChorusConfig,
    behavior: HashMap<u64, ProposerBehavior>,
    delay: Box<dyn DelayModel>,
    run_seed: u64,
) -> Engine<ChorusValidator> {
    build_engine_with_muted(config, behavior, delay, run_seed, &[])
}

fn build_engine_with_muted(
    config: ChorusConfig,
    behavior: HashMap<u64, ProposerBehavior>,
    delay: Box<dyn DelayModel>,
    run_seed: u64,
    muted: &[u64],
) -> Engine<ChorusValidator> {
    let mut engine: Engine<ChorusValidator> = Engine::new(run_seed, delay);
    for &id in &config.validators.clone() {
        let is_muted = muted.contains(&id);
        engine.add_node(ChorusValidator::new_with_muted(id, config.clone(), behavior.clone(), is_muted));
    }
    engine
}

fn synchronous_delay(max: u64, seed: u64) -> Box<dyn DelayModel> {
    let _ = seed;
    Box::new(UniformDelay { min: 1, max })
}

fn fixed_delay(d: u64) -> Box<dyn DelayModel> {
    Box::new(FixedDelay(d))
}

fn override_delay(base: u64, overrides: HashMap<(u64, u64), u64>) -> Box<dyn DelayModel> {
    Box::new(OverrideDelay { base: FixedDelay(base), overrides: overrides.into_iter().collect() })
}

// ---- safety ----

fn run_seed(seed: u64) -> bool {
    let config = base_config(vec![0]);
    let behavior = HashMap::from([(0, ProposerBehavior::Honest)]);
    let delay = synchronous_delay(1 + (seed % 40), seed);
    let mut engine = build_engine(config, behavior, delay, seed);
    engine.start();
    engine.run_until(500);

    let mut finals = Vec::new();
    for node in engine.nodes() {
        if let Some(f) = &node.finalized {
            finals.push(f.meta_block.clone());
        }
    }
    if let Some(first) = finals.first() {
        finals.iter().all(|mb| mb == first)
    } else {
        true
    }
}

#[test]
fn no_conflicting_finalization() {
    for seed in 0..20u64 {
        assert!(run_seed(seed), "conflicting finalization observed at seed {seed}");
    }
}

#[test]
fn sanity_finalization_actually_happens() {
    let mut finalized_count = 0;
    let mut fallback_count = 0;
    for seed in 0..20u64 {
        let config = base_config(vec![0]);
        let behavior = HashMap::from([(0, ProposerBehavior::Honest)]);
        let delay = synchronous_delay(1 + (seed % 40), seed);
        let mut engine = build_engine(config, behavior, delay, seed);
        engine.start();
        engine.run_until(500);
        for node in engine.nodes() {
            if let Some(f) = &node.finalized {
                finalized_count += 1;
                if f.via_fallback {
                    fallback_count += 1;
                }
            }
        }
    }
    println!("finalized_count={finalized_count} fallback_count={fallback_count}");
    assert!(finalized_count > 0);
}

// ---- the fast path ----

#[test]
fn fast_path_three_rounds() {
    let config = base_config(vec![0]);
    let behavior = HashMap::from([(0, ProposerBehavior::Honest)]);
    let delay = fixed_delay(2);
    let mut engine = build_engine(config, behavior, delay, 99);
    engine.start();
    engine.run_until(200);

    for node in engine.nodes() {
        let finalized = node
            .finalized
            .as_ref()
            .unwrap_or_else(|| panic!("validator {} never finalized under synchrony", node.id));
        assert!(!finalized.via_fallback, "fast path should not fall back when all-honest + synchronous");
        assert_eq!(finalized.round, 2, "fast path finality lands at round 2 (round-1 vote, fast vote)");

        let spec = node
            .speculative
            .as_ref()
            .expect("speculative finality should have been reached one round earlier");
        assert_eq!(spec.round, 1);
        assert_eq!(spec.meta_block, finalized.meta_block, "no equivocation, so speculative == final");
    }
}

// ---- liveness ----

#[test]
fn always_terminates() {
    for seed in 0..20u64 {
        let config = base_config(vec![0]);
        let behavior = HashMap::from([(0, ProposerBehavior::Honest)]);
        let delay = synchronous_delay(1 + (seed % 15), seed);
        let mut engine = build_engine(config, behavior, delay, seed);
        engine.start();
        engine.run_until(1000);

        for node in engine.nodes() {
            assert!(
                node.finalized.is_some(),
                "seed {seed}: validator {} never terminated under synchrony",
                node.id
            );
        }
    }
}

// ---- resilience ----

#[test]
fn finalizes_at_f_silent_bound() {
    for seed in 0..20u64 {
        let config = base_config(vec![0]);
        let behavior = HashMap::from([(0, ProposerBehavior::Honest)]);
        let delay = fixed_delay(3);
        let muted = [1u64];
        let mut engine = build_engine_with_muted(config, behavior, delay, seed, &muted);
        engine.start();
        engine.run_until(300);

        for node in engine.nodes() {
            if muted.contains(&node.id) {
                continue;
            }
            assert!(
                node.finalized.is_some(),
                "seed {seed}: honest validator {} failed to finalize with f=1 silent validators",
                node.id
            );
        }
    }
}

#[test]
fn stalls_safely_beyond_bound() {
    for seed in 0..20u64 {
        let config = base_config(vec![0]);
        let behavior = HashMap::from([(0, ProposerBehavior::Honest)]);
        let delay = fixed_delay(3);
        let muted = [1u64, 2u64];
        let mut engine = build_engine_with_muted(config, behavior, delay, seed, &muted);
        engine.start();
        engine.run_until(300);

        let mut finals = Vec::new();
        for node in engine.nodes() {
            if let Some(f) = &node.finalized {
                finals.push(f.meta_block.clone());
            }
        }
        if let Some(first) = finals.first() {
            assert!(
                finals.iter().all(|mb| mb == first),
                "seed {seed}: safety violated beyond the resilience bound"
            );
        }
    }
}

// ---- multiple concurrent proposers ----

const TARGET_TX: u64 = 424242;

#[test]
fn single_honest_proposer_tx_included() {
    for seed in 0..20u64 {
        let proposers = vec![0u64, 1, 2];
        let config = base_config(proposers.clone());
        let mut behavior = HashMap::new();
        behavior.insert(0, ProposerBehavior::Censor { payload: vec![TARGET_TX] });
        behavior.insert(1, ProposerBehavior::Censor { payload: vec![111, 112] });
        behavior.insert(2, ProposerBehavior::Censor { payload: vec![222, 223] });

        let delay = synchronous_delay(1 + (seed % 5), seed);
        let mut engine = build_engine(config, behavior, delay, seed);
        engine.start();
        engine.run_until(500);

        for node in engine.nodes() {
            let block = node
                .recovered_block()
                .unwrap_or_else(|| panic!("seed {seed}: validator {} never finalized/recovered a block", node.id));
            assert!(
                block.txs.contains(&TARGET_TX),
                "seed {seed}: validator {} finalized block without the honest proposer's transaction: {:?}",
                node.id,
                block.txs
            );
        }
    }
}

#[test]
fn no_causal_dependency_between_proposals() {
    let proposers = vec![0u64, 1, 2];
    let config = base_config(proposers.clone());
    let behavior = HashMap::from([
        (0, ProposerBehavior::Honest),
        (1, ProposerBehavior::Honest),
        (2, ProposerBehavior::Honest),
    ]);
    let delay = synchronous_delay(5, 11);
    let mut engine = build_engine(config, behavior, delay, 11);
    engine.start();
    engine.run_until(200);

    let trace = engine.trace();

    for &i in &proposers {
        let send_tick = trace
            .events
            .iter()
            .find_map(|e| match &e.kind {
                TraceKind::Send { from, to, msg } if *from == i && *to == i && msg.contains("Disseminate") => {
                    Some(e.tick)
                }
                _ => None,
            })
            .unwrap_or_else(|| panic!("proposer {i} never disseminated"));

        for &j in &proposers {
            if i == j {
                continue;
            }
            if let Some(deliver_tick) = trace.events.iter().find_map(|e| match &e.kind {
                TraceKind::Deliver { from, to, msg } if *from == j && *to == i && msg.contains("Disseminate") => {
                    Some(e.tick)
                }
                _ => None,
            }) {
                assert!(
                    send_tick <= deliver_tick,
                    "hiding violated: proposer {i} sent its own proposal at tick {send_tick}, \
                     after already having received proposer {j}'s proposal at tick {deliver_tick}"
                );
            }
        }
    }
}

#[test]
fn round_count_independent_of_k() {
    for k in [1usize, 2, 3] {
        let proposers: Vec<u64> = (0..k as u64).collect();
        let config = base_config(proposers.clone());
        let behavior: HashMap<u64, ProposerBehavior> =
            proposers.iter().map(|&p| (p, ProposerBehavior::Honest)).collect();
        let delay = fixed_delay(2);
        let mut engine = build_engine(config, behavior, delay, 5 + k as u64);
        engine.start();
        engine.run_until(200);

        for node in engine.nodes() {
            let finalized = node
                .finalized
                .as_ref()
                .unwrap_or_else(|| panic!("k={k}: validator {} never finalized", node.id));
            assert!(!finalized.via_fallback, "k={k}: unexpectedly fell back to the slower path");
            assert_eq!(
                finalized.round, 2,
                "k={k}: fast-path round count should stay 2 regardless of proposer count"
            );
        }
    }
}

// ---- speculative finality ----

#[test]
fn equivocation_triggers_correct_revert() {
    let mut any_proof_recorded = false;
    let mut any_finalization = false;

    for seed in 0..20u64 {
        let config = base_config(vec![0, 1]);
        let mut behavior = HashMap::new();
        behavior.insert(
            0,
            ProposerBehavior::Equivocate { payload_a: vec![1000], payload_b: vec![2000], split_a: vec![0, 1] },
        );
        behavior.insert(1, ProposerBehavior::Honest);

        let delay = synchronous_delay(1 + (seed % 20), seed);
        let mut engine = build_engine(config, behavior, delay, seed);
        engine.start();
        engine.run_until(600);

        let mut finals = Vec::new();
        for node in engine.nodes() {
            if !node.equivocation_proofs.is_empty() {
                any_proof_recorded = true;
            }
            if let Some(f) = &node.finalized {
                any_finalization = true;
                finals.push(f.meta_block.clone());
            }
            if let SpeculativeOutcome::Reverted { speculative, finalized } = outcome(node) {
                let proof = justifying_proof(&node.equivocation_proofs, &speculative, &finalized);
                assert!(
                    proof.is_some(),
                    "seed {seed}: validator {} reverted from {:?} to {:?} with no justifying equivocation proof",
                    node.id,
                    speculative,
                    finalized
                );
            }
        }
        if let Some(first) = finals.first() {
            assert!(
                finals.iter().all(|mb| mb == first),
                "seed {seed}: safety violated in the presence of an equivocating proposer"
            );
        }
    }

    assert!(any_finalization, "no seed ever finalized — scenario is unreachable, not just revert-free");
    assert!(
        any_proof_recorded,
        "the equivocation-detection path was never exercised across any seed — test is vacuous"
    );
}

#[test]
fn justifying_proof_matches_the_changed_proposer() {
    let speculative = MetaBlock { slot: 1, entries: vec![(0, Entry::Included(111)), (1, Entry::Included(222))] };
    let finalized = MetaBlock { slot: 1, entries: vec![(0, Entry::Excluded), (1, Entry::Included(222))] };
    let proof_for_wrong_proposer = EquivocationProof {
        slot: 1,
        proposer: 1,
        digest_a: 1,
        witnesses_a: vec![0],
        digest_b: 2,
        witnesses_b: vec![1],
    };
    let proof_for_right_proposer = EquivocationProof {
        slot: 1,
        proposer: 0,
        digest_a: 111,
        witnesses_a: vec![0, 1],
        digest_b: 999,
        witnesses_b: vec![2, 3],
    };

    assert!(justifying_proof(std::slice::from_ref(&proof_for_wrong_proposer), &speculative, &finalized).is_none());
    assert!(justifying_proof(&[proof_for_wrong_proposer, proof_for_right_proposer], &speculative, &finalized)
        .is_some());
}

#[test]
fn no_revert_without_equivocation() {
    for seed in 0..20u64 {
        let config = base_config(vec![0, 1]);
        let behavior = HashMap::from([(0, ProposerBehavior::Honest), (1, ProposerBehavior::Honest)]);
        let delay = synchronous_delay(1 + (seed % 30), seed);
        let mut engine = build_engine(config, behavior, delay, seed);
        engine.start();
        engine.run_until(600);

        for node in engine.nodes() {
            if let SpeculativeOutcome::Reverted { speculative, finalized } = outcome(node) {
                panic!(
                    "seed {seed}: validator {} reverted without any equivocating proposer: {:?} -> {:?}",
                    node.id, speculative, finalized
                )
            }
        }
    }
}

// ---- further checks ----

#[test]
fn spiked_link_still_finalizes_safely() {
    // one slow link (0 -> 3) under an otherwise fast network: everyone still agrees
    let config = base_config(vec![0]);
    let behavior = HashMap::from([(0, ProposerBehavior::Honest)]);
    let delay = override_delay(2, HashMap::from([((0, 3), 80)]));
    let mut engine = build_engine(config, behavior, delay, 4);
    engine.start();
    engine.run_until(1000);
    let finals: Vec<MetaBlock> =
        engine.nodes().filter_map(|n| n.finalized.as_ref().map(|f| f.meta_block.clone())).collect();
    assert!(!finals.is_empty());
    assert!(finals.iter().all(|mb| *mb == finals[0]));
}

#[test]
fn muted_validator_stays_silent() {
    let config = base_config(vec![0]);
    let behavior = HashMap::from([(0, ProposerBehavior::Honest)]);
    let mut engine = build_engine_with_muted(config, behavior, fixed_delay(3), 1, &[2]);
    engine.start();
    engine.run_until(300);
    let sent_by_muted = engine
        .trace()
        .events
        .iter()
        .filter(|e| matches!(&e.kind, TraceKind::Send { from: 2, .. }))
        .count();
    assert_eq!(sent_by_muted, 0);
    let muted = engine.node(2).unwrap();
    assert!(muted.finalized.is_none());
    assert_eq!(muted.id(), 2);
}

#[test]
fn silent_proposer_is_excluded() {
    let config = base_config(vec![0, 1]);
    let behavior = HashMap::from([(0, ProposerBehavior::Honest), (1, ProposerBehavior::Silent)]);
    let mut engine = build_engine(config, behavior, fixed_delay(2), 3);
    engine.start();
    engine.run_until(500);
    for node in engine.nodes() {
        let f = node.finalized.as_ref().expect("finalized");
        assert_eq!(f.meta_block.entries.len(), 2);
        assert_eq!(f.meta_block.entries[1], (1, Entry::Excluded));
        assert!(matches!(f.meta_block.entries[0], (0, Entry::Included(_))));
    }
}

#[test]
fn message_slot_is_read_from_every_kind() {
    let m = ChorusMsg::FastVote { slot: 7, meta_block: MetaBlock { slot: 7, entries: vec![] } };
    assert_eq!(m.slot(), 7);
}

#[test]
fn decisions_are_logged_in_the_trace() {
    let config = base_config(vec![0]);
    let behavior = HashMap::from([(0, ProposerBehavior::Honest)]);
    let mut engine = build_engine(config, behavior, fixed_delay(2), 99);
    engine.start();
    engine.run_until(200);
    let labels: Vec<(u64, String)> = engine
        .trace()
        .events
        .iter()
        .filter_map(|e| match &e.kind {
            TraceKind::Custom { node, label } => Some((*node, label.clone())),
            _ => None,
        })
        .collect();
    for id in 0..N as u64 {
        assert!(labels.contains(&(id, format!("slot 1 speculatively finalized by validator {id}"))));
        assert!(labels.contains(&(id, format!("slot 1 finalized by validator {id} via_fallback=false"))));
    }
    assert!(!labels.iter().any(|(_, l)| l.contains("REVERT")));
}

#[test]
fn ticks_of_decisions_are_recorded() {
    let config = base_config(vec![0]);
    let behavior = HashMap::from([(0, ProposerBehavior::Honest)]);
    let mut engine = build_engine(config, behavior, fixed_delay(2), 99);
    engine.start();
    engine.run_until(200);
    for node in engine.nodes() {
        let s = node.speculative_tick().expect("speculated");
        let f = node.finalized_tick().expect("finalized");
        if node.id == 0 {
            // the proposer holds its own proposal from the start: no dissemination to accept
            assert_eq!(node.last_dissemination_tick(), None);
        } else {
            let d = node.last_dissemination_tick().expect("proposal accepted");
            assert_eq!(d, DEADLINE - DELTA + 2);
            assert!(d <= s);
        }
        assert!(s < f);
        assert_eq!(f - s, 2, "one fixed-delay voting round between speculative and full finality");
    }
}

#[test]
fn justifying_proof_compares_entries_only() {
    let speculative = MetaBlock { slot: 1, entries: vec![(0, Entry::Included(5))] };
    let finalized = MetaBlock { slot: 1, entries: vec![(1, Entry::Included(5))] };
    let proof = EquivocationProof {
        slot: 1,
        proposer: 0,
        digest_a: 5,
        witnesses_a: vec![0, 1],
        digest_b: 6,
        witnesses_b: vec![2, 3],
    };
    assert!(justifying_proof(std::slice::from_ref(&proof), &speculative, &finalized).is_none());
}

#[test]
fn standalone_timers_use_bare_names() {
    let config = base_config(vec![0]);
    let behavior = HashMap::from([(0, ProposerBehavior::Honest)]);
    let mut engine = build_engine(config, behavior, fixed_delay(2), 3);
    engine.start();
    let mut labels: Vec<(u64, String, u64)> = Vec::new();
    for event in &engine.trace().events {
        if let TraceKind::TimerSet { node, timer, fires_at } = &event.kind {
            if *node == 0 {
                labels.push((event.tick, timer.clone(), *fires_at));
            }
        }
    }
    // proposer 0 starts at tick 0, before its slot start (deadline - delta = 10)
    assert_eq!(
        labels,
        vec![
            (0, "disseminate".to_string(), DEADLINE - DELTA),
            (0, "deadline".to_string(), DEADLINE),
            (0, "fallback_timeout".to_string(), DEADLINE + FALLBACK_TIMEOUT),
        ]
    );
    engine.run_until(200);
    let fired: Vec<String> = engine
        .trace()
        .events
        .iter()
        .filter_map(|e| match &e.kind {
            TraceKind::TimerFired { node: 1, timer } => Some(timer.clone()),
            _ => None,
        })
        .collect();
    assert_eq!(fired, vec!["deadline".to_string(), "fallback_timeout".to_string()]);
}

#[test]
fn instance_timers_carry_the_slot() {
    let config = base_config(vec![0]);
    let behavior = HashMap::from([(0, ProposerBehavior::Honest)]);
    let mut engine: Engine<ChorusValidator> = Engine::new(3, fixed_delay(2));
    for id in 0..N as u64 {
        engine.add_node(ChorusValidator::new_instance(id, config.clone(), behavior.clone(), false));
    }
    engine.start();
    let labels: Vec<String> = engine
        .trace()
        .events
        .iter()
        .filter_map(|e| match &e.kind {
            TraceKind::TimerSet { node: 2, timer, .. } => Some(timer.clone()),
            _ => None,
        })
        .collect();
    assert_eq!(labels, vec!["deadline#1".to_string(), "fallback_timeout#1".to_string()]);
}

#[test]
fn fast_vote_quorum_finalizes_every_validator_at_round_two() {
    for k in 1..=3u64 {
        let config = base_config((0..k).collect());
        let behavior: HashMap<u64, ProposerBehavior> = (0..k).map(|p| (p, ProposerBehavior::Honest)).collect();
        let mut engine = build_engine(config, behavior, fixed_delay(2), 11 + k);
        engine.start();
        engine.run_until(200);
        for node in engine.nodes() {
            let fs = node.finalized.as_ref().expect("finalized");
            assert!(!fs.via_fallback);
            assert_eq!(fs.round, 2);
            let sp = node.speculative.as_ref().expect("speculated");
            assert_eq!(sp.round, 1);
            assert_eq!(sp.meta_block, fs.meta_block);
            assert_eq!(fs.meta_block.entries.len(), k as usize);
        }
    }
}
