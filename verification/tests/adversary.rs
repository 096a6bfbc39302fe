// The adversary suite keeps safety: no two honest validators finalize conflicting blocks.

use cadence_mini::adversary::geo::{assign_regions, GeoDelay, REGIONS};
use cadence_mini::adversary::{censor, delayer, equivocator, offline};
use cadence_mini::chorus::validator::ChorusValidator;
use cadence_mini::chorus::{ChorusConfig, ProposerBehavior};
use cadence_mini::sim::{DelayModel, Engine, FixedDelay, PartitionHeal};
use cadence_mini::types::ValidatorId;
use std::collections::HashMap;

const N: usize = 4;
const F: usize = 1;

fn config(proposers: Vec<ValidatorId>) -> ChorusConfig {
    ChorusConfig {
        slot: 1,
        deadline: 20,
        delta: 10,
        fallback_timeout: 40,
        proposers,
        validators: (0..N as u64).collect(),
        n: N,
        f: F,
    }
}

fn assert_safe(engine: &Engine<ChorusValidator>, label: &str, seed: u64) {
    let mut finals = Vec::new();
    for node in engine.nodes() {
        if let Some(f) = &node.finalized {
            finals.push(f.meta_block.clone());
        }
    }
    if let Some(first) = finals.first() {
        assert!(finals.iter().all(|mb| mb == first), "{label}: safety violated at seed {seed}");
    }
}

#[test]
fn safety_holds_under_equivocator() {
    for seed in 0..20u64 {
        let cfg = config(vec![0, 1]);
        let validators = cfg.validators.clone();
        let mut behavior = HashMap::new();
        behavior.insert(0, equivocator::equivocate(vec![1], vec![2], equivocator::half_split(&validators)));
        behavior.insert(1, ProposerBehavior::Honest);

        let mut engine: Engine<ChorusValidator> = Engine::new(seed, Box::new(FixedDelay(1 + seed % 10)));
        for &id in &validators {
            engine.add_node(ChorusValidator::new(id, cfg.clone(), behavior.clone()));
        }
        engine.start();
        engine.run_until(500);
        assert_safe(&engine, "equivocator", seed);
    }
}

#[test]
fn safety_holds_under_censor() {
    for seed in 0..20u64 {
        let cfg = config(vec![0, 1]);
        let mut behavior = HashMap::new();
        behavior.insert(0, censor::censor(vec![10, 11]));
        behavior.insert(1, censor::censor(vec![20, 21]));

        let mut engine: Engine<ChorusValidator> = Engine::new(seed, Box::new(FixedDelay(1 + seed % 10)));
        for &id in &cfg.validators.clone() {
            engine.add_node(ChorusValidator::new(id, cfg.clone(), behavior.clone()));
        }
        engine.start();
        engine.run_until(500);
        assert_safe(&engine, "censor", seed);
    }
}

#[test]
fn safety_holds_under_offline() {
    for seed in 0..20u64 {
        let cfg = config(vec![0]);
        let behavior = HashMap::from([(0, ProposerBehavior::Honest)]);
        let muted = offline::offline_set(&cfg.validators, F);

        let mut engine: Engine<ChorusValidator> = Engine::new(seed, Box::new(FixedDelay(1 + seed % 10)));
        for &id in &cfg.validators.clone() {
            let is_muted = muted.contains(&id);
            engine.add_node(ChorusValidator::new_with_muted(id, cfg.clone(), behavior.clone(), is_muted));
        }
        engine.start();
        engine.run_until(500);
        assert_safe(&engine, "offline", seed);
    }
}

#[test]
fn safety_holds_under_partition_heal() {
    for seed in 0..20u64 {
        let cfg = config(vec![0, 1]);
        let behavior = HashMap::from([(0, ProposerBehavior::Honest), (1, ProposerBehavior::Honest)]);
        let delay = delayer::partition_then_heal(150 + seed % 50, 500, 2);

        let mut engine: Engine<ChorusValidator> = Engine::new(seed, Box::new(delay));
        for &id in &cfg.validators.clone() {
            engine.add_node(ChorusValidator::new(id, cfg.clone(), behavior.clone()));
        }
        engine.start();
        engine.run_until(3000);
        assert_safe(&engine, "partition_heal", seed);
    }
}

// ---- further checks ----

#[test]
fn half_split_takes_the_first_half() {
    assert_eq!(equivocator::half_split(&[5, 6, 7, 8, 9]), vec![5, 6]);
    assert_eq!(equivocator::half_split(&[]), Vec::<u64>::new());
}

#[test]
fn offline_set_takes_the_first_f() {
    assert_eq!(offline::offline_set(&[3, 1, 2], 2), vec![3, 1]);
    assert_eq!(offline::offline_set(&[3, 1], 5), vec![3, 1]);
    assert_eq!(offline::offline_set(&[3, 1], 0), Vec::<u64>::new());
}

#[test]
fn adversary_builders_fill_in_their_fields() {
    match equivocator::equivocate(vec![1], vec![2], vec![0]) {
        ProposerBehavior::Equivocate { payload_a, payload_b, split_a } => {
            assert_eq!((payload_a, payload_b, split_a), (vec![1], vec![2], vec![0]));
        }
        other => panic!("unexpected {other:?}"),
    }
    match censor::censor(vec![4, 5]) {
        ProposerBehavior::Censor { payload } => assert_eq!(payload, vec![4, 5]),
        other => panic!("unexpected {other:?}"),
    }
    let mut heal: PartitionHeal = delayer::partition_then_heal(100, 500, 2);
    assert_eq!(heal.delay(0, 0, 1, 0, 99), 500);
    assert_eq!(heal.delay(0, 0, 1, 0, 100), 2);
}

#[test]
fn regions_rotate_over_the_five() {
    let regions = assign_regions(&[10, 11, 12, 13, 14, 15, 16]);
    assert_eq!(REGIONS.len(), 5);
    assert_eq!(regions[&10], 0);
    assert_eq!(regions[&14], 4);
    assert_eq!(regions[&15], 0);
    assert_eq!(regions[&16], 1);
    assert_eq!(regions.len(), 7);
}

#[test]
fn geo_delay_uses_the_region_table() {
    let region_of = assign_regions(&[0, 1, 2, 3, 4]);
    let mut geo = GeoDelay { region_of, jitter_ms: 0 };
    assert_eq!(geo.delay(1, 0, 0, 0, 0), 8);
    assert_eq!(geo.delay(1, 0, 1, 0, 0), 60);
    assert_eq!(geo.delay(1, 1, 0, 0, 0), 60);
    assert_eq!(geo.delay(1, 0, 3, 0, 0), 150);
    assert_eq!(geo.delay(1, 2, 4, 0, 0), 190);
    assert_eq!(geo.delay(1, 3, 4, 0, 0), 220);
    // a node without a region counts as region 0
    assert_eq!(geo.delay(1, 99, 1, 0, 0), 60);
}

#[test]
fn geo_jitter_stays_in_range_and_is_seeded() {
    let region_of = assign_regions(&[0, 1, 2, 3, 4]);
    let mut geo = GeoDelay { region_of: region_of.clone(), jitter_ms: 10 };
    let mut again = GeoDelay { region_of, jitter_ms: 10 };
    let mut seen_jitter = false;
    for seq in 0..50u64 {
        let d = geo.delay(9, 0, 2, seq, 0);
        assert!((80..90).contains(&d));
        assert_eq!(d, again.delay(9, 0, 2, seq, 0));
        if d != 80 {
            seen_jitter = true;
        }
    }
    assert!(seen_jitter);
}

#[test]
fn geo_base_latency_is_symmetric() {
    let ids: Vec<ValidatorId> = (0..5).collect();
    let mut geo = GeoDelay { region_of: assign_regions(&ids), jitter_ms: 0 };
    for a in 0..5u64 {
        for b in 0..5u64 {
            let ab = geo.delay(1, a, b, 0, 0);
            let ba = geo.delay(1, b, a, 0, 0);
            assert_eq!(ab, ba);
            if a == b {
                assert_eq!(ab, 8);
            } else {
                assert!((60..=220).contains(&ab));
            }
        }
    }
}
