// The pipeline: concurrency, decoupling of throughput from latency, and the throttle.

use cadence_mini::chorus::ProposerBehavior;
use cadence_mini::pipeline::{ConductorConfig, PipelineValidator, SlotPlan};
use cadence_mini::sim::{Engine, FixedDelay, Node};
use cadence_mini::types::{ProposerId, Slot, ValidatorId};
use std::collections::HashMap;

/// One proposer per slot, rotating over the validators; every proposer honest.
struct OneProposerPerSlot;

impl SlotPlan for OneProposerPerSlot {
    fn proposers_for_slot(&self, cfg: &ConductorConfig, slot: Slot) -> Vec<ProposerId> {
        vec![cfg.validators[(slot as usize) % cfg.validators.len()]]
    }

    fn behavior_for(&self, _id: ValidatorId) -> HashMap<ProposerId, ProposerBehavior> {
        HashMap::new()
    }
}

#[test]
fn five_concurrent_instances() {
    let validators: Vec<ValidatorId> = (0..4).collect();
    let cfg = ConductorConfig {
        n: 4,
        f: 1,
        delta: 5,
        fallback_timeout: 400,
        tau: 10,
        window: 20,
        threshold: 0,
        validators: validators.clone(),
    };
    let mut engine: Engine<PipelineValidator> = Engine::new(1, Box::new(FixedDelay(100)));
    for &id in &validators {
        engine.add_node(PipelineValidator::new(id, cfg.clone(), Box::new(OneProposerPerSlot), Default::default()));
    }
    engine.start();
    engine.run_until(400);

    let max_outstanding = engine.nodes().map(|n| n.max_outstanding()).max().unwrap();
    assert!(max_outstanding >= 5, "expected >= 5 concurrently in-flight instances, got {max_outstanding}");
}

fn run(tau: u64, horizon: u64) -> (usize, f64) {
    let validators: Vec<ValidatorId> = (0..4).collect();
    let cfg = ConductorConfig {
        n: 4,
        f: 1,
        delta: 5,
        fallback_timeout: 100,
        tau,
        window: 50,
        threshold: 25,
        validators: validators.clone(),
    };
    let mut engine: Engine<PipelineValidator> = Engine::new(7, Box::new(FixedDelay(5)));
    for &id in &validators {
        engine.add_node(PipelineValidator::new(id, cfg.clone(), Box::new(OneProposerPerSlot), Default::default()));
    }
    engine.start();
    engine.run_until(horizon);

    let node = engine.node(0).unwrap();
    let count = node.finalize_log().len();
    let avg_latency: f64 = if count == 0 {
        0.0
    } else {
        node.finalize_log()
            .iter()
            .map(|&(slot, tick)| {
                let deadline = cfg.delta + (slot - 1) * cfg.tau;
                (tick - deadline) as f64
            })
            .sum::<f64>()
            / count as f64
    };
    (count, avg_latency)
}

#[test]
fn halving_interval_doubles_throughput() {
    let horizon = 2000;
    let (count_20, latency_20) = run(20, horizon);
    let (count_10, latency_10) = run(10, horizon);

    assert!(count_20 > 0 && count_10 > 0, "both runs must finalize something");

    let ratio = count_10 as f64 / count_20 as f64;
    assert!(
        (1.5..=2.5).contains(&ratio),
        "expected roughly 2x throughput from halving tau, got ratio {ratio} (count_20={count_20}, count_10={count_10})"
    );

    let latency_ratio = latency_10.max(1.0) / latency_20.max(1.0);
    assert!(
        (0.5..=2.0).contains(&latency_ratio),
        "expected roughly flat per-block latency, got {latency_10} vs {latency_20}"
    );
}

#[test]
fn outstanding_never_exceeds_bound() {
    let validators: Vec<ValidatorId> = (0..4).collect();
    let window = 10usize;
    let threshold = 3usize;
    let cfg = ConductorConfig {
        n: 4,
        f: 1,
        delta: 5,
        fallback_timeout: 60,
        tau: 5,
        window,
        threshold,
        validators: validators.clone(),
    };
    let mut engine: Engine<PipelineValidator> = Engine::new(3, Box::new(FixedDelay(50)));
    for &id in &validators {
        engine.add_node(PipelineValidator::new(id, cfg.clone(), Box::new(OneProposerPerSlot), Default::default()));
    }
    engine.start();
    engine.run_until(5000);

    let bound = 2 * window - threshold;
    for node in engine.nodes() {
        assert!(
            node.max_outstanding() <= bound,
            "validator {} exceeded the boundedness bound: max_outstanding={} > 2W-p={}",
            node.id(),
            node.max_outstanding(),
            bound
        );
    }
}

// ---- further checks ----

fn small_cfg(window: usize, threshold: usize) -> ConductorConfig {
    ConductorConfig {
        n: 4,
        f: 1,
        delta: 5,
        fallback_timeout: 60,
        tau: 5,
        window,
        threshold,
        validators: (0..4).collect(),
    }
}

#[test]
fn new_pipeline_has_nothing_open() {
    let v = PipelineValidator::new(2, small_cfg(4, 2), Box::new(OneProposerPerSlot), Default::default());
    assert_eq!(v.id(), 2);
    assert_eq!(v.open_windows(), 0);
    assert_eq!(v.outstanding_now(), 0);
    assert_eq!(v.max_outstanding(), 0);
    assert!(v.finalize_log().is_empty());
}

#[test]
fn finalize_log_lists_each_slot_once_in_completion_order() {
    let validators: Vec<ValidatorId> = (0..4).collect();
    let cfg = small_cfg(4, 2);
    let mut engine: Engine<PipelineValidator> = Engine::new(11, Box::new(FixedDelay(3)));
    for &id in &validators {
        engine.add_node(PipelineValidator::new(id, cfg.clone(), Box::new(OneProposerPerSlot), Default::default()));
    }
    engine.start();
    engine.run_until(400);
    for node in engine.nodes() {
        let log = node.finalize_log();
        assert!(!log.is_empty());
        let mut slots: Vec<Slot> = log.iter().map(|&(s, _)| s).collect();
        slots.sort();
        slots.dedup();
        assert_eq!(slots.len(), log.len(), "a slot appears at most once");
        for pair in log.windows(2) {
            assert!(pair[0].1 <= pair[1].1, "observation ticks never go back");
        }
        assert!(node.outstanding_now() <= node.max_outstanding());
        assert!(node.max_outstanding() <= 2 * 4 - 2);
        assert_eq!(node.open_windows() * 4 >= slots.len(), true);
    }
}

#[test]
fn threshold_above_window_bounds_by_one_window_extra() {
    // p larger than W behaves as p = W: at most 2W - W = W slots underway
    let validators: Vec<ValidatorId> = (0..4).collect();
    let cfg = small_cfg(3, 10);
    let mut engine: Engine<PipelineValidator> = Engine::new(2, Box::new(FixedDelay(40)));
    for &id in &validators {
        engine.add_node(PipelineValidator::new(id, cfg.clone(), Box::new(OneProposerPerSlot), Default::default()));
    }
    engine.start();
    engine.run_until(2000);
    for node in engine.nodes() {
        assert!(node.max_outstanding() <= 3);
        assert!(node.max_outstanding() >= 1);
    }
}

#[test]
fn muted_pipeline_validator_never_completes() {
    let validators: Vec<ValidatorId> = (0..4).collect();
    let cfg = small_cfg(4, 2);
    let muted: std::collections::HashSet<ValidatorId> = [3u64].into_iter().collect();
    let mut engine: Engine<PipelineValidator> = Engine::new(6, Box::new(FixedDelay(3)));
    for &id in &validators {
        engine.add_node(PipelineValidator::new(id, cfg.clone(), Box::new(OneProposerPerSlot), muted.clone()));
    }
    engine.start();
    engine.run_until(400);
    let silent = engine.node(3).unwrap();
    assert!(silent.finalize_log().is_empty());
    assert_eq!(silent.open_windows(), 1);
    for id in 0..3u64 {
        assert!(!engine.node(id).unwrap().finalize_log().is_empty());
    }
}
