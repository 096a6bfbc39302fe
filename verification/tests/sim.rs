// The simulator: determinism of traces and exact delivery delays.

use cadence_mini::sim::{Ctx, Engine, FixedDelay, Node, NodeId, TraceEvent, TraceKind, UniformDelay};
use rand::Rng;

#[derive(Clone, Debug)]
enum Msg {
    Ping(u64),
    Pong(u64),
}

struct Pinger {
    id: NodeId,
    peers: Vec<NodeId>,
    round: u64,
}

impl Node for Pinger {
    type Message = Msg;

    fn id(&self) -> NodeId {
        self.id
    }

    fn on_start(&mut self, ctx: &mut Ctx<Msg>) {
        let jitter = ctx.rng().next_u32() % 5;
        ctx.set_timer(1 + jitter as u64, "kickoff");
    }

    fn on_message(&mut self, ctx: &mut Ctx<Msg>, from: NodeId, msg: Msg) {
        match msg {
            Msg::Ping(r) => {
                ctx.log(format!("got ping {r} from {from}"));
                ctx.send(from, Msg::Pong(r));
            }
            Msg::Pong(r) => {
                ctx.log(format!("got pong {r} from {from}"));
            }
        }
    }

    fn on_timer(&mut self, ctx: &mut Ctx<Msg>, timer: String) {
        if timer == "kickoff" && self.round < 3 {
            self.round += 1;
            for &p in self.peers.clone().iter() {
                ctx.send(p, Msg::Ping(self.round));
            }
            ctx.set_timer(10, "kickoff");
        }
    }
}

fn run_with_seed(seed: u64) -> Vec<TraceEvent> {
    let delay = UniformDelay { min: 1, max: 7 };
    let mut engine: Engine<Pinger> = Engine::new(seed, Box::new(delay));
    let ids: Vec<NodeId> = (0..5).collect();
    for &id in &ids {
        let peers: Vec<NodeId> = ids.iter().copied().filter(|&p| p != id).collect();
        engine.add_node(Pinger { id, peers, round: 0 });
    }
    engine.start();
    engine.run_until(200);
    engine.trace().events.clone()
}

#[test]
fn same_seed_same_trace() {
    for seed in 0..20u64 {
        let a = run_with_seed(seed);
        let b = run_with_seed(seed);
        assert_eq!(a, b, "trace mismatch for seed {seed}");
    }
}

#[test]
fn different_seeds_generally_differ() {
    let a = run_with_seed(1);
    let b = run_with_seed(2);
    assert_ne!(a, b);
}

#[test]
fn fixed_delay_is_deterministic_too() {
    let mut engine: Engine<Pinger> = Engine::new(42, Box::new(FixedDelay(5)));
    let ids: Vec<NodeId> = (0..3).collect();
    for &id in &ids {
        let peers: Vec<NodeId> = ids.iter().copied().filter(|&p| p != id).collect();
        engine.add_node(Pinger { id, peers, round: 0 });
    }
    engine.start();
    engine.run_until(100);
    let a = engine.trace().events.clone();

    let mut engine2: Engine<Pinger> = Engine::new(42, Box::new(FixedDelay(5)));
    for &id in &ids {
        let peers: Vec<NodeId> = ids.iter().copied().filter(|&p| p != id).collect();
        engine2.add_node(Pinger { id, peers, round: 0 });
    }
    engine2.start();
    engine2.run_until(100);
    let b = engine2.trace().events.clone();

    assert_eq!(a, b);
}

#[derive(Clone, Debug)]
struct Hello;

struct Speaker {
    id: NodeId,
    peer: NodeId,
}

impl Node for Speaker {
    type Message = Hello;

    fn id(&self) -> NodeId {
        self.id
    }

    fn on_start(&mut self, ctx: &mut Ctx<Hello>) {
        if self.id == 0 {
            ctx.send(self.peer, Hello);
        }
    }

    fn on_message(&mut self, _ctx: &mut Ctx<Hello>, _from: NodeId, _msg: Hello) {}
    fn on_timer(&mut self, _ctx: &mut Ctx<Hello>, _timer: String) {}
}

#[test]
fn configured_delay_observed_in_trace() {
    let mut engine: Engine<Speaker> = Engine::new(7, Box::new(FixedDelay(50)));
    engine.add_node(Speaker { id: 0, peer: 1 });
    engine.add_node(Speaker { id: 1, peer: 0 });
    engine.start();
    engine.run_until(200);

    let send_tick = engine
        .trace()
        .events
        .iter()
        .find_map(|e| match &e.kind {
            TraceKind::Send { from: 0, to: 1, .. } => Some(e.tick),
            _ => None,
        })
        .expect("node 0 sends Hello to node 1");

    let deliver_tick = engine
        .trace()
        .events
        .iter()
        .find_map(|e| match &e.kind {
            TraceKind::Deliver { from: 0, to: 1, .. } => Some(e.tick),
            _ => None,
        })
        .expect("node 1 delivers Hello from node 0");

    assert_eq!(
        deliver_tick - send_tick,
        50,
        "the configured 50-tick delay must be exactly reflected between send and delivery"
    );
}

// ---- further checks ----

#[test]
fn trace_is_ordered_by_tick_and_sequence() {
    let events = run_with_seed(3);
    assert!(!events.is_empty());
    for pair in events.windows(2) {
        assert!(pair[0].tick <= pair[1].tick);
        assert!(pair[0].seq < pair[1].seq);
    }
    assert!(events.iter().all(|e| e.tick <= 200));
}

#[test]
fn nodes_are_kept_in_id_order() {
    let mut engine: Engine<Speaker> = Engine::new(1, Box::new(FixedDelay(1)));
    engine.add_node(Speaker { id: 5, peer: 0 });
    engine.add_node(Speaker { id: 2, peer: 0 });
    engine.add_node(Speaker { id: 9, peer: 0 });
    assert_eq!(engine.node_ids(), vec![2, 5, 9]);
    assert!(engine.node(5).is_some());
    assert!(engine.node(3).is_none());
    assert_eq!(engine.current_tick(), 0);
}

#[test]
fn message_to_missing_node_is_recorded_then_dropped() {
    let mut engine: Engine<Speaker> = Engine::new(7, Box::new(FixedDelay(5)));
    engine.add_node(Speaker { id: 0, peer: 4 });
    engine.start();
    engine.run_until(50);
    let kinds: Vec<&TraceKind> = engine.trace().events.iter().map(|e| &e.kind).collect();
    assert!(kinds.iter().any(|k| matches!(k, TraceKind::Send { from: 0, to: 4, .. })));
    assert!(kinds.iter().any(|k| matches!(k, TraceKind::Deliver { from: 0, to: 4, .. })));
    assert_eq!(kinds.len(), 2);
}

#[test]
fn timers_fire_after_their_delay() {
    let mut engine: Engine<Pinger> = Engine::new(5, Box::new(FixedDelay(3)));
    engine.add_node(Pinger { id: 0, peers: vec![], round: 0 });
    engine.start();
    engine.run_until(100);
    let events = &engine.trace().events;
    let set = events
        .iter()
        .find_map(|e| match &e.kind {
            TraceKind::TimerSet { node: 0, fires_at, .. } => Some((e.tick, *fires_at)),
            _ => None,
        })
        .expect("a timer was set");
    let fired = events
        .iter()
        .find_map(|e| match &e.kind {
            TraceKind::TimerFired { node: 0, .. } => Some(e.tick),
            _ => None,
        })
        .expect("the timer fired");
    assert_eq!(fired, set.1);
    assert!(set.1 > set.0);
}

#[test]
fn run_until_processes_events_due_exactly_at_the_bound() {
    let mut engine: Engine<Speaker> = Engine::new(7, Box::new(FixedDelay(50)));
    engine.add_node(Speaker { id: 0, peer: 1 });
    engine.add_node(Speaker { id: 1, peer: 0 });
    engine.start();
    assert_eq!(engine.current_tick(), 0);
    engine.run_until(49);
    assert_eq!(engine.current_tick(), 0);
    assert_eq!(engine.trace().events.len(), 1);
    engine.run_until(50);
    assert_eq!(engine.current_tick(), 50);
    let kinds: Vec<(u64, u64, bool)> = engine
        .trace()
        .events
        .iter()
        .map(|e| (e.tick, e.seq, matches!(e.kind, TraceKind::Deliver { from: 0, to: 1, .. })))
        .collect();
    assert_eq!(kinds, vec![(0, 0, false), (50, 2, true)]);
    let before = engine.trace().events.len();
    engine.run_until(50);
    assert_eq!(engine.trace().events.len(), before);
    assert_eq!(engine.current_tick(), 50);
}
