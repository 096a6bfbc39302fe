//! The recorded trace of a simulation run.

use crate::sim::delay::{NodeId, Tick};
use vstd::prelude::*;

verus! {

#[derive(Debug, Clone, PartialEq, Eq)]
pub enum TraceKind {
    Send { from: NodeId, to: NodeId, msg: String },
    Deliver { from: NodeId, to: NodeId, msg: String },
    TimerSet { node: NodeId, timer: String, fires_at: Tick },
    TimerFired { node: NodeId, timer: String },
    Custom { node: NodeId, label: String },
}

#[derive(Debug, Clone, PartialEq, Eq)]
pub struct TraceEvent {
    pub tick: Tick,
    pub seq: u64,
    pub kind: TraceKind,
}

#[derive(Debug, Clone)]
pub struct Trace {
    pub events: Vec<TraceEvent>,
}

impl Default for Trace {
    fn default() -> (t: Self)
        ensures
            t.events@ == Seq::<TraceEvent>::empty(),
    {
        Trace { events: Vec::new() }
    }
}

impl Trace {
    pub fn new() -> (t: Self)
        ensures
            t.events@ == Seq::<TraceEvent>::empty(),
    {
        Trace { events: Vec::new() }
    }

    pub fn record(&mut self, tick: Tick, seq: u64, kind: TraceKind)
        ensures
            final(self).events@ == old(self).events@.push(TraceEvent { tick, seq, kind }),
    {
        self.events.push(TraceEvent { tick, seq, kind });
    }
}

} // verus!
