//! The seeded, single-threaded discrete-event simulator: a logical clock, an event queue,
//! injectable per-link delay models and a full trace recorder.

pub mod delay;
pub mod engine;
pub mod queue;
pub mod rng;
pub mod trace;

pub use delay::{DelayModel, FixedDelay, NodeId, OverrideDelay, PartitionHeal, Tick, UniformDelay};
pub use engine::{Ctx, Engine, Node, Outbound};
pub use trace::{Trace, TraceEvent, TraceKind};
