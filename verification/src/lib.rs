//! cadence_mini: a simulation-first model of the Cadence multiple-concurrent-proposer BFT
//! consensus protocol, with its slot consensus (Chorus), its pipelining orchestrator
//! (Conductor), and a seeded discrete-event simulator to run them in.

pub mod adversary;
pub mod certifier;
pub mod chorus;
pub mod sim;
pub mod idmap;
pub mod types;
pub mod mcp;
pub mod pipeline;
pub mod speculative;
