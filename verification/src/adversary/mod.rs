//! The adversary suite: an equivocating proposer, a censoring proposer, offline
//! validators, a partition that heals, and a geo-plausible delay matrix.

pub mod censor;
pub mod delayer;
pub mod equivocator;
pub mod geo;
pub mod offline;
