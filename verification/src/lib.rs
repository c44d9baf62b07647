//! A deterministic discrete-event simulator of a proof-of-work blockchain
//! network: miners with hash-rate shares extend a shared block tree, blocks
//! travel between miners with a network delay, and forks are resolved by the
//! heaviest-chain rule.

pub mod error;
pub mod chain;
pub mod difficulty;
pub mod rng;
pub mod sampling;
pub mod queue;
pub mod miner;
pub mod model;
pub mod scheduler;
pub mod report;
