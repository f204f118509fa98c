//! Detection and validation of arbitrage cycles across liquidity pools: a registry of
//! pool states, a weighted graph projected from it (optionally under one pending
//! transaction), a bounded-hop search for negative-weight cycles, a local simulation
//! of each candidate, and the gating and submission decisions that follow.

pub mod graph;
pub mod pool;
pub mod registry;
pub mod search;
pub mod simulate;
pub mod strike;
