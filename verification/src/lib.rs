//! A deterministic per-height inter-shard bandwidth scheduler and the
//! simulation harness used to exercise it.
//!
//! Every shard runs the same scheduling algorithm over the previous block to
//! decide, for each ordered pair of shards, how many bytes the sender may ship
//! to the receiver during the current height.

pub mod arith;
pub mod bandwidth_request;
pub mod bandwidth_scheduler;
pub mod builder;
pub mod chain;
pub mod distribute_remaining;
pub mod maps;
pub mod outgoing_queue;
pub mod receipt_sender;
pub mod rng;
pub mod simulation;
pub mod sums;
pub mod validation;
