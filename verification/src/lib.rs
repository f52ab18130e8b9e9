//! A verified model of the dining-philosophers resource-deadlock scenario.
//!
//! N actors sit in a ring, each needing the two forks beside it. The
//! arrangement builder wires actors to forks; the naive wiring lets every
//! actor grab its left fork first, which admits a circular wait, while the
//! fixed wiring swaps one actor's pair and provably removes every deadlock.
//! The model in this crate captures the actor protocol as an explicit state
//! machine over interleavings, proves mutual exclusion and per-actor event
//! ordering, exhibits a concrete deadlocking interleaving for the naive
//! wiring, and proves that no interleaving of the fixed wiring deadlocks.

pub mod arrangement;
pub mod harness;
pub mod model;
