//! A verified model of a fixed-size resource-contention simulation:
//! `n` actors arranged on a ring each need exclusive, simultaneous
//! possession of two shared slots, hold them for a critical section, and
//! release them.  The library proves the three properties the design
//! hinges on: each slot has at most one holder at any instant, the
//! lowest-slot-first acquisition policy leaves no deadlock, and every
//! actor makes progress to completion, announcing its start and its end
//! exactly once.

pub mod philosopher;
pub mod sim;
pub mod table;
