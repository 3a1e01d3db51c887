//! The core of a sink that writes a continuously updated relation to Kafka, exactly once.
//!
//! Updates arrive with a logical timestamp and a multiplicity. The sink writes the updates
//! of a timestamp once the timestamp is closed, in ascending timestamp order, each update as
//! often as it counts; with a consistency topic it brackets each timestamp with BEGIN and END
//! control records and reports progress with further END records, and with exactly-once
//! delivery it wraps each timestamp in a broker transaction.
//!
//! The library decides; it performs no input or output. The state machine in [`sink`] is
//! handed the updates and the frontiers, and hands back one action at a time for its driver
//! to perform. [`model`] says in mathematics what each step does, [`reachable`] what holds
//! of every state, and [`laws`] what that guarantees over every run.

pub mod admission;
pub mod config;
pub mod consistency;
pub mod election;
pub mod frontier;
pub mod laws;
pub mod metrics;
pub mod model;
pub mod pending;
pub mod reachable;
pub mod retry;
pub mod rows;
pub mod sink;
pub mod stash;
pub mod steps;
