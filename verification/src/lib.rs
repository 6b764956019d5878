//! The decision logic of a Sailfish node: the benchmark client, the proposer and committer
//! of a primary, and the tasks of a worker.
//!
//! Every task of the running system is a loop that waits for an event, decides, and acts.
//! This crate holds what is decided, as functions on plain values. Waiting and acting
//! (sockets, timers, channels, files) belongs to the program around it.
pub mod buffer;
pub mod chance;
pub mod clock;
pub mod keys;
pub mod maps;
pub mod node;
pub mod primary;
pub mod wire;
pub mod worker;
