//! The tasks of a primary.
pub mod committer;
pub mod proposer;
