//! The tasks of a worker.
pub mod asynchrony;
pub mod batch_maker;
pub mod certificate_ack_sender;
pub mod helper;
pub mod metadata;
pub mod processor;
pub mod reply_sender;
pub mod synchronizer;
