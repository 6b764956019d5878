//! The benchmark client.
pub mod client;
pub mod metrics;
pub mod reply_processor;
pub mod shutdown;
pub mod transaction_sender;
