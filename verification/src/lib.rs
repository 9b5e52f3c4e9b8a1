//! A topic-based message queue: length-prefixed message framing, per-consumer
//! read positions over append-only topic logs, batched log writing, consumer
//! offset records and in-memory queues.

pub mod api;
pub mod buffers;
pub mod config;
pub mod consumer;
pub mod enums;
pub mod framing;
pub mod loadgen;
pub mod offsets;
pub mod queue;
pub mod types;
pub mod writer;
