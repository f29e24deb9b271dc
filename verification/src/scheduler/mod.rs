//! From consensus events to transaction batches.

pub mod backpressure;
pub mod pending_queue;
pub mod pipeline;
