//! Streaming buffer-queue substrate for a proxy: a bounded byte store plus a
//! pair of ordered descriptor queues that track which bytes arrived and which
//! bytes should go out, while the stream is rewritten in place.

pub mod laws;
pub mod queue;
pub mod store;
