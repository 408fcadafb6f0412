//! Streaming ingestion of a line-oriented encyclopedia dump: record-boundary
//! scanning, title and link extraction, and threshold-batched persistence.

pub mod batch;
pub mod extract;
pub mod links;
pub mod pipeline;
pub mod record;
pub mod scanner;
pub mod text;
