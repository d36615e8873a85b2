//! Streaming filter-and-deduplicate pipeline for line-oriented word lists.
//!
//! Lines are filtered by length and pattern, checked against a membership
//! engine, and the survivors are routed to buffered output buckets.
//!
//! The library does no input or output of its own. A line source cuts its
//! lines from a byte buffer that the caller holds, such as a memory-mapped
//! file; a writer keeps what was written in memory and hands it over when
//! the caller asks, so that a scan stops where a flush is due and goes on
//! after it. The engines are used by one caller at a time: whoever shares
//! one among threads puts it behind a lock.

pub mod bloom;
pub mod cli;
pub mod dedup;
pub mod encoding;
pub mod filter;
pub mod hashing;
pub mod output;
pub mod processor;
pub mod progress;
pub mod scan;
pub mod string_set;
pub mod text;

pub use cli::Args;
pub use processor::{Processor, ProcessorConfig};
