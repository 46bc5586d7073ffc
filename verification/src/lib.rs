//! Batch-coalescing notifier for competitive-programming problem dumps.
//!
//! The crate has two verified cores: a destination resolver that turns a
//! contest URL into a storage subdirectory and a batch-context key, and a
//! batch accumulator that coalesces per-problem outcomes into exactly one
//! summary notification per batch.

pub mod data;
pub mod laws;
pub mod notifier;
pub mod paths;
pub mod resolve;
pub mod text;
