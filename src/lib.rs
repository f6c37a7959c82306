//! Streaming trimmer for heap-profile traces: drops everything before a time
//! offset and renumbers the allocation references that remain, so that the
//! trimmed trace still loads.
//!
//! - [`hex`]: the trace's minimal lowercase hexadecimal numbers.
//! - [`line`]: finding the numeric argument of a line.
//! - [`rewrite`]: the per-line state machine ([`rewrite::Rewriter`]).
//! - [`run`]: rewriting a whole trace held in memory.
//! - [`laws`]: properties of the rewrite, proved.

pub mod hex;
pub mod laws;
pub mod line;
pub mod rewrite;
pub mod run;
