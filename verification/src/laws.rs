//! What the functions of this crate do, in terms of what goes in and what comes
//! out.
//!
//! The laws here speak of calls: of what a call takes, and of what it can return.

pub mod chunks;
pub mod mixes;
pub mod models;
pub mod operations;
pub mod overlaps;
pub mod pipelined_runs;
pub mod rates;
pub mod recordings;
pub mod segment_runs;
pub mod segments;
pub mod sequential_runs;
