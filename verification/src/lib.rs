//! Query-aware log compression: the verified core.
//!
//! The modules hold the line-range arithmetic used for context windows,
//! the byte-level tokenizers and their hash, the two inverted indexes,
//! the log-line parser, and the selection steps of the compression
//! pipeline that do not involve floating-point scores.
use vstd::prelude::*;

pub mod config;
pub mod context;
pub mod range_specs;
pub mod result;
pub mod sorted;
pub mod text;
pub mod tokens;
pub mod fast_index;
pub mod index;
pub mod json;
pub mod lines;
pub mod parser;
pub mod pipeline;
pub mod rng;
pub mod numfmt;
pub mod render;
pub mod dataset;
pub mod planner;
pub mod ground_truth;

pub use config::InputFormat;
pub use result::MatchReason;

verus! {

} // verus!
