//! Why a line is part of the compressed output.
use vstd::prelude::*;

verus! {

/// Why a line is part of the compressed output.
#[derive(Debug, Clone)]
pub enum MatchReason {
    /// It scored against the query.
    QueryMatch,
    /// A boosted JSON field of it shares a token with the query.
    FieldMatch { field: String },
    /// It is an error line.
    ErrorLevel,
    /// It shares a trace identifier with a scored line.
    TraceExpansion { trace_id: String },
    /// It is context around the hit on line `of_line` (1-based).
    Context { of_line: usize },
}

} // verus!
