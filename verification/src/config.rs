//! Settings of the compression pipeline that the verified core reads.
use vstd::prelude::*;

verus! {

/// How the lines of the input are to be read.
#[derive(Debug, Clone, Copy, PartialEq, Eq, Structural)]
pub enum InputFormat {
    /// Decide from the first line.
    Auto,
    /// One JSON object per line.
    JsonLines,
    /// Free text.
    PlainText,
}

} // verus!
