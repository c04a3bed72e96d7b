use vstd::prelude::*;

verus! {

/// What can go wrong in the pipeline.
#[derive(Debug, Clone, Copy, PartialEq, Eq, Structural)]
pub enum RateError {
    /// An input source could not be opened.
    SourceUnavailable,
    /// A row lacks a column or holds a value that is not a number in range.
    MalformedRecord,
    /// A statistic over edges was asked of a graph that has none.
    EmptyGraphStatistics,
}

} // verus!
