//! The value types that flow through the engine: intervals, sweep events,
//! and the record types the algorithms emit.

use vstd::prelude::*;

verus! {

/// One interval of a collection: a partition key (`group`, e.g. an encoded
/// chromosome), half-open coordinates `[start, end)`, and a stable
/// back-reference `idx` to the caller's original row.
#[derive(Debug, Clone, Copy, PartialEq, Eq, Structural)]
pub struct Interval {
    pub group: i64,
    pub start: i64,
    pub end: i64,
    pub idx: i64,
}

/// A sweep-line event: the boundary of an interval.
/// `pos` is the coordinate, `is_start` tells which boundary, `first_set`
/// tells which of the two collections the interval belongs to, and `idx`
/// is the interval's row index within its collection.
#[derive(Debug, Clone, Copy, PartialEq, Eq, Structural)]
pub struct Event {
    pub chr: i64,
    pub pos: i64,
    pub is_start: bool,
    pub first_set: bool,
    pub idx: i64,
}

/// A reduced event used when start and end streams are kept separate:
/// only the partition key, the coordinate and the row index.
#[derive(Debug, Clone, Copy, PartialEq, Eq, Structural)]
pub struct MinEvent {
    pub chr: i64,
    pub pos: i64,
    pub idx: i64,
}

/// A materialized cross-collection overlap: row `idx` of the first
/// collection overlaps row `idx2` of the second.
#[derive(Debug, Clone, Copy, PartialEq, Eq, Structural)]
pub struct OverlapPair {
    pub idx: i64,
    pub idx2: i64,
}

/// A nearest-neighbor record: row `idx2` of the second collection lies at
/// `distance` from row `idx` of the first.  Distances are 1-based: two
/// bookended intervals have distance 1, a strictly positive gap of `g`
/// positions gives distance `g + 1`.
#[derive(Debug, Clone, Copy, PartialEq, Eq, Structural)]
pub struct Nearest {
    pub distance: i64,
    pub idx: i64,
    pub idx2: i64,
}

/// An interval enriched with the bookkeeping the spliced-subsequence pass
/// needs: the strand flag and the running exon length/cumulative sum within
/// its group.
#[derive(Debug, Clone, Copy, PartialEq, Eq, Structural)]
pub struct SplicedSubsequenceInterval {
    pub chr: i64,
    pub start: i64,
    pub end: i64,
    pub idx: i64,
    pub forward_strand: bool,
    pub temp_length: i64,
    pub temp_cumsum: i64,
}

/// An interval with a grouping id and a strand flag, for subsequence logic.
#[derive(Debug, Clone, Copy, PartialEq, Eq, Structural)]
pub struct SubsequenceInterval {
    pub group_id: i64,
    pub start: i64,
    pub end: i64,
    pub idx: i64,
    pub forward_strand: bool,
}

/// An entry of a bounded nearest-neighbor collector: the negated distance
/// (so that the natural ascending order is "best last") and the candidate's
/// row index.
#[derive(Debug, Clone, Copy, PartialEq, Eq, Structural)]
pub struct HeapItem {
    pub neg_dist: i64,
    pub idx2: i64,
}

/// Which direction a nearest-neighbor query searches in.
#[derive(Debug, Clone, Copy, PartialEq, Eq, Structural)]
pub enum Direction {
    Forward,
    Backward,
    Any,
}

/// How many partners an overlap join keeps per query interval.
#[derive(Debug, Clone, Copy, PartialEq, Eq, Structural)]
pub enum OverlapType {
    First,
    Last,
    All,
}

/// Why an operation rejected its input before sweeping.
#[derive(Debug, Clone, Copy, PartialEq, Eq, Structural)]
pub enum RangesError {
    /// Two parallel input arrays have different lengths.
    LengthMismatch,
    /// A group id of the collection is absent from the length table.
    UnknownGroup,
}

impl RangesError {
    /// A human-readable description of the error.
    pub fn message(&self) -> (r: &'static str)
        ensures
            *self is LengthMismatch ==> r@ == "mismatched array lengths"@,
            *self is UnknownGroup ==> r@ == "unknown group id in length table"@,
    {
        match self {
            RangesError::LengthMismatch => "mismatched array lengths",
            RangesError::UnknownGroup => "unknown group id in length table",
        }
    }
}

} // verus!
