//! A chromosome-partitioned interval algebra engine.
//!
//! Interval collections arrive as parallel columnar arrays
//! `(group, start, end)`; every operation sweeps sorted boundary events and
//! emits columnar results: overlap joins, cluster/merge aggregation,
//! bounded k-nearest search, complements against a group length table, and
//! subtraction of one collection from another.  Coordinates are half-open
//! `[start, end)`; two intervals interact when their closed boundary spans
//! meet, so intervals that merely touch are joined, merged and clustered
//! together.

#![verifier::rlimit(100)]

pub mod ruranges_structs;
pub mod events;
pub mod sorts;
pub mod overlaps;
pub mod overlaps_two_pointer;
pub mod merge;
pub mod cluster;
pub mod complement;
pub mod subtract;
pub mod nearest;
pub mod nearest_unique_k;
pub mod spliced_subsequence;
