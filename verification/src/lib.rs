//! Disk-usage statistics for a directory tree, laid out as a squarified
//! treemap.
//!
//! The crate has two verified subsystems: the scanner, which aggregates the
//! sizes of a directory's immediate children into an entry sequence plus
//! progress counters, and the treemap layout engine, which partitions a
//! rectangle into sub-rectangles whose areas are proportional to entry sizes
//! and answers point-based hit-tests over the result.  Filesystem enumeration
//! itself is I/O and lives outside the library; callers hand the scanner the
//! stat'ed children as plain values.

pub mod heat_map;
pub mod nav;
pub mod scanner;
pub mod sorting;
pub mod treemap;
pub mod views;
