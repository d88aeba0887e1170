//! Verified core of a Delta Lake scan: a block cache for object-store reads,
//! Delta scan planning, and the row-level streams that run above a scan.

pub mod cache;
pub mod delta;
pub mod options;
pub mod scan;
pub mod text;
