//! Scan-side helpers: read-ahead of a scan's byte ranges.

pub mod prefetch;
pub mod row_number;
