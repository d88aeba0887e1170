//! Delta table access: locating files, storage credentials, and scan planning.

pub mod batch;
pub mod dv_filter;
pub mod engine;
pub mod location;
pub mod partition_value;
pub mod paths;
pub mod predicate;
pub mod redaction;
pub mod request;
pub mod scan_plan;
pub mod storage;
pub mod store;
pub mod synthetic_columns;
pub mod tasks;
pub mod timezone;
