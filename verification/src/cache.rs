//! Block-aligned data cache: block arithmetic, the memory tier, the SSD tier's
//! index, and the accounting that paces read-ahead.

pub mod block_cache;
pub mod blocks;
pub mod bytes_ops;
pub mod coherence;
pub mod config;
pub mod credit;
pub mod error;
pub mod fill;
pub mod flush;
pub mod ledger;
pub mod metrics;
pub mod range_read;
pub mod read;
pub mod read_ahead;
pub mod residency;
pub mod sieve;
pub mod single_flight;
pub mod ssd;
pub mod tiers;
pub mod version;
pub mod whole_read;
