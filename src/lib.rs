//! Per-key minimum / mean / maximum over `<key>;<value>` records, computed
//! chunk by chunk and merged into one deterministic report.

pub mod value;
pub mod stats;
pub mod keys;
pub mod aggregate;
pub mod records;
pub mod chunking;
pub mod report;
pub mod engine;
