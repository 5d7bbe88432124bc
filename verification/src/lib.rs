//! Verified codec and offline compaction for block-based sorted-table files.

pub mod compaction;
pub mod entry;
pub mod error;
pub mod format;
pub mod fuzzer;
pub mod generate;
pub mod merge;
pub mod oracle;
pub mod round_trip;
pub mod sst;
pub mod table_laws;
