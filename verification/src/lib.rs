//! A small log-structured merge tree storage engine: sorted blocks, sorted
//! string tables, merging iterators and compaction bookkeeping, with the byte
//! formats and the iteration order proved against their specifications.
pub mod block;
pub mod codec;
pub mod compact;
pub mod iterators;
pub mod key;
pub mod lsm_iterator;
pub mod lsm_storage;
pub mod manifest;
pub mod table;
