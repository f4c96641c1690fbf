//! Storage core of an embedded key-value store: sorted string tables with an
//! embedded B+-tree index, merging iteration over LSM levels, and an
//! in-memory file store with deferred deletion.
pub mod varint;
pub mod keys;
pub mod format;
pub mod sst_writer;
pub mod sst_reader;
pub mod file_store;
pub mod lsm;
pub mod merge;
pub mod records;
pub mod sst_buffered_writer;
pub mod streaming_iter;
pub mod db;
