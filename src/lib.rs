//! An embedded, ordered key-value store organised as a log-structured merge tree.
//!
//! Writes go to an in-memory table; a sync freezes it and flushes it into an immutable sorted
//! table of blocks. Reads consult the memory tables, then the tables, newest first; scans merge
//! every source into one ordered cursor.
pub mod block;
pub mod error;
pub mod iterators;
pub mod keys;
pub mod lsm_iterator;
pub mod lsm_storage;
pub mod mem_table;
pub mod merge_iterator;
pub mod seqs;
pub mod table;
pub mod table_iterator;
pub mod two_merge_iterator;
