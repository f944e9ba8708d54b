//! The write path of an embedded full-text search engine: operation stamps,
//! the broadcast queue of deletes, the delete semantics applied to freshly
//! built segments, the indexing front end (segments closed on a memory
//! budget, commits, rollbacks and merges) and the read-source cache of the
//! file-backed directory.

pub mod bitset;
pub mod compressors;
pub mod delete_queue;
pub mod error;
pub mod index_writer;
pub mod mmap_cache;
pub mod operation;
pub mod segment;
pub mod stamper;
pub mod tokenizer;
