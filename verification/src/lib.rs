//! The storage layer of a graph and document database: record frames,
//! paged copy-on-write B+trees, a record heap, a change feed, checkpoints
//! and the engine that puts them together.
//!
//! Everything here works on values held in memory and is proved against
//! the contracts beside it. Files, locks and clocks belong to the
//! application around the library.

pub mod binary;
pub mod btree;
pub mod bytes;
pub mod cache;
pub mod catalog;
pub mod changes;
pub mod checkpoint;
pub mod commit;
pub mod cursor;
pub mod decimal;
pub mod defs;
pub mod engine;
pub mod filter;
pub mod heap;
pub mod json;
pub mod keys;
pub mod laws;
pub mod location;
pub mod order;
pub mod page;
pub mod record;
pub mod segments;
pub mod seqs;
pub mod sort;
pub mod tables;
pub mod text;
pub mod textmap;
pub mod transaction;
pub mod types;
pub mod wal;
