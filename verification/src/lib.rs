//! Semanta: an embedded semantic engine on top of SQLite.
//!
//! Documents are cut into chunks, the caller's embeddings of the chunks are indexed
//! and searched, and the relations that the caller judges between chunks expand the
//! results of a search. The engines work on a `Database` in memory and record every
//! change they make to it, for the stored database and the index to follow.

pub mod ann;
pub mod bits;
pub mod document;
pub mod embedding;
pub mod error;
pub mod graph;
pub mod laws;
pub mod order;
pub mod ranking;
pub mod seqs;
pub mod storage;
pub mod text;
pub mod util;
