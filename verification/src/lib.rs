//! Core of a local-first personal knowledge base: a store of notes with a
//! coupled lexical index, a dense-vector index and a pairwise similarity
//! cache, plus the pure logic around it (validation, snippets, query
//! sanitization, rank fusion, clustering, settings and watcher decisions).
//!
//! The store is modelled in memory and every operation on it is verified;
//! a host shell persists the same state and performs file, database and
//! inference I/O around this crate.

pub mod chars;
pub mod cluster;
pub mod codec;
pub mod delete;
pub mod embed;
pub mod errors;
pub mod fts;
pub mod graph;
pub mod ids;
pub mod index;
pub mod links;
pub mod listing;
pub mod migrate;
pub mod numstr;
pub mod order;
pub mod search;
pub mod settings;
pub mod snippet;
pub mod store;
pub mod text;
pub mod watch;
pub mod words;

pub use errors::SunderError;
