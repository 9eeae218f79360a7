//! The core of a server-side source-control store: a commit store keyed by
//! SHA-1 with its commit graph, an IdMap between vertex ids and changeset
//! ids, lazy name-set algebra, transactional bookmarks with an update log,
//! and a derived-data framework. Every function here carries a contract
//! that Verus proves.
pub mod types;
pub mod nameset;
pub mod bookmarks;
pub mod idmap;
pub mod commits;
pub mod derived;
pub mod restrictions;
pub mod key;
pub mod request;
pub mod api;
