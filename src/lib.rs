//! An embedded store that maps byte paths to binary documents kept in
//! checksummed page chains, with a reverse-path trie for path search, a
//! framed write-ahead log and single-writer transactions; and the decisions
//! of a terminal greeting (layout, image protocol, Base64 for image data).
pub mod codec;
pub mod trie;
pub mod error;
pub mod config;
pub mod pager;
pub mod store;
pub mod chain;
pub mod model;
pub mod db;
pub mod greeting;
pub mod image;
pub mod cli;
pub mod wal;
