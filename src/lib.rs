//! Chess game corpus pipeline: a byte-offset index over a PGN corpus, a
//! legality-checked replay of move text, dense position/move encodings, and
//! a self-describing binary chunk format.

pub mod chess;
pub mod chunks;
pub mod encoder;
pub mod index_file;
pub mod indexer;
pub mod locator;
pub mod proto;
pub mod replay;
