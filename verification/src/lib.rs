//! Reader for a game-resource archive: a directory table, a packed data blob,
//! and the RNC1 compression used inside individual entries.

mod bit_math;
pub mod bit_queue;
pub mod bytes_ext;
pub mod huffman;
pub mod rnc_decompress;
pub mod archive;
pub mod dump;
