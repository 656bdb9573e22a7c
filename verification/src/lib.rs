//! Huffman coding engine of a DEFLATE-family compressor: construction of
//! multi-level decode tables from per-symbol code lengths, construction of
//! length-limited canonical Huffman codes from symbol frequencies, and the
//! run-length description of a code-length sequence for transmission.

pub mod kraft;
pub mod types;
pub mod rle;
pub mod tree;
pub mod huft;
