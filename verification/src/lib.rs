//! Bitfold: RFC 1951 DEFLATE with LZ77 matching, canonical Huffman coding,
//! and the zlib container hashes, with machine-checked contracts.

pub mod adler;
pub mod battery;
pub mod bits;
pub mod corpus;
pub mod crc32;
pub mod deflate;
pub mod entropy;
pub mod huff;
pub mod inflate;
pub mod kats;
pub mod lzw77;
pub mod prefix;
pub mod roundtrip;
pub mod svg;
pub mod text;

use vstd::prelude::*;

verus! {

/// Crate version (pinned).
pub const VERSION: &'static str = "1.0.0";

} // verus!
