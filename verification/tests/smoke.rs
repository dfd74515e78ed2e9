//! Smoke test: the encoder/decoder round-trip on a handful of shapes.

use bitfold::corpus::{assemble, Part};
use bitfold::deflate::{compress_zlib, phrases_to_bytes};
use bitfold::inflate::decompress_zlib;

#[test]
fn small_roundtrip() {
    let msgs: [&[u8]; 6] = [
        b"",
        b"A",
        b"hello world",
        b"The quick brown fox jumps over the lazy dog.",
        &[0u8; 100],
        &vec![0x42; 1000],
    ];
    for msg in msgs {
        let z = compress_zlib(msg);
        let back = decompress_zlib(&z).expect("zlib round-trip");
        assert_eq!(back, msg, "round-trip failed for len {}", msg.len());
    }
}

#[test]
fn phrases_reconstruct() {
    // A repetitive message must produce matches that reconstruct it.
    let msg: Vec<u8> = "abcdefabcdefabcdefabcdef".repeat(40).into();
    let phrases = bitfold::lzw77::compress(&msg);
    let (nl, nm) = bitfold::lzw77::phrase_stats(&phrases);
    assert!(nm > 0, "expected matches for repetitive input");
    assert!(nl < msg.len(), "expected compression");
    let back = phrases_to_bytes(&phrases);
    assert_eq!(back, msg);
}

#[test]
fn stored_block_roundtrip() {
    // Incompressible-ish data may be stored; ensure stored blocks decode.
    let msg: Vec<u8> = (0..200u32).map(|i| ((i * 131 + 7) & 0xFF) as u8).collect();
    let z = compress_zlib(&msg);
    let back = decompress_zlib(&z).expect("stored round-trip");
    assert_eq!(back, msg);
}

#[test]
fn assemble_concatenates_parts_in_order() {
    let parts = [
        Part { name: "a", data: b"abc" },
        Part { name: "empty", data: b"" },
        Part { name: "b", data: b"de" },
    ];
    assert_eq!(assemble(&parts), b"abcde".to_vec());
    assert!(assemble(&[]).is_empty());
    let v = assemble(&parts);
    let back = bitfold::inflate::decompress_raw(&bitfold::deflate::compress_raw(&v).0).unwrap();
    assert_eq!(back, v);
}

#[test]
fn version_line() {
    assert_eq!(bitfold::VERSION, "1.0.0");
}
