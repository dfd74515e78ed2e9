//! Pinned streams and known answers: RFC 1951 examples, hand-built blocks,
//! the zlib container for pinned messages, streams produced by CPython's
//! zlib, and the error each malformed input gives.

use bitfold::adler::{adler32, adler32_fresh};
use bitfold::bits::{BitReader, BitWriter};
use bitfold::crc32::{crc32, crc32_fresh};
use bitfold::deflate::{
    compress_raw, compress_zlib, container_hashes, fixed_dist_table, fixed_lit_table,
    huffman_lengths, phrases_to_bytes, MAX_BLOCK,
};
use bitfold::huff::{canonical_codes, fixed_lit_lengths, FIXED_DIST_LENGTHS};
use bitfold::inflate::{decompress_raw, decompress_zlib, InflateError};
use bitfold::lzw77::Phrase;

fn hex_bytes(s: &str) -> Vec<u8> {
    (0..s.len())
        .step_by(2)
        .map(|i| u8::from_str_radix(&s[i..i + 2], 16).unwrap())
        .collect()
}

/// The 2250-byte cross-verification message (50 x 45).
fn fox_msg() -> Vec<u8> {
    let mut v = Vec::with_capacity(2250);
    for _ in 0..50 {
        v.extend_from_slice(b"The quick brown fox jumps over the lazy dog. ");
    }
    v
}

/// The 3000-byte incompressible message (`(i * 2654435761) mod 256`).
fn data_msg() -> Vec<u8> {
    (0..3000u32).map(|i| ((i as u64 * 2_654_435_761) % 256) as u8).collect()
}

#[test]
fn fixed_lit_spot_codes() {
    let fl = canonical_codes(&fixed_lit_lengths(), 9);
    let spot = [
        (0usize, 0b00110000u32),
        (143, 0b10111111),
        (144, 0b110010000),
        (255, 0b111111111),
        (256, 0b0000000),
        (279, 0b0010111),
        (280, 0b11000000),
        (285, 0b11000101),
        (287, 0b11000111),
    ];
    for (sym, c) in spot {
        assert_eq!(fl[sym], c, "symbol {sym}");
    }
}

#[test]
fn fixed_dist_codes_are_identity() {
    let fd = canonical_codes(&FIXED_DIST_LENGTHS, 5);
    for (i, c) in fd.iter().enumerate() {
        assert_eq!(*c, i as u32);
    }
}

#[test]
fn fixed_tables_decode_every_symbol() {
    let lit = fixed_lit_table();
    let lens = fixed_lit_lengths();
    let codes = canonical_codes(&lens, 15);
    for sym in 0..288usize {
        assert_eq!(lit.decode(codes[sym], lens[sym] as u32), Some(sym));
    }
    let dist = fixed_dist_table();
    for sym in 0..30u32 {
        assert_eq!(dist.decode(sym, 5), Some(sym as usize));
    }
    assert_eq!(lit.max_length(), 9);
    assert_eq!(dist.max_length(), 5);
}

#[test]
fn stored_block_pinned() {
    // bfinal=1, btype=00, LEN=3, NLEN=0xFFFC, "ABC".
    let stored = [0x01, 0x03, 0x00, 0xFC, 0xFF, 0x41, 0x42, 0x43];
    assert_eq!(decompress_raw(&stored).unwrap(), b"ABC");
}

#[test]
fn fixed_block_pinned() {
    // bfinal=1, btype=01, literal 'a' (8 bits), EOB (7 bits).
    assert_eq!(decompress_raw(&[0x4B, 0x04, 0x00]).unwrap(), [0x61]);
}

#[test]
fn overlap_match_kat() {
    let phrases = vec![
        Phrase::Literal(b'X'),
        Phrase::Literal(b'Y'),
        Phrase::Match { len: 5, dist: 2 },
    ];
    assert_eq!(phrases_to_bytes(&phrases), b"XYXYXYX");
}

#[test]
fn zlib_container_hello_pinned() {
    let hello = b"hello";
    let z = compress_zlib(hello);
    assert_eq!(z, hex_bytes("789ccb48cdc9c90700062c0215"));
    assert_eq!(decompress_zlib(&z).unwrap(), hello);
    let (crc, adler) = container_hashes(hello);
    assert_eq!(crc, 0x3610_A686);
    assert_eq!(adler, 0x062C_0215);
}

#[test]
fn our_dynamic_fox_pinned() {
    let fox = fox_msg();
    let z = compress_zlib(&fox);
    let want = hex_bytes(
        "789cedcac90140401045c1547e04a291008c9d66685bf484318777aecabba0cdfb6a5419ed5ad4d8adc1e775979d21eaf8792ade47b5b599c86432994c269393ca1f258c27cc",
    );
    assert_eq!(z, want);
    assert_eq!(decompress_zlib(&z).unwrap(), fox);
    let (_, st) = compress_raw(&fox);
    assert_eq!(st.n_blocks, 1);
    assert_eq!(st.n_dynamic, 1);
}

#[test]
fn cpython_fixed_fox_level_1() {
    let z1 = hex_bytes(
        "78010bc94855282ccd4cce56482aca2fcf5348cbaf50c82acd2d2856c82f4b2d5228014ae72456552aa4e4a7eb29848c2a1e0d8dd1b4319a53468b82d18271b49a18ad340753ab0000258c27cc",
    );
    assert_eq!(decompress_zlib(&z1).unwrap(), fox_msg());
}

#[test]
fn cpython_fixed_fox_level_6() {
    let z6 = hex_bytes(
        "789c0bc94855282ccd4cce56482aca2fcf5348cbaf50c82acd2d2856c82f4b2d5228014ae72456552aa4e4a7eb29848c2a1e553caa7854f1a8e251c5a38a47150f26c500258c27cc",
    );
    assert_eq!(decompress_zlib(&z6).unwrap(), fox_msg());
}

#[test]
fn cpython_incompressible_data() {
    let zd = hex_bytes(
        "780163d898247ca454ed7a87e5abd93e7fd7c50b1c2c52bed26af67c86e7afd531bcfbf2152e36193f99eaf67d4524d7ee1cd973f5060f27397f591ac6be2353ea748deebd7e878f8b8259b6a6899fa8d4badd63fb6e7e00e3a66491a365ea373aad5ecff1fdb73e41f050b1cad536f31733bd7eaf89e5db5fa078a9d9e4e934f71f2ba3b8f7e4ca9d6f307c34d9e5ebb2708e9d59d2676af5ee4f70fcb43884755bbac4c92aed3bbd76ef1704326d4e113d56ae71b3cbfacd5cbfff1b12850e97a85e6bb77839cbfbcfda38fe03854a975b4c9f4df7f8b92a9a676f9efc8546a3c7535cbf2d8fe0dc952d73b64effc144a7cf4b42d9b667489eaad6b9db67ff616110f39654b1e3159ab7ba6ddecef36718f5ff68fc8fa6ffd1fc3f5afe8d96ffa3f5df68fd3fdafe196dff0d81f62f00a42ed650",
    );
    assert_eq!(decompress_zlib(&zd).unwrap(), data_msg());
}

#[test]
fn malformed_inputs_give_their_errors() {
    // BTYPE 11 is reserved.
    assert_eq!(decompress_raw(&[0x07]).unwrap_err(), InflateError::BadFormat);
    // A stored block whose NLEN is not the complement of LEN.
    assert_eq!(decompress_raw(&[0x01, 0x03, 0x00, 0x00, 0x00]).unwrap_err(), InflateError::BadFormat);
    // A stored block that promises more bytes than there are.
    assert_eq!(
        decompress_raw(&[0x01, 0x03, 0x00, 0xFC, 0xFF, 0x41]).unwrap_err(),
        InflateError::Truncated
    );
    // No bits at all.
    assert_eq!(decompress_raw(&[]).unwrap_err(), InflateError::Truncated);
    // A match reaching before the start of the output: fixed block, length
    // code 257 (7 bits 0000001), distance code 0 (5 bits 00000).
    let mut w = BitWriter::new();
    w.push_lsb(1, 1);
    w.push_lsb(1, 2);
    w.push_huff(0b0000001, 7);
    w.push_huff(0, 5);
    w.push_huff(0, 7);
    assert_eq!(decompress_raw(&w.finish()).unwrap_err(), InflateError::BadFormat);
    // A valid stream under a wrong Adler-32 trailer.
    let mut z = compress_zlib(b"hello");
    let n = z.len();
    z[n - 1] ^= 1;
    assert_eq!(decompress_zlib(&z).unwrap_err(), InflateError::ChecksumMismatch);
}

#[test]
fn adler_and_crc_compose_over_concatenation() {
    let x = b"The quick brown fox ";
    let y = b"jumps over the lazy dog";
    let mut xy = x.to_vec();
    xy.extend_from_slice(y);
    assert_eq!(adler32(adler32_fresh(x), y), adler32_fresh(&xy));
    assert_eq!(crc32(crc32_fresh(x), y), crc32_fresh(&xy));
    assert_eq!(crc32_fresh(&xy), 0x414F_A339);
}

#[test]
fn huffman_lengths_edge_cases() {
    // No symbol in use: all lengths zero.
    assert_eq!(huffman_lengths(&[0, 0, 0], 15).unwrap(), vec![0, 0, 0]);
    // One symbol in use: a one-bit code.
    assert_eq!(huffman_lengths(&[0, 7, 0], 15).unwrap(), vec![0, 1, 0]);
    // Two symbols: one bit each.
    assert_eq!(huffman_lengths(&[3, 0, 9], 15).unwrap(), vec![1, 0, 1]);
    // Skewed frequencies: 1, 2, 4, 8 give depths 3, 3, 2, 1.
    assert_eq!(huffman_lengths(&[1, 2, 4, 8], 15).unwrap(), vec![3, 3, 2, 1]);
    // ...which a cap of 2 refuses.
    assert!(huffman_lengths(&[1, 2, 4, 8], 2).is_none());
}

#[test]
fn huffman_lengths_form_complete_prefix_codes() {
    let freq: Vec<u64> = (0..40u64).map(|i| (i * 7919) % 61 + 1).collect();
    let lens = huffman_lengths(&freq, 15).unwrap();
    let kraft: u64 = lens.iter().map(|&l| 1u64 << (15 - l as u32)).sum();
    assert_eq!(kraft, 1 << 15);
}

#[test]
fn stats_account_for_every_block() {
    let mut data = Vec::new();
    for i in 0..9000u32 {
        data.extend_from_slice(format!("record {i:05}: value {} ", i.wrapping_mul(2654435761) % 997).as_bytes());
    }
    let (raw, st) = compress_raw(&data);
    assert_eq!(decompress_raw(&raw).unwrap(), data);
    assert!(st.n_blocks >= 3);
    assert!(st.n_dynamic > 0 || st.n_fixed > 0);
    assert_eq!(st.n_blocks as usize, st.blocks.len());
    assert_eq!(st.n_stored + st.n_fixed + st.n_dynamic, st.n_blocks);
    let bytes: usize = st.blocks.iter().map(|b| b.n_bytes).sum();
    assert_eq!(bytes, data.len());
    let bits: u64 = st.blocks.iter().map(|b| b.bits as u64).sum();
    assert_eq!(bits, st.deflate_bits);
    let lits: u64 = st.blocks.iter().map(|b| b.n_lit as u64).sum();
    assert_eq!(lits, st.n_lit);
    for (k, b) in st.blocks.iter().enumerate() {
        assert!(b.btype <= 2);
        assert!(b.n_bytes <= MAX_BLOCK);
        assert_eq!(b.n_lit as usize + b.match_bytes as usize, b.n_bytes);
        if b.btype == 0 {
            assert_eq!(b.bits as usize, 35 + 8 * b.n_bytes);
        } else {
            assert!(b.bits as usize <= 24 + 8 * b.n_bytes);
        }
        if k + 1 < st.blocks.len() {
            assert!(b.n_bytes > MAX_BLOCK - 258);
        }
    }
}

/// Deterministic pseudo-random bytes (LCG, fixed seed).
fn rnd(n: usize, seed: u64) -> Vec<u8> {
    let mut x = seed;
    (0..n)
        .map(|_| {
            x = x.wrapping_mul(6364136223846793005).wrapping_add(1442695040888963407);
            ((x >> 33) & 0xFF) as u8
        })
        .collect()
}

#[test]
fn incompressible_input_is_stored() {
    let data = rnd(300, 9);
    let (raw, st) = compress_raw(&data);
    assert_eq!(st.n_blocks, 1);
    assert_eq!(st.blocks[0].btype, 0);
    assert_eq!(st.blocks[0].bits as usize, 35 + 8 * data.len());
    // 3 header bits, 5 padding bits, LEN, NLEN, then the bytes.
    assert_eq!(raw.len(), 5 + data.len());
    assert_eq!(&raw[5..], &data[..]);
    assert_eq!(decompress_raw(&raw).unwrap(), data);
}

#[test]
fn reader_reads_what_the_writer_wrote() {
    let mut w = BitWriter::new();
    w.push_lsb(0x2A, 6);
    w.push_huff(0b1101, 4);
    w.push_lsb(0x1_2345_6789, 40);
    let out = w.finish();
    let mut r = BitReader::new(&out);
    assert_eq!(r.next_lsb(6).unwrap(), 0x2A);
    assert_eq!(r.next_huff(4).unwrap(), 0b1101);
    assert_eq!(r.next_lsb(40).unwrap(), 0x1_2345_6789);
    assert_eq!(r.bits_read(), 50);
}

#[test]
fn debug_log_lines_for_stored_block() {
    let stored = [0x01, 0x03, 0x00, 0xFC, 0xFF, 0x41, 0x42, 0x43];
    let mut log = vec!["earlier".to_string()];
    let back = bitfold::inflate::decompress_raw_debug(&stored, &mut log).unwrap();
    assert_eq!(back, b"ABC");
    assert_eq!(
        log,
        vec![
            "earlier".to_string(),
            "block 0 header: bfinal=1 btype=0 (bit 3)".to_string(),
            "  stored: len=3 nlen=0xfffc (bit 40)".to_string(),
            "  block 0 done: out=3 bytes (bit 64)".to_string(),
        ]
    );
}

#[test]
fn debug_log_keeps_lines_on_error() {
    // BTYPE 11 is reserved: the header line is logged, then the error.
    let mut log = Vec::new();
    let e = bitfold::inflate::decompress_raw_debug(&[0x07], &mut log).unwrap_err();
    assert!(matches!(e, InflateError::BadFormat), "{e:?}");
    assert_eq!(log, vec!["block 0 header: bfinal=1 btype=3 (bit 3)".to_string()]);
}

#[test]
fn huffman_lengths_wide_inputs() {
    // A length cap above the byte range never binds.
    assert_eq!(huffman_lengths(&[1, 2, 3], 1000), Some(vec![2, 2, 1]));
    // An alphabet larger than 2^16 symbols, sparsely used.
    let mut freq = vec![0u64; 70_000];
    freq[3] = 5;
    freq[69_999] = 1;
    freq[40_000] = 1;
    let v = huffman_lengths(&freq, 15).unwrap();
    assert_eq!(v.len(), 70_000);
    assert_eq!((v[3], v[40_000], v[69_999]), (1, 2, 2));
    assert_eq!(v.iter().filter(|&&l| l > 0).count(), 3);
}

#[test]
fn fixed_block_beats_true_stored_cost() {
    // Twenty distinct bytes with 9-bit fixed codes and no match:
    // fixed 3 + 180 + 7 = 190 bits; stored 3 + 5 + 32 + 160 = 200 bits.
    let data: Vec<u8> = (144u8..164).collect();
    let (raw, st) = compress_raw(&data);
    assert_eq!(st.n_blocks, 1);
    assert_eq!(st.blocks[0].btype, 1);
    assert_eq!(st.deflate_bits, 190);
    assert_eq!(raw.len(), 24);
    assert_eq!(decompress_raw(&raw).unwrap(), data);
}

#[test]
fn empty_input_is_one_fixed_block() {
    let (raw, st) = compress_raw(b"");
    assert_eq!(raw, vec![0x03, 0x00]);
    assert_eq!(st.n_blocks, 1);
    assert_eq!(st.n_fixed, 1);
    assert_eq!(st.blocks[0].n_bytes, 0);
    assert_eq!(st.deflate_bits, 10);
}

#[test]
fn stream_length_follows_block_bits() {
    let fox = fox_msg();
    let (raw, st) = compress_raw(&fox);
    assert_eq!(st.n_stored, 0);
    assert_eq!(raw.len() as u64, (st.deflate_bits + 7) / 8);
    let z = compress_zlib(&fox);
    assert_eq!(z.len(), raw.len() + 6);
    assert_eq!(&z[2..z.len() - 4], &raw[..]);
}

#[test]
fn debug_log_has_two_lines_per_block() {
    let data: Vec<u8> = (0u8..200).collect();
    let (raw, st) = compress_raw(&data);
    let mut log: Vec<String> = vec!["earlier".to_string()];
    let back = bitfold::inflate::decompress_raw_debug(&raw, &mut log).unwrap();
    assert_eq!(back, data);
    assert_eq!(log[0], "earlier");
    assert!(log.len() >= 1 + 2 * st.n_blocks as usize);
}

#[test]
fn phrases_use_matches_on_repetitive_input() {
    let fox = fox_msg();
    let ps = bitfold::lzw77::compress(&fox);
    assert!(ps.iter().any(|p| matches!(p, Phrase::Match { .. })));
    assert!(ps.len() < fox.len() / 10);
}
