# bitfold

RFC 1951 DEFLATE with LZ77 matching and canonical Huffman coding, the zlib
container (RFC 1950), and the CRC-32 / Adler-32 hashes, written in Verus with
machine-checked contracts.

## Layout

- `src/` — the verified library.
  - `bits.rs`: LSB-first bit writer and reader over byte streams.
  - `adler.rs`, `crc32.rs`: the container hashes, with their concatenation laws.
  - `huff.rs`: canonical codes, the RFC tables, length/distance codes, run
    coding of code lengths, and the decoding table.
  - `prefix.rs`: Kraft sums and the canonical prefix-decoding lemma.
  - `lzw77.rs`: the chained-hash LZ77 phrase search with lazy matching.
  - `deflate.rs`: Huffman lengths, block planning and the encoder.
  - `inflate.rs`: the decoder, specified by `spec_inflate` / `spec_inflate_zlib`.
  - `roundtrip.rs`: the proofs that every block the encoder writes decodes to
    the bytes it covers.
  - `kats.rs`, `battery.rs`: the known-answer battery (the checks that
    follow from the contracts are proved to pass) and its per-group totals.
  - `entropy.rs`, `corpus.rs`, `text.rs`, `svg.rs`: the integer side of the
    entropy ledger, corpus assembly, decimal/hex text building, and label
    escaping.
- `tests/` — executable tests against the compiled library.
- `app/` — the command-line front end: argument handling and file output,
  the floating-point entropy ledger, the text report and the SVG renders.

The central contracts: `compress_raw` and `compress_zlib` produce streams that
`spec_inflate` / `spec_inflate_zlib` decode back to the input, and
`decompress_raw` / `decompress_zlib` compute exactly those specifications.
