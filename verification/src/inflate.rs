//! The DEFLATE decoder (RFC 1951) and the zlib container (RFC 1950 §2.2).
//!
//! Accepts the full range a compliant decompressor must handle: stored,
//! fixed, and dynamic blocks of arbitrary size; backward distances up to 32768
//! crossing block boundaries; overlapping copies (distance < length). The zlib
//! wrapper is verified (CMF/FLG check bits) and the big-endian Adler-32
//! trailer is checked.
//!
//! The decoder is specified by `spec_inflate`, a definition of the format on
//! the bit stream of the input bytes; every decoding function is proved to
//! compute it.
use vstd::prelude::*;
use vstd::arithmetic::power2::pow2;
use crate::adler::{adler32_fresh, spec_adler32};
use crate::bits::{bytes_bits, lsb_value, msb_value, pad_len, BitReader};
use crate::huff::{
    fixed_lit_lengths, fixed_lit_length, lengths_ok, seq_max, table_lookup, fill, min_nat,
    CodeTable, CODE_LENGTH_ORDER, DIST_BASE, DIST_EXTRA, LEN_BASE, LEN_EXTRA,
};
use crate::lzw77::copy_back;
use crate::text::{dec_chars, hex_chars_min, push_dec, push_hex};
use vstd::string::StringExecFns;

verus! {

/// A decode failure (malformed stream or checksum mismatch).
#[derive(Debug, Clone, Copy, PartialEq, Eq, Structural)]
pub enum InflateError {
    /// The stream ended before the data was complete.
    Truncated,
    /// A field was outside its legal range (LEN/NLEN mismatch, BTYPE 11,
    /// overfull code table, distance past the output start, ...).
    BadFormat,
    /// The Adler-32 trailer (zlib container) did not match.
    ChecksumMismatch,
}

/// The `n`-bit element at bit position `p`, read LSB first (`None` past the
/// end of the stream).
pub open spec fn read_lsb(bits: Seq<bool>, p: nat, n: nat) -> Option<u64> {
    if p + n <= bits.len() {
        Some(lsb_value(bits.subrange(p as int, (p + n) as int)))
    } else {
        None
    }
}

/// Decoding a symbol whose first `l - 1` code bits did not name a symbol:
/// read the `l`-bit prefix at `p0` and look it up.
pub open spec fn sym_scan(bits: Seq<bool>, p0: nat, lens: Seq<u8>, l: nat) -> Result<
    (nat, nat),
    InflateError,
>
    decreases seq_max(lens) + 1 - l,
{
    if l == 0 || l > seq_max(lens) {
        Err(InflateError::BadFormat)
    } else if p0 + l > bits.len() {
        Err(InflateError::Truncated)
    } else {
        match table_lookup(lens, msb_value(bits.subrange(p0 as int, (p0 + l) as int)) as nat, l) {
            Some(s) => Ok((s, p0 + l)),
            None => sym_scan(bits, p0, lens, l + 1),
        }
    }
}

/// Decode one Huffman symbol at `p` with the canonical code of `lens`:
/// `(symbol, position after its code)`.
pub open spec fn decode_sym(bits: Seq<bool>, p: nat, lens: Seq<u8>) -> Result<(nat, nat), InflateError> {
    if seq_max(lens) == 0 {
        Err(InflateError::BadFormat)
    } else {
        sym_scan(bits, p, lens, 1)
    }
}

/// A decoded symbol is a valid index and consumes at least one bit.
pub proof fn lemma_sym_scan(bits: Seq<bool>, p0: nat, lens: Seq<u8>, l: nat)
    ensures
        sym_scan(bits, p0, lens, l) matches Ok((s, p)) ==> p0 < p <= bits.len() && s < lens.len(),
    decreases seq_max(lens) + 1 - l,
{
    if l == 0 || l > seq_max(lens) {
    } else if p0 + l > bits.len() {
    } else {
        let code = msb_value(bits.subrange(p0 as int, (p0 + l) as int)) as nat;
        match table_lookup(lens, code, l) {
            Some(s) => {
                lemma_lookup_index(lens, code, l, lens.len() as int);
            },
            None => {
                lemma_sym_scan(bits, p0, lens, l + 1);
            },
        }
    }
}

proof fn lemma_lookup_index(lens: Seq<u8>, code: nat, len: nat, n: int)
    ensures
        crate::huff::lookup_prefix(lens, code, len, n) matches Some(s) ==> s < n,
    decreases n,
{
    if n > 0 {
        lemma_lookup_index(lens, code, len, n - 1);
    }
}

/// The sum over used codes of `2^(m - length)`.
pub open spec fn kraft_sum(lens: Seq<u8>, m: nat) -> nat
    decreases lens.len(),
{
    if lens.len() == 0 {
        0
    } else {
        kraft_sum(lens.drop_last(), m) + if lens.last() > 0 {
            pow2((m - lens.last()) as nat)
        } else {
            0
        }
    }
}

/// The lengths describe a prefix code that is not overfull (Kraft).
pub open spec fn prefix_ok(lens: Seq<u8>) -> bool {
    kraft_sum(lens, seq_max(lens)) <= pow2(seq_max(lens))
}

/// One step of the symbol loop at `p`: decode a literal/length symbol and,
/// for a length, its extra bits, distance symbol and distance extra bits.
/// Returns whether the step was end-of-block, the new position and the
/// output.
pub open spec fn sym_step(bits: Seq<bool>, p: nat, out: Seq<u8>, lit: Seq<u8>, dist: Seq<u8>) -> Result<
    (bool, nat, Seq<u8>),
    InflateError,
> {
    match decode_sym(bits, p, lit) {
        Err(e) => Err(e),
        Ok((sym, p1)) => {
            if sym < 256 {
                Ok((false, p1, out.push(sym as u8)))
            } else if sym == 256 {
                Ok((true, p1, out))
            } else if sym - 257 > 28 {
                Err(InflateError::BadFormat)
            } else {
                let lc = (sym - 257) as int;
                match read_lsb(bits, p1, LEN_EXTRA[lc] as nat) {
                    None => Err(InflateError::Truncated),
                    Some(e) => {
                        let len = LEN_BASE[lc] + e;
                        let p2: nat = (p1 + LEN_EXTRA[lc]) as nat;
                        match decode_sym(bits, p2, dist) {
                            Err(er) => Err(er),
                            Ok((ds, p3)) => {
                                if ds > 29 {
                                    Err(InflateError::BadFormat)
                                } else {
                                    match read_lsb(bits, p3, DIST_EXTRA[ds as int] as nat) {
                                        None => Err(InflateError::Truncated),
                                        Some(de) => {
                                            let d = DIST_BASE[ds as int] + de;
                                            let p4: nat = (p3 + DIST_EXTRA[ds as int]) as nat;
                                            if d == 0 || d > out.len() {
                                                Err(InflateError::BadFormat)
                                            } else {
                                                Ok((false, p4, copy_back(out, d as nat, len as nat)))
                                            }
                                        },
                                    }
                                }
                            },
                        }
                    },
                }
            }
        },
    }
}

/// A step of the symbol loop consumes at least one bit.
pub proof fn lemma_sym_step_advance(bits: Seq<bool>, p: nat, out: Seq<u8>, lit: Seq<u8>, dist: Seq<u8>)
    ensures
        sym_step(bits, p, out, lit, dist) matches Ok((done, q, o)) ==> p < q,
{
    lemma_sym_scan(bits, p, lit, 1);
    if let Ok((sym, p1)) = decode_sym(bits, p, lit) {
        if sym > 256 && sym - 257 <= 28 {
            let lc = (sym - 257) as int;
            let p2: nat = (p1 + LEN_EXTRA[lc]) as nat;
            lemma_sym_scan(bits, p2, dist, 1);
        }
    }
}

/// The symbol loop of a fixed or dynamic block: steps from `p` until
/// end-of-block. Returns the position after the end-of-block code and the
/// output.
pub open spec fn sym_loop(bits: Seq<bool>, p: nat, out: Seq<u8>, lit: Seq<u8>, dist: Seq<u8>) -> Result<
    (nat, Seq<u8>),
    InflateError,
>
    decreases bits.len() - p,
{
    match sym_step(bits, p, out, lit, dist) {
        Err(e) => Err(e),
        Ok((done, q, o)) => {
            proof {
                lemma_sym_step_advance(bits, p, out, lit, dist);
                lemma_sym_step_in_stream(bits, p, out, lit, dist);
            }
            if done {
                Ok((q, o))
            } else {
                sym_loop(bits, q, o, lit, dist)
            }
        },
    }
}

/// A step of the symbol loop ends inside the stream.
pub proof fn lemma_sym_step_in_stream(bits: Seq<bool>, p: nat, out: Seq<u8>, lit: Seq<u8>, dist: Seq<u8>)
    ensures
        sym_step(bits, p, out, lit, dist) matches Ok((done, q, o)) ==> q <= bits.len(),
{
    lemma_sym_scan(bits, p, lit, 1);
    if let Ok((sym, p1)) = decode_sym(bits, p, lit) {
        if sym > 256 && sym - 257 <= 28 {
            let lc = (sym - 257) as int;
            let p2: nat = (p1 + LEN_EXTRA[lc]) as nat;
            lemma_sym_scan(bits, p2, dist, 1);
        }
    }
}

/// The code-length sequence of a dynamic block: decode symbols with the
/// code-length code `cl` until `total` lengths are known (runs cut at
/// `total`).
pub open spec fn lens_loop(bits: Seq<bool>, p: nat, cl: Seq<u8>, total: nat, acc: Seq<u8>) -> Result<
    (nat, Seq<u8>),
    InflateError,
>
    decreases total - acc.len(),
{
    if acc.len() >= total {
        Ok((p, acc))
    } else {
        match decode_sym(bits, p, cl) {
            Err(e) => Err(e),
            Ok((s, p1)) => {
                if s <= 15 {
                    lens_loop(bits, p1, cl, total, acc.push(s as u8))
                } else if s <= 18 {
                    if s == 16 && acc.len() == 0 {
                        Err(InflateError::BadFormat)
                    } else {
                        let nb: nat = if s == 16 {
                            2
                        } else if s == 17 {
                            3
                        } else {
                            7
                        };
                        match read_lsb(bits, p1, nb) {
                            None => Err(InflateError::Truncated),
                            Some(r) => {
                                let base: nat = if s == 18 {
                                    11
                                } else {
                                    3
                                };
                                let v: u8 = if s == 16 {
                                    acc.last()
                                } else {
                                    0
                                };
                                let k = min_nat((r + base) as nat, (total - acc.len()) as nat);
                                lens_loop(bits, p1 + nb, cl, total, acc + fill(v, k))
                            },
                        }
                    }
                } else {
                    Err(InflateError::BadFormat)
                }
            },
        }
    }
}

/// The 19 code-length code lengths after reading `k` of the `count`
/// transmitted 3-bit entries (in `CODE_LENGTH_ORDER`) into `acc`.
pub open spec fn cl_read(bits: Seq<bool>, p: nat, count: nat, k: nat, acc: Seq<u8>) -> Result<
    (nat, Seq<u8>),
    InflateError,
>
    decreases count - k,
{
    if k >= count || k >= 19 {
        Ok((p, acc))
    } else {
        match read_lsb(bits, p, 3) {
            None => Err(InflateError::Truncated),
            Some(l) => cl_read(
                bits,
                p + 3,
                count,
                k + 1,
                acc.update(CODE_LENGTH_ORDER[k as int] as int, l as u8),
            ),
        }
    }
}

/// A dynamic block (BTYPE 10) whose header starts at `p` (after BFINAL and
/// BTYPE).
pub open spec fn dyn_block(bits: Seq<bool>, p: nat, out: Seq<u8>) -> Result<(nat, Seq<u8>), InflateError> {
    match (read_lsb(bits, p, 5), read_lsb(bits, p + 5, 5), read_lsb(bits, p + 10, 4)) {
        (Some(hlit), Some(hdist), Some(hclen)) => {
            let n_lit = hlit + 257;
            let n_dist = hdist + 1;
            if n_lit > 288 || n_dist > 30 {
                Err(InflateError::BadFormat)
            } else {
                match cl_read(bits, p + 14, (hclen + 4) as nat, 0, Seq::new(19, |i: int| 0u8)) {
                    Err(e) => Err(e),
                    Ok((p1, cl)) => {
                        if !prefix_ok(cl) {
                            Err(InflateError::BadFormat)
                        } else {
                            match lens_loop(bits, p1, cl, (n_lit + n_dist) as nat, Seq::empty()) {
                                Err(e) => Err(e),
                                Ok((p2, lens)) => {
                                    let lit = lens.take(n_lit as int);
                                    let dist = lens.skip(n_lit as int);
                                    if !prefix_ok(lit) || !prefix_ok(dist) {
                                        Err(InflateError::BadFormat)
                                    } else {
                                        sym_loop(bits, p2, out, lit, dist)
                                    }
                                },
                            }
                        }
                    },
                }
            }
        },
        (None, _, _) => Err(InflateError::Truncated),
        (_, None, _) => Err(InflateError::Truncated),
        (_, _, None) => Err(InflateError::Truncated),
    }
}

/// A stored block (BTYPE 00) whose header ends at `p`: skip to the byte
/// boundary, check LEN/NLEN, copy LEN bytes.
pub open spec fn stored_block(data: Seq<u8>, p: nat, out: Seq<u8>) -> Result<(nat, Seq<u8>), InflateError> {
    let bits = bytes_bits(data);
    let q = p + pad_len(p);
    match (read_lsb(bits, q, 16), read_lsb(bits, q + 16, 16)) {
        (Some(len), Some(nlen)) => {
            if len ^ nlen != 0xFFFF {
                Err(InflateError::BadFormat)
            } else {
                let b = (q + 32) / 8;
                if b + len > data.len() {
                    Err(InflateError::Truncated)
                } else {
                    Ok(((q + 32 + 8 * len) as nat, out + data.subrange(b as int, (b + len) as int)))
                }
            }
        },
        (None, _) => Err(InflateError::Truncated),
        (_, None) => Err(InflateError::Truncated),
    }
}

/// The fixed literal/length code lengths as a sequence.
pub open spec fn fixed_lit_seq() -> Seq<u8> {
    Seq::new(288, |i: int| fixed_lit_length(i))
}

/// The fixed distance code lengths as a sequence.
pub open spec fn fixed_dist_seq() -> Seq<u8> {
    Seq::new(30, |i: int| 5u8)
}

/// One block at `p` (BFINAL, BTYPE, body): `(bfinal, position after the
/// block, output)`.
pub open spec fn one_block(data: Seq<u8>, p: nat, out: Seq<u8>) -> Result<(u64, nat, Seq<u8>), InflateError> {
    let bits = bytes_bits(data);
    match (read_lsb(bits, p, 1), read_lsb(bits, p + 1, 2)) {
        (Some(bfinal), Some(btype)) => {
            let body = if btype == 0 {
                stored_block(data, p + 3, out)
            } else if btype == 1 {
                sym_loop(bits, p + 3, out, fixed_lit_seq(), fixed_dist_seq())
            } else if btype == 2 {
                dyn_block(bits, p + 3, out)
            } else {
                Err(InflateError::BadFormat)
            };
            match body {
                Err(e) => Err(e),
                Ok((q, o)) => Ok((bfinal, q, o)),
            }
        },
        (None, _) => Err(InflateError::Truncated),
        (_, None) => Err(InflateError::Truncated),
    }
}

/// Blocks from position `p` until the final one, with `fuel` blocks allowed.
pub open spec fn blocks(data: Seq<u8>, p: nat, out: Seq<u8>, fuel: nat) -> Result<Seq<u8>, InflateError>
    decreases fuel,
{
    if fuel == 0 {
        Err(InflateError::Truncated)
    } else {
        match one_block(data, p, out) {
            Err(e) => Err(e),
            Ok((bfinal, q, o)) => if bfinal == 1 {
                Ok(o)
            } else {
                blocks(data, q, o, (fuel - 1) as nat)
            },
        }
    }
}

/// A raw DEFLATE stream decoded (RFC 1951): the blocks from the first bit
/// until a block with BFINAL set. Every block consumes at least three bits,
/// so `8 * len + 1` blocks are more than any stream holds.
pub open spec fn spec_inflate(data: Seq<u8>) -> Result<Seq<u8>, InflateError> {
    blocks(data, 0, Seq::empty(), 8 * data.len() + 1)
}

/// The decode-log lines of a stored block whose header ends at `p`: its
/// LEN/NLEN line, once both fields are read.
pub open spec fn stored_log(data: Seq<u8>, p: nat) -> Seq<Seq<char>> {
    let bits = bytes_bits(data);
    let q = p + pad_len(p);
    match (read_lsb(bits, q, 16), read_lsb(bits, q + 16, 16)) {
        (Some(len), Some(nlen)) => seq![stored_text(len as nat, nlen as nat, q + 32)],
        _ => seq![],
    }
}

/// The decode-log lines of block `n` at `p`: its header line once BFINAL
/// and BTYPE are read, a stored block's LEN/NLEN line, and a done line when
/// the block decodes.
#[verifier::opaque]
pub open spec fn block_log(data: Seq<u8>, p: nat, out: Seq<u8>, n: nat) -> Seq<Seq<char>> {
    let bits = bytes_bits(data);
    match (read_lsb(bits, p, 1), read_lsb(bits, p + 1, 2)) {
        (Some(bfinal), Some(btype)) => {
            let head = seq![header_text(n, bfinal as nat, btype as nat, p + 3)];
            let mid = if btype == 0 {
                stored_log(data, p + 3)
            } else {
                seq![]
            };
            match one_block(data, p, out) {
                Ok((_, q, o)) => head + mid + seq![done_text(n, o.len(), q)],
                Err(_) => head + mid,
            }
        },
        _ => seq![],
    }
}

/// The decode-log lines of the blocks from block `n` at `p`, with `fuel`
/// blocks allowed (as `blocks` decodes them).
#[verifier::opaque]
pub open spec fn blocks_log(data: Seq<u8>, p: nat, out: Seq<u8>, n: nat, fuel: nat) -> Seq<
    Seq<char>,
>
    decreases fuel,
{
    if fuel == 0 {
        seq![]
    } else {
        let this = block_log(data, p, out, n);
        match one_block(data, p, out) {
            Ok((bfinal, q, o)) => if bfinal == 1 {
                this
            } else {
                this + blocks_log(data, q, o, n + 1, (fuel - 1) as nat)
            },
            Err(_) => this,
        }
    }
}

/// The decode log of a raw DEFLATE stream: the lines of every block the
/// decoder reads, up to the final block or the first error.
pub open spec fn spec_inflate_log(data: Seq<u8>) -> Seq<Seq<char>> {
    blocks_log(data, 0, Seq::empty(), 0, 8 * data.len() + 1)
}

/// The number of blocks the decoder reads successfully from `p`, up to the
/// final block or the first error, with `fuel` blocks allowed.
pub open spec fn blocks_read(data: Seq<u8>, p: nat, out: Seq<u8>, fuel: nat) -> nat
    decreases fuel,
{
    if fuel == 0 {
        0
    } else {
        match one_block(data, p, out) {
            Ok((bfinal, q, o)) => if bfinal == 1 {
                1
            } else {
                1 + blocks_read(data, q, o, (fuel - 1) as nat)
            },
            Err(_) => 0,
        }
    }
}

/// The number of blocks of a raw DEFLATE stream the decoder reads.
pub open spec fn spec_blocks_read(data: Seq<u8>) -> nat {
    blocks_read(data, 0, Seq::empty(), 8 * data.len() + 1)
}

proof fn lemma_blocks_log_len(data: Seq<u8>, p: nat, out: Seq<u8>, n: nat, fuel: nat)
    ensures
        blocks_log(data, p, out, n, fuel).len() >= 2 * blocks_read(data, p, out, fuel),
    decreases fuel,
{
    reveal(blocks_log);
    reveal(block_log);
    if fuel > 0 {
        if let Ok((bfinal, q, o)) = one_block(data, p, out) {
            if bfinal != 1 {
                lemma_blocks_log_len(data, q, o, n + 1, (fuel - 1) as nat);
            }
        }
    }
}

/// The decode log holds at least two lines (a header line and a done line)
/// for every block the decoder reads.
pub proof fn law_log_lines_per_block(data: Seq<u8>)
    ensures
        spec_inflate_log(data).len() >= 2 * spec_blocks_read(data),
{
    lemma_blocks_log_len(data, 0, Seq::empty(), 0, 8 * data.len() + 1);
}

/// The fixed distance code lengths (30 entries of 5).
fn fixed_dist_lengths() -> (a: Vec<u8>)
    ensures
        a@ == fixed_dist_seq(),
{
    let mut a: Vec<u8> = Vec::new();
    let mut i: usize = 0;
    while i < 30
        invariant
            i <= 30,
            a@ == Seq::new(i as nat, |j: int| 5u8),
        decreases 30 - i,
    {
        a.push(5);
        i = i + 1;
        proof {
            assert(a@ =~= Seq::new(i as nat, |j: int| 5u8));
        }
    }
    a
}

/// The fixed literal/length table (RFC §3.2.6).
fn fixed_lit() -> (t: CodeTable)
    ensures
        t.wf(),
        t.lens() == fixed_lit_seq(),
{
    let l = fixed_lit_lengths();
    proof {
        assert(l@ =~= fixed_lit_seq());
        crate::prefix::lemma_fixed_prefix_ok();
    }
    CodeTable::build(l.as_slice())
}

/// The fixed distance table (RFC §3.2.6).
fn fixed_dist() -> (t: CodeTable)
    ensures
        t.wf(),
        t.lens() == fixed_dist_seq(),
{
    let l = fixed_dist_lengths();
    proof {
        crate::prefix::lemma_fixed_prefix_ok();
    }
    CodeTable::build(l.as_slice())
}

/// Read an `n`-bit element LSB first; running out of bits is `Truncated`.
fn read_bits(r: &mut BitReader, n: u32) -> (res: Result<u64, InflateError>)
    requires
        old(r).wf(),
        n <= 64,
    ensures
        final(r).wf(),
        final(r).data() == old(r).data(),
        final(r).pos() >= old(r).pos(),
        match res {
            Ok(v) => read_lsb(old(r).stream(), old(r).pos(), n as nat) == Some(v) && final(r).pos()
                == old(r).pos() + n,
            Err(e) => read_lsb(old(r).stream(), old(r).pos(), n as nat) is None && e
                == InflateError::Truncated,
        },
{
    proof {
        old(r).lemma_pos();
    }
    match r.next_lsb(n) {
        Ok(v) => Ok(v),
        Err(_) => Err(InflateError::Truncated),
    }
}

proof fn lemma_msb_one(s: Seq<bool>)
    requires
        s.len() == 1,
    ensures
        msb_value(s) == (if s[0] {
            1u32
        } else {
            0u32
        }),
{
    assert(s.drop_last().len() == 0);
    assert(msb_value(s.drop_last()) == 0);
    assert((0u32 << 1u32) | 1u32 == 1u32 && (0u32 << 1u32) | 0u32 == 0u32) by (bit_vector);
}

/// Decode a Huffman symbol: consume bits one at a time, walking the code
/// lengths until a match is found (at most `max_len` bits).
fn decode_symbol(r: &mut BitReader, table: &CodeTable) -> (res: Result<usize, InflateError>)
    requires
        old(r).wf(),
        table.wf(),
    ensures
        final(r).wf(),
        final(r).data() == old(r).data(),
        final(r).pos() >= old(r).pos(),
        match res {
            Ok(s) => decode_sym(old(r).stream(), old(r).pos(), table.lens()) == Ok::<
                (nat, nat),
                InflateError,
            >((s as nat, final(r).pos())),
            Err(e) => decode_sym(old(r).stream(), old(r).pos(), table.lens()) == Err::<
                (nat, nat),
                InflateError,
            >(e),
        },
{
    let ghost s = old(r).stream();
    let ghost p0 = old(r).pos();
    let ghost lens = table.lens();
    let max_len = table.max_length();
    if max_len == 0 {
        return Err(InflateError::BadFormat);
    }
    let mut code: u32 = 0;
    let mut len: u32 = 1;
    proof {
        r.lemma_pos();
        assert(s.subrange(p0 as int, p0 as int) =~= Seq::<bool>::empty());
    }
    while len <= max_len
        invariant
            r.wf(),
            r.data() == old(r).data(),
            s == r.stream(),
            table.wf(),
            lens == table.lens(),
            max_len == seq_max(lens),
            max_len <= 15,
            1 <= len <= max_len + 1,
            r.pos() == p0 + len - 1,
            p0 + len - 1 <= s.len(),
            p0 == old(r).pos(),
            code == msb_value(s.subrange(p0 as int, p0 + len - 1)),
            sym_scan(s, p0, lens, len as nat) == decode_sym(s, p0, lens),
        decreases max_len + 1 - len,
    {
        let ghost before = r.pos();
        let bit = match r.next_huff(1) {
            Ok(b) => b,
            Err(_) => {
                return Err(InflateError::Truncated);
            },
        };
        proof {
            lemma_msb_one(s.subrange(before as int, (before + 1) as int));
            let sub = s.subrange(p0 as int, p0 + len);
            assert(sub.drop_last() =~= s.subrange(p0 as int, p0 + len - 1));
            assert(sub.last() == s[before as int]);
            assert(bit == (if s[before as int] { 1u32 } else { 0u32 }));
        }
        code = (code << 1) | bit;
        match table.decode(code, len) {
            Some(sym) => {
                return Ok(sym);
            },
            None => {},
        }
        len = len + 1;
    }
    Err(InflateError::BadFormat)
}

/// Kraft check: the sum of 2^(max_len - l) over used codes must not exceed
/// 2^max_len (an overfull code is not decodable; underfull is legal).
pub(crate) fn check_prefix(lengths: &[u8]) -> (res: Result<(), InflateError>)
    requires
        lengths_ok(lengths@),
    ensures
        res is Ok <==> prefix_ok(lengths@),
        res matches Err(e) ==> e == InflateError::BadFormat,
{
    let n = lengths.len();
    let mut m: u32 = 0;
    let mut i: usize = 0;
    while i < n
        invariant
            n == lengths@.len(),
            i <= n,
            m == seq_max(lengths@.take(i as int)),
            lengths_ok(lengths@),
        decreases n - i,
    {
        proof {
            assert(lengths@.take(i + 1).drop_last() =~= lengths@.take(i as int));
        }
        if lengths[i] as u32 > m {
            m = lengths[i] as u32;
        }
        i = i + 1;
    }
    proof {
        assert(lengths@.take(n as int) =~= lengths@);
        crate::huff::lemma_seq_max_bound(lengths@);
        vstd::arithmetic::power2::lemma2_to64();
    }
    let mut sum: u64 = 0;
    let mut i: usize = 0;
    while i < n
        invariant
            n == lengths@.len(),
            i <= n,
            m == seq_max(lengths@),
            m <= 15,
            lengths_ok(lengths@),
            sum == kraft_sum(lengths@.take(i as int), m as nat),
            sum <= i * 32768,
        decreases n - i,
    {
        let l = lengths[i];
        proof {
            assert(lengths@.take(i + 1).drop_last() =~= lengths@.take(i as int));
            lemma_seq_max_ge(lengths@, i as int);
        }
        if l > 0 {
            let k: u64 = (m - l as u32) as u64;
            proof {
                vstd::arithmetic::power2::lemma2_to64();
                vstd::arithmetic::power2::lemma_pow2_pos(k as nat);
                if k < 15 {
                    vstd::arithmetic::power2::lemma_pow2_strictly_increases(k as nat, 15);
                }
                vstd::bits::lemma_u64_shl_is_mul(1, k);
            }
            sum = sum + (1u64 << k);
        }
        i = i + 1;
    }
    proof {
        assert(lengths@.take(n as int) =~= lengths@);
        vstd::bits::lemma_u64_shl_is_mul(1, m as u64);
    }
    if sum > (1u64 << (m as u64)) {
        return Err(InflateError::BadFormat);
    }
    Ok(())
}

/// No length exceeds the longest.
pub proof fn lemma_seq_max_ge(lens: Seq<u8>, i: int)
    requires
        0 <= i < lens.len(),
    ensures
        lens[i] <= seq_max(lens),
    decreases lens.len(),
{
    if i < lens.len() - 1 {
        lemma_seq_max_ge(lens.drop_last(), i);
    }
}

/// The bound on an element read with `read_lsb`.
proof fn lemma_read_bound(bits: Seq<bool>, p: nat, n: nat)
    requires
        n <= 64,
    ensures
        read_lsb(bits, p, n) matches Some(v) ==> (v as nat) < pow2(n),
{
    if p + n <= bits.len() {
        crate::bits::lemma_lsb_value_bound(bits.subrange(p as int, (p + n) as int));
    }
}

/// Decode the 19-symbol code-length table from the 3-bit lengths. Only the
/// first `hclen + 4` entries of `CODE_LENGTH_ORDER` are transmitted (the rest
/// are zero). The table must not be overfull; underfull is legal.
#[verifier::spinoff_prover]
fn code_length_table(r: &mut BitReader, hclen: usize) -> (res: Result<CodeTable, InflateError>)
    requires
        old(r).wf(),
        hclen <= 15,
    ensures
        final(r).wf(),
        final(r).data() == old(r).data(),
        final(r).pos() >= old(r).pos(),
        match res {
            Ok(t) => {
                &&& t.wf()
                &&& prefix_ok(t.lens())
                &&& cl_read(old(r).stream(), old(r).pos(), (hclen + 4) as nat, 0, Seq::new(19, |i: int| 0u8))
                    == Ok::<(nat, Seq<u8>), InflateError>((final(r).pos(), t.lens()))
            },
            Err(e) => match cl_read(
                old(r).stream(),
                old(r).pos(),
                (hclen + 4) as nat,
                0,
                Seq::new(19, |i: int| 0u8),
            ) {
                Err(e2) => e == e2,
                Ok((_, cl)) => !prefix_ok(cl) && e == InflateError::BadFormat,
            },
        },
{
    let ghost s = old(r).stream();
    let ghost p0 = old(r).pos();
    let count = hclen + 4;
    if count > 19 {
        return Err(InflateError::BadFormat);
    }
    let mut len: Vec<u8> = Vec::new();
    let mut z: usize = 0;
    while z < 19
        invariant
            z <= 19,
            len@ == Seq::new(z as nat, |i: int| 0u8),
        decreases 19 - z,
    {
        len.push(0);
        z = z + 1;
        proof {
            assert(len@ =~= Seq::new(z as nat, |i: int| 0u8));
        }
    }
    let mut k: usize = 0;
    while k < count
        invariant
            r.wf(),
            r.data() == old(r).data(),
            s == r.stream(),
            s == old(r).stream(),
            p0 == old(r).pos(),
            r.pos() >= p0,
            count == hclen + 4,
            count <= 19,
            k <= count,
            len@.len() == 19,
            forall|i: int| 0 <= i < 19 ==> #[trigger] len@[i] <= 7,
            cl_read(s, r.pos(), count as nat, k as nat, len@) == cl_read(
                s,
                p0,
                count as nat,
                0,
                Seq::new(19, |i: int| 0u8),
            ),
        decreases count - k,
    {
        let ghost pos = r.pos();
        let l = match read_bits(r, 3) {
            Ok(v) => v,
            Err(e) => {
                return Err(e);
            },
        };
        proof {
            lemma_read_bound(s, pos, 3);
            vstd::arithmetic::power2::lemma2_to64();
            crate::huff::lemma_order_bound(k as int);
        }
        let idx = CODE_LENGTH_ORDER[k] as usize;
        len.set(idx, l as u8);
        k = k + 1;
    }
    proof {
        assert(lengths_ok(len@));
    }
    match check_prefix(len.as_slice()) {
        Ok(()) => {},
        Err(e) => {
            return Err(e);
        },
    }
    Ok(CodeTable::build(len.as_slice()))
}

/// One step of the symbol loop: decode a literal (appended), the end-of-block
/// code (`Ok(true)`), or a length/distance pair (copied).
fn symbol_step(
    r: &mut BitReader,
    out: &mut Vec<u8>,
    lit_table: &CodeTable,
    dist_table: &CodeTable,
) -> (res: Result<bool, InflateError>)
    requires
        old(r).wf(),
        lit_table.wf(),
        dist_table.wf(),
    ensures
        final(r).wf(),
        final(r).data() == old(r).data(),
        final(r).pos() >= old(r).pos(),
        match res {
            Ok(done) => sym_step(
                old(r).stream(),
                old(r).pos(),
                old(out)@,
                lit_table.lens(),
                dist_table.lens(),
            ) == Ok::<(bool, nat, Seq<u8>), InflateError>((done, final(r).pos(), final(out)@)),
            Err(e) => sym_step(
                old(r).stream(),
                old(r).pos(),
                old(out)@,
                lit_table.lens(),
                dist_table.lens(),
            ) == Err::<(bool, nat, Seq<u8>), InflateError>(e),
        },
{
    let ghost s = old(r).stream();
    let ghost lit = lit_table.lens();
    let ghost dist = dist_table.lens();
    let ghost pos = r.pos();
    proof {
        r.lemma_pos();
    }
    let sym = match decode_symbol(r, lit_table) {
        Ok(x) => x,
        Err(e) => {
            return Err(e);
        },
    };
    proof {
        lemma_sym_scan(s, pos, lit, 1);
        lit_table.lemma_wf();
    }
    if sym < 256 {
        out.push(sym as u8);
        return Ok(false);
    } else if sym == 256 {
        return Ok(true);
    }
    let lc = sym - 257;
    if lc > 28 {
        return Err(InflateError::BadFormat);
    }
    let ghost p1 = r.pos();
    let extra = match read_bits(r, LEN_EXTRA[lc]) {
        Ok(v) => v,
        Err(e) => {
            return Err(e);
        },
    };
    proof {
        crate::huff::lemma_len_extra_bound(lc as int);
        lemma_read_bound(s, p1, LEN_EXTRA[lc as int] as nat);
        vstd::arithmetic::power2::lemma2_to64();
        if LEN_EXTRA[lc as int] < 5 {
            vstd::arithmetic::power2::lemma_pow2_strictly_increases(LEN_EXTRA[lc as int] as nat, 5);
        }
    }
    let len = LEN_BASE[lc] + extra as u32;
    let ghost p2 = r.pos();
    let dsym = match decode_symbol(r, dist_table) {
        Ok(x) => x,
        Err(e) => {
            return Err(e);
        },
    };
    if dsym > 29 {
        return Err(InflateError::BadFormat);
    }
    let ghost p3 = r.pos();
    let dextra = match read_bits(r, DIST_EXTRA[dsym]) {
        Ok(v) => v,
        Err(e) => {
            return Err(e);
        },
    };
    proof {
        crate::huff::lemma_dist_extra_bound(dsym as int);
        lemma_read_bound(s, p3, DIST_EXTRA[dsym as int] as nat);
        vstd::arithmetic::power2::lemma2_to64();
        if DIST_EXTRA[dsym as int] < 13 {
            vstd::arithmetic::power2::lemma_pow2_strictly_increases(
                DIST_EXTRA[dsym as int] as nat,
                13,
            );
        }
    }
    let d = DIST_BASE[dsym] + dextra as u32;
    let dist_bytes = d as usize;
    if dist_bytes == 0 || dist_bytes > out.len() {
        return Err(InflateError::BadFormat);
    }
    let ghost start = out@;
    let mut k: u32 = 0;
    while k < len
        invariant
            k <= len,
            1 <= dist_bytes <= start.len(),
            out@ == copy_back(start, dist_bytes as nat, k as nat),
        decreases len - k,
    {
        proof {
            crate::lzw77::lemma_copy_back_len(start, dist_bytes as nat, k as nat);
        }
        let b = out[out.len() - dist_bytes];
        out.push(b);
        k = k + 1;
    }
    Ok(false)
}

/// The shared symbol loop (fixed and dynamic blocks share it): decode until
/// end-of-block, appending to `out`.
#[verifier::spinoff_prover]
fn run_symbol_loop(
    r: &mut BitReader,
    out: &mut Vec<u8>,
    lit_table: &CodeTable,
    dist_table: &CodeTable,
) -> (res: Result<bool, InflateError>)
    requires
        old(r).wf(),
        lit_table.wf(),
        dist_table.wf(),
    ensures
        final(r).wf(),
        final(r).data() == old(r).data(),
        final(r).pos() >= old(r).pos(),
        match res {
            Ok(b) => b && sym_loop(
                old(r).stream(),
                old(r).pos(),
                old(out)@,
                lit_table.lens(),
                dist_table.lens(),
            ) == Ok::<(nat, Seq<u8>), InflateError>((final(r).pos(), final(out)@)),
            Err(e) => sym_loop(
                old(r).stream(),
                old(r).pos(),
                old(out)@,
                lit_table.lens(),
                dist_table.lens(),
            ) == Err::<(nat, Seq<u8>), InflateError>(e),
        },
{
    let ghost s = old(r).stream();
    let ghost p0 = old(r).pos();
    let ghost lit = lit_table.lens();
    let ghost dist = dist_table.lens();
    let ghost goal = sym_loop(s, p0, old(out)@, lit, dist);
    loop
        invariant
            r.wf(),
            r.data() == old(r).data(),
            s == r.stream(),
            p0 == old(r).pos(),
            r.pos() >= p0,
            lit_table.wf(),
            dist_table.wf(),
            lit == lit_table.lens(),
            dist == dist_table.lens(),
            goal == sym_loop(s, p0, old(out)@, lit, dist),
            sym_loop(s, r.pos(), out@, lit, dist) == goal,
        decreases s.len() - r.pos(),
    {
        proof {
            r.lemma_pos();
            lemma_sym_step_advance(s, r.pos(), out@, lit, dist);
            lemma_sym_step_in_stream(s, r.pos(), out@, lit, dist);
        }
        match symbol_step(r, out, lit_table, dist_table) {
            Ok(done) => {
                if done {
                    return Ok(true);
                }
            },
            Err(e) => {
                return Err(e);
            },
        }
    }
}

/// Decode a stored block (BTYPE 00) whose header has been read: skip to the
/// byte boundary, check LEN/NLEN, copy LEN bytes.
fn run_stored_block(
    r: &mut BitReader,
    out: &mut Vec<u8>,
    log: &mut Vec<String>,
    keep: bool,
) -> (res: Result<(), InflateError>)
    requires
        old(r).wf(),
    ensures
        final(log)@.len() >= old(log)@.len(),
        final(log)@.take(old(log)@.len() as int) == old(log)@,
        line_views(final(log)@) == line_views(old(log)@) + if keep {
            stored_log(old(r).data(), old(r).pos())
        } else {
            Seq::<Seq<char>>::empty()
        },
        final(r).wf(),
        final(r).data() == old(r).data(),
        final(r).pos() >= old(r).pos(),
        match res {
            Ok(()) => stored_block(old(r).data(), old(r).pos(), old(out)@) == Ok::<
                (nat, Seq<u8>),
                InflateError,
            >((final(r).pos(), final(out)@)),
            Err(e) => stored_block(old(r).data(), old(r).pos(), old(out)@) == Err::<
                (nat, Seq<u8>),
                InflateError,
            >(e),
        },
{
    proof {
        assert(line_views(old(log)@) + Seq::<Seq<char>>::empty() =~= line_views(old(log)@));
    }
    r.align_to_byte();
    let len = match read_bits(r, 16) {
        Ok(v) => v,
        Err(e) => {
            return Err(e);
        },
    };
    let nlen = match read_bits(r, 16) {
        Ok(v) => v,
        Err(e) => {
            return Err(e);
        },
    };
    if keep {
        let line = stored_line(len, nlen, r.bits_read());
        log.push(line);
        proof {
            assert(log@.take(old(log)@.len() as int) =~= old(log)@);
            lemma_views_push(old(log)@, line);
        }
    }
    if len ^ nlen != 0xFFFF {
        return Err(InflateError::BadFormat);
    }
    proof {
        r.lemma_pos();
        vstd::arithmetic::power2::lemma2_to64();
        lemma_read_bound(old(r).stream(), old(r).pos() + pad_len(old(r).pos()), 16);
    }
    let n = len as usize;
    if r.byte_offset() + n > r.data_len() {
        return Err(InflateError::Truncated);
    }
    let w = r.window();
    let ghost start = out@;
    let mut j: usize = 0;
    while j < n
        invariant
            j <= n,
            n <= w@.len(),
            out@ == start + w@.subrange(0, j as int),
        decreases n - j,
    {
        out.push(w[j]);
        j = j + 1;
        proof {
            assert(out@ =~= start + w@.subrange(0, j as int));
        }
    }
    proof {
        assert(w@.subrange(0, n as int) =~= r.data().subrange(
            (r.pos() / 8) as int,
            (r.pos() / 8 + n) as int,
        ));
    }
    r.skip_bytes(n);
    Ok(())
}

/// Decode the run-coded code-length sequence of a dynamic block (`total`
/// lengths; 16/17/18 runs are cut at `total`).
#[verifier::spinoff_prover]
fn read_code_lengths(r: &mut BitReader, cl_table: &CodeTable, total: usize) -> (res: Result<
    Vec<u8>,
    InflateError,
>)
    requires
        old(r).wf(),
        cl_table.wf(),
        total <= 318,
    ensures
        final(r).wf(),
        final(r).data() == old(r).data(),
        final(r).pos() >= old(r).pos(),
        match res {
            Ok(v) => {
                &&& lens_loop(old(r).stream(), old(r).pos(), cl_table.lens(), total as nat, Seq::empty())
                    == Ok::<(nat, Seq<u8>), InflateError>((final(r).pos(), v@))
                &&& v@.len() == total
                &&& forall|i: int| 0 <= i < v@.len() ==> #[trigger] v@[i] <= 15
            },
            Err(e) => lens_loop(old(r).stream(), old(r).pos(), cl_table.lens(), total as nat, Seq::empty())
                == Err::<(nat, Seq<u8>), InflateError>(e),
        },
{
    let ghost s = old(r).stream();
    let ghost p0 = old(r).pos();
    let ghost cl = cl_table.lens();
    let ghost goal = lens_loop(s, p0, cl, total as nat, Seq::empty());
    let mut lens: Vec<u8> = Vec::new();
    while lens.len() < total
        invariant
            r.wf(),
            r.data() == old(r).data(),
            s == r.stream(),
            p0 == old(r).pos(),
            r.pos() >= p0,
            cl_table.wf(),
            cl == cl_table.lens(),
            goal == lens_loop(s, p0, cl, total as nat, Seq::empty()),
            lens@.len() <= total,
            total <= 318,
            forall|i: int| 0 <= i < lens@.len() ==> #[trigger] lens@[i] <= 15,
            lens_loop(s, r.pos(), cl, total as nat, lens@) == goal,
        decreases total - lens@.len(),
    {
        let ghost pos = r.pos();
        proof {
            r.lemma_pos();
        }
        let sym = match decode_symbol(r, cl_table) {
            Ok(x) => x,
            Err(e) => {
                return Err(e);
            },
        };
        if sym <= 15 {
            lens.push(sym as u8);
        } else if sym <= 18 {
            if sym == 16 && lens.len() == 0 {
                return Err(InflateError::BadFormat);
            }
            let nb: u32 = if sym == 16 {
                2
            } else if sym == 17 {
                3
            } else {
                7
            };
            let ghost p1 = r.pos();
            let bits = match read_bits(r, nb) {
                Ok(v) => v,
                Err(e) => {
                    return Err(e);
                },
            };
            proof {
                lemma_read_bound(s, p1, nb as nat);
                vstd::arithmetic::power2::lemma2_to64();
            }
            let base: usize = if sym == 18 {
                11
            } else {
                3
            };
            let rep = bits as usize + base;
            let v: u8 = if sym == 16 {
                lens[lens.len() - 1]
            } else {
                0
            };
            let ghost before = lens@;
            let ghost room = (total - before.len()) as nat;
            let mut t: usize = 0;
            while t < rep
                invariant
                    t <= rep,
                    before.len() <= total,
                    room == total - before.len(),
                    lens@ == before + fill(v, min_nat(t as nat, room)),
                    v <= 15,
                    forall|i: int| 0 <= i < before.len() ==> #[trigger] before[i] <= 15,
                decreases rep - t,
            {
                if lens.len() < total {
                    lens.push(v);
                }
                t = t + 1;
                proof {
                    assert(lens@ =~= before + fill(v, min_nat(t as nat, room)));
                }
            }
            proof {
                assert forall|i: int| 0 <= i < lens@.len() implies #[trigger] lens@[i] <= 15 by {
                    if i >= before.len() {
                        assert(lens@[i] == v);
                    }
                }
            }
        } else {
            return Err(InflateError::BadFormat);
        }
    }
    Ok(lens)
}

/// Decode one dynamic block (BTYPE 10): the HLIT/HDIST/HCLEN header, the
/// code-length code, the code lengths, and the symbol loop.
#[verifier::spinoff_prover]
fn run_dynamic_block(r: &mut BitReader, out: &mut Vec<u8>) -> (res: Result<(), InflateError>)
    requires
        old(r).wf(),
    ensures
        final(r).wf(),
        final(r).data() == old(r).data(),
        final(r).pos() >= old(r).pos(),
        match res {
            Ok(()) => dyn_block(old(r).stream(), old(r).pos(), old(out)@) == Ok::<
                (nat, Seq<u8>),
                InflateError,
            >((final(r).pos(), final(out)@)),
            Err(e) => dyn_block(old(r).stream(), old(r).pos(), old(out)@) == Err::<
                (nat, Seq<u8>),
                InflateError,
            >(e),
        },
{
    let ghost s = old(r).stream();
    let ghost p0 = old(r).pos();
    let hlit = match read_bits(r, 5) {
        Ok(v) => v,
        Err(e) => {
            return Err(e);
        },
    };
    let hdist = match read_bits(r, 5) {
        Ok(v) => v,
        Err(e) => {
            return Err(e);
        },
    };
    let hclen = match read_bits(r, 4) {
        Ok(v) => v,
        Err(e) => {
            return Err(e);
        },
    };
    proof {
        vstd::arithmetic::power2::lemma2_to64();
        lemma_read_bound(s, p0, 5);
        lemma_read_bound(s, p0 + 5, 5);
        lemma_read_bound(s, p0 + 10, 4);
    }
    let n_lit = hlit as usize + 257;
    let n_dist = hdist as usize + 1;
    let n_clen = hclen as usize + 4;
    if n_lit > 288 || n_dist > 30 || n_clen > 19 {
        return Err(InflateError::BadFormat);
    }
    let cl_table = match code_length_table(r, hclen as usize) {
        Ok(t) => t,
        Err(e) => {
            return Err(e);
        },
    };
    let total = n_lit + n_dist;
    let lens = match read_code_lengths(r, &cl_table, total) {
        Ok(v) => v,
        Err(e) => {
            return Err(e);
        },
    };
    let lit_len = vstd::slice::slice_to_vec(vstd::slice::slice_subrange(lens.as_slice(), 0, n_lit));
    let dist_len = vstd::slice::slice_to_vec(
        vstd::slice::slice_subrange(lens.as_slice(), n_lit, total),
    );
    proof {
        assert(lit_len@ =~= lens@.take(n_lit as int));
        assert(dist_len@ =~= lens@.skip(n_lit as int));
        assert(lengths_ok(lit_len@));
        assert(lengths_ok(dist_len@));
    }
    match check_prefix(lit_len.as_slice()) {
        Ok(()) => {},
        Err(e) => {
            return Err(e);
        },
    }
    match check_prefix(dist_len.as_slice()) {
        Ok(()) => {},
        Err(e) => {
            return Err(e);
        },
    }
    let lit_table = CodeTable::build(lit_len.as_slice());
    let dist_table = CodeTable::build(dist_len.as_slice());
    match run_symbol_loop(r, out, &lit_table, &dist_table) {
        Ok(_) => {},
        Err(e) => {
            return Err(e);
        },
    }
    Ok(())
}

proof fn lemma_log_prefix_trans(a: Seq<String>, b: Seq<String>, c: Seq<String>)
    requires
        a.len() <= b.len(),
        b.take(a.len() as int) == a,
        b.len() <= c.len(),
        c.take(b.len() as int) == b,
    ensures
        c.take(a.len() as int) == a,
{
    assert(c.take(a.len() as int) =~= b.take(a.len() as int));
}

/// The views of a list of log lines.
pub open spec fn line_views(ls: Seq<String>) -> Seq<Seq<char>> {
    ls.map_values(|l: String| l@)
}

/// The decode-log line for the header of block `n`, read up to bit `bit`.
pub open spec fn header_text(n: nat, bfinal: nat, btype: nat, bit: nat) -> Seq<char> {
    "block "@ + dec_chars(n) + " header: bfinal="@ + dec_chars(bfinal) + " btype="@ + dec_chars(
        btype,
    ) + " (bit "@ + dec_chars(bit) + ")"@
}

/// The decode-log line for the LEN/NLEN fields of a stored block.
pub open spec fn stored_text(len: nat, nlen: nat, bit: nat) -> Seq<char> {
    "  stored: len="@ + dec_chars(len) + " nlen=0x"@ + hex_chars_min(nlen) + " (bit "@ + dec_chars(
        bit,
    ) + ")"@
}

/// The decode-log line for a finished block `n`.
pub open spec fn done_text(n: nat, out_len: nat, bit: nat) -> Seq<char> {
    "  block "@ + dec_chars(n) + " done: out="@ + dec_chars(out_len) + " bytes (bit "@ + dec_chars(
        bit,
    ) + ")"@
}

proof fn lemma_views_push(ls: Seq<String>, l: String)
    ensures
        line_views(ls.push(l)) == line_views(ls) + seq![l@],
{
    assert(line_views(ls.push(l)) =~= line_views(ls) + seq![l@]);
}

/// The block-header line of the decode log.
fn header_line(block_no: u64, bfinal: u64, btype: u64, bit: usize) -> (r: String)
    ensures
        r@ == header_text(block_no as nat, bfinal as nat, btype as nat, bit as nat),
{
    let mut s = String::from_str("block ");
    push_dec(&mut s, block_no);
    s.append(" header: bfinal=");
    push_dec(&mut s, bfinal);
    s.append(" btype=");
    push_dec(&mut s, btype);
    s.append(" (bit ");
    push_dec(&mut s, bit as u64);
    s.append(")");
    s
}

/// The stored-block line of the decode log.
fn stored_line(len: u64, nlen: u64, bit: usize) -> (r: String)
    ensures
        r@ == stored_text(len as nat, nlen as nat, bit as nat),
{
    let mut s = String::from_str("  stored: len=");
    push_dec(&mut s, len);
    s.append(" nlen=0x");
    push_hex(&mut s, nlen);
    s.append(" (bit ");
    push_dec(&mut s, bit as u64);
    s.append(")");
    s
}

/// The block-done line of the decode log.
fn done_line(block_no: u64, out_len: usize, bit: usize) -> (r: String)
    ensures
        r@ == done_text(block_no as nat, out_len as nat, bit as nat),
{
    let mut s = String::from_str("  block ");
    push_dec(&mut s, block_no);
    s.append(" done: out=");
    push_dec(&mut s, out_len as u64);
    s.append(" bytes (bit ");
    push_dec(&mut s, bit as u64);
    s.append(")");
    s
}

/// Decode one block at the reader's position (header, then body), writing
/// its output to `out` and, when `keep` is set, its log lines to `log`;
/// returns the block's BFINAL bit.
#[verifier::spinoff_prover]
fn decode_block(
    r: &mut BitReader,
    out: &mut Vec<u8>,
    log: &mut Vec<String>,
    keep: bool,
    block_no: u64,
) -> (res: Result<u64, InflateError>)
    requires
        old(r).wf(),
    ensures
        final(r).wf(),
        final(r).data() == old(r).data(),
        final(log)@.len() >= old(log)@.len(),
        final(log)@.take(old(log)@.len() as int) == old(log)@,
        line_views(final(log)@) == line_views(old(log)@) + if keep {
            block_log(old(r).data(), old(r).pos(), old(out)@, block_no as nat)
        } else {
            Seq::<Seq<char>>::empty()
        },
        match res {
            Ok(bfinal) => final(r).pos() >= old(r).pos() + 3 && one_block(
                old(r).data(),
                old(r).pos(),
                old(out)@,
            ) == Ok::<(u64, nat, Seq<u8>), InflateError>((bfinal, final(r).pos(), final(out)@)),
            Err(e) => one_block(old(r).data(), old(r).pos(), old(out)@) == Err::<
                (u64, nat, Seq<u8>),
                InflateError,
            >(e),
        },
{
    proof {
        reveal(block_log);
    }
    let ghost data = old(r).data();
    let ghost p = old(r).pos();
    let ghost o0 = old(out)@;
    let ghost v0 = line_views(old(log)@);
    let ghost logged = if keep {
        block_log(data, p, o0, block_no as nat)
    } else {
        Seq::<Seq<char>>::empty()
    };
    proof {
        assert(old(log)@.take(old(log)@.len() as int) =~= old(log)@);
        assert(v0 + Seq::<Seq<char>>::empty() =~= v0);
    }
    let ghost lg = log@;
    proof {
        r.lemma_pos();
    }
    let bfinal = match read_bits(r, 1) {
        Ok(v) => v,
        Err(e) => {
            return Err(e);
        },
    };
    let btype = match read_bits(r, 2) {
        Ok(v) => v,
        Err(e) => {
            return Err(e);
        },
    };
    let ghost head = seq![header_text(block_no as nat, bfinal as nat, btype as nat, p + 3)];
    if keep {
        let line = header_line(block_no, bfinal, btype, r.bits_read());
        log.push(line);
        proof {
            lemma_views_push(lg, line);
        }
    }
    proof {
        assert(log@.take(lg.len() as int) =~= lg);
        lemma_log_prefix_trans(old(log)@, lg, log@);
        assert(line_views(log@) == v0 + if keep {
            head
        } else {
            Seq::<Seq<char>>::empty()
        });
    }
    let ghost lg1 = log@;
    let ghost mid = if btype == 0 {
        stored_log(data, p + 3)
    } else {
        Seq::<Seq<char>>::empty()
    };
    let body = if btype == 0 {
        run_stored_block(r, out, log, keep)
    } else if btype == 1 {
        let lt = fixed_lit();
        let dt = fixed_dist();
        match run_symbol_loop(r, out, &lt, &dt) {
            Ok(_) => Ok(()),
            Err(e) => Err(e),
        }
    } else if btype == 2 {
        run_dynamic_block(r, out)
    } else {
        Err(InflateError::BadFormat)
    };
    proof {
        assert(lg1.take(lg1.len() as int) =~= lg1);
        lemma_log_prefix_trans(old(log)@, lg1, log@);
        if keep {
            assert(line_views(log@) =~= v0 + head + mid);
        } else {
            assert(line_views(log@) =~= v0);
        }
    }
    match body {
        Ok(()) => {},
        Err(e) => {
            proof {
                if keep {
                    assert(logged =~= head + mid);
                }
            }
            return Err(e);
        },
    }
    let ghost lg2 = log@;
    if keep {
        let line = done_line(block_no, out.len(), r.bits_read());
        log.push(line);
        proof {
            lemma_views_push(lg2, line);
            assert(logged =~= head + mid + seq![done_text(block_no as nat, out@.len(), r.pos())]);
            assert(line_views(log@) =~= v0 + logged);
        }
    }
    proof {
        assert(log@.take(lg2.len() as int) =~= lg2);
        lemma_log_prefix_trans(old(log)@, lg2, log@);
    }
    Ok(bfinal)
}

/// The log grows by what the block adds.
proof fn lemma_log_views(
    v0: Seq<Seq<char>>,
    acc: Seq<Seq<char>>,
    this: Seq<Seq<char>>,
    keep: bool,
    before: Seq<String>,
    after: Seq<String>,
)
    requires
        line_views(before) == v0 + if keep {
            acc
        } else {
            Seq::<Seq<char>>::empty()
        },
        line_views(after) == line_views(before) + if keep {
            this
        } else {
            Seq::<Seq<char>>::empty()
        },
    ensures
        line_views(after) == v0 + if keep {
            acc + this
        } else {
            Seq::<Seq<char>>::empty()
        },
{
    if keep {
        assert(line_views(after) =~= v0 + (acc + this));
    } else {
        assert(line_views(after) =~= v0 + Seq::<Seq<char>>::empty());
    }
}

/// The log of a block that decodes: the block's lines, then (unless it is
/// the final block) the lines of the blocks after it.
proof fn lemma_blocks_log_ok(
    data: Seq<u8>,
    p: nat,
    o: Seq<u8>,
    n: nat,
    fuel: nat,
    bfinal: u64,
    q: nat,
    o2: Seq<u8>,
    acc: Seq<Seq<char>>,
)
    requires
        fuel > 0,
        one_block(data, p, o) == Ok::<(u64, nat, Seq<u8>), InflateError>((bfinal, q, o2)),
    ensures
        bfinal == 1 ==> acc + blocks_log(data, p, o, n, fuel) == acc + block_log(data, p, o, n),
        bfinal != 1 ==> acc + blocks_log(data, p, o, n, fuel) == acc + block_log(data, p, o, n)
            + blocks_log(data, q, o2, n + 1, (fuel - 1) as nat),
{
    reveal(blocks_log);
    let this = block_log(data, p, o, n);
    let rest = blocks_log(data, q, o2, n + 1, (fuel - 1) as nat);
    assert(acc + (this + rest) =~= acc + this + rest);
}

/// The log of a block that fails: the block's lines and nothing after.
proof fn lemma_blocks_log_err(data: Seq<u8>, p: nat, o: Seq<u8>, n: nat, fuel: nat)
    requires
        fuel > 0,
        one_block(data, p, o) is Err,
    ensures
        blocks_log(data, p, o, n, fuel) == block_log(data, p, o, n),
{
    reveal(blocks_log);
}

/// Decode the blocks of a raw DEFLATE stream, appending a log line per
/// block header, per stored-block length field and per finished block to
/// `log` when `keep` is set.
#[verifier::spinoff_prover]
fn decompress_raw_impl(data: &[u8], log: &mut Vec<String>, keep: bool) -> (res: Result<
    Vec<u8>,
    InflateError,
>)
    requires
        8 * data@.len() <= usize::MAX,
    ensures
        match res {
            Ok(v) => spec_inflate(data@) == Ok::<Seq<u8>, InflateError>(v@),
            Err(e) => spec_inflate(data@) == Err::<Seq<u8>, InflateError>(e),
        },
        final(log)@.len() >= old(log)@.len(),
        final(log)@.take(old(log)@.len() as int) == old(log)@,
        line_views(final(log)@) == line_views(old(log)@) + if keep {
            spec_inflate_log(data@)
        } else {
            Seq::<Seq<char>>::empty()
        },
{
    let mut r = BitReader::new(data);
    let mut out: Vec<u8> = Vec::new();
    let mut finished = false;
    let mut block_no: u64 = 0;
    let ghost n8 = 8 * data@.len();
    let ghost v0 = line_views(old(log)@);
    let ghost mut acc: Seq<Seq<char>> = Seq::empty();
    proof {
        r.lemma_pos();
        assert(v0 + Seq::<Seq<char>>::empty() =~= v0);
        assert(Seq::<Seq<char>>::empty() + spec_inflate_log(data@) =~= spec_inflate_log(data@));
    }
    while !finished
        invariant
            r.wf(),
            r.data() == data@,
            n8 == 8 * data@.len(),
            r.pos() <= n8,
            3 * block_no <= r.pos(),
            !finished ==> blocks(data@, r.pos(), out@, (n8 + 1 - block_no) as nat) == spec_inflate(
                data@,
            ),
            !finished ==> acc + blocks_log(
                data@,
                r.pos(),
                out@,
                block_no as nat,
                (n8 + 1 - block_no) as nat,
            ) == spec_inflate_log(data@),
            finished ==> spec_inflate(data@) == Ok::<Seq<u8>, InflateError>(out@),
            finished ==> acc == spec_inflate_log(data@),
            log@.len() >= old(log)@.len(),
            log@.take(old(log)@.len() as int) == old(log)@,
            v0 == line_views(old(log)@),
            line_views(log@) == v0 + if keep {
                acc
            } else {
                Seq::<Seq<char>>::empty()
            },
        decreases n8 + 1 - r.pos() + if finished {
            0int
        } else {
            1int
        },
    {
        let ghost lg = log@;
        let ghost p = r.pos();
        let ghost o = out@;
        let ghost this = block_log(data@, p, o, block_no as nat);
        let ghost fuel = (n8 + 1 - block_no) as nat;
        let bfinal = match decode_block(&mut r, &mut out, log, keep, block_no) {
            Ok(v) => v,
            Err(e) => {
                proof {
                    lemma_log_prefix_trans(old(log)@, lg, log@);
                    lemma_log_views(v0, acc, this, keep, lg, log@);
                    lemma_blocks_log_err(data@, p, o, block_no as nat, fuel);
                    assert(acc + blocks_log(data@, p, o, block_no as nat, fuel) == spec_inflate_log(
                        data@,
                    ));
                    assert(acc + this == spec_inflate_log(data@));
                }
                return Err(e);
            },
        };
        proof {
            r.lemma_pos();
            lemma_log_prefix_trans(old(log)@, lg, log@);
            lemma_log_views(v0, acc, this, keep, lg, log@);
            lemma_blocks_log_ok(data@, p, o, block_no as nat, fuel, bfinal, r.pos(), out@, acc);
            acc = acc + this;
        }
        block_no = block_no + 1;
        if bfinal == 1 {
            finished = true;
        }
    }
    Ok(out)
}

/// Decode a raw DEFLATE stream (no container).
pub fn decompress_raw(data: &[u8]) -> (res: Result<Vec<u8>, InflateError>)
    requires
        8 * data@.len() <= usize::MAX,
    ensures
        match res {
            Ok(v) => spec_inflate(data@) == Ok::<Seq<u8>, InflateError>(v@),
            Err(e) => spec_inflate(data@) == Err::<Seq<u8>, InflateError>(e),
        },
{
    let mut scratch: Vec<String> = Vec::new();
    decompress_raw_impl(data, &mut scratch, false)
}

/// Decode a raw DEFLATE stream, recording per-block diagnostics in `log`
/// (the stream interpretation is identical).
pub fn decompress_raw_debug(data: &[u8], log: &mut Vec<String>) -> (res: Result<
    Vec<u8>,
    InflateError,
>)
    requires
        8 * data@.len() <= usize::MAX,
    ensures
        match res {
            Ok(v) => spec_inflate(data@) == Ok::<Seq<u8>, InflateError>(v@),
            Err(e) => spec_inflate(data@) == Err::<Seq<u8>, InflateError>(e),
        },
        final(log)@.len() >= old(log)@.len(),
        final(log)@.take(old(log)@.len() as int) == old(log)@,
        line_views(final(log)@) == line_views(old(log)@) + spec_inflate_log(data@),
        final(log)@.len() >= old(log)@.len() + 2 * spec_blocks_read(data@),
{
    let r = decompress_raw_impl(data, log, true);
    proof {
        law_log_lines_per_block(data@);
        assert(line_views(log@).len() == log@.len());
        assert(line_views(old(log)@).len() == old(log)@.len());
    }
    r
}

/// The big-endian 32-bit value of four bytes.
pub open spec fn be32(b0: u8, b1: u8, b2: u8, b3: u8) -> u32 {
    (b0 * 16777216 + b1 * 65536 + b2 * 256 + b3) as u32
}

/// A zlib container decoded (RFC 1950): header checks, the raw DEFLATE body,
/// and the big-endian Adler-32 trailer.
pub open spec fn spec_inflate_zlib(data: Seq<u8>) -> Result<Seq<u8>, InflateError> {
    if data.len() < 6 {
        Err(InflateError::Truncated)
    } else if data[0] & 0x0F != 8 {
        Err(InflateError::BadFormat)
    } else if (data[0] * 256 + data[1]) % 31 != 0 {
        Err(InflateError::BadFormat)
    } else if data[1] & 0x20 != 0 {
        Err(InflateError::BadFormat)
    } else {
        let n = data.len() as int;
        match spec_inflate(data.subrange(2, n - 4)) {
            Err(e) => Err(e),
            Ok(out) => if spec_adler32(1, out) != be32(
                data[n - 4],
                data[n - 3],
                data[n - 2],
                data[n - 1],
            ) {
                Err(InflateError::ChecksumMismatch)
            } else {
                Ok(out)
            },
        }
    }
}

/// The zlib header's FLEVEL and CINFO bits are informational (RFC 1950
/// §2.2): any two headers with CM = 8, a valid FCHECK and FDICT clear
/// decode the same container body and trailer alike.
pub proof fn law_zlib_header_informational(
    cmf: u8,
    flg: u8,
    cmf2: u8,
    flg2: u8,
    rest: Seq<u8>,
)
    requires
        cmf & 0x0F == 8,
        cmf2 & 0x0F == 8,
        (cmf * 256 + flg) % 31 == 0,
        (cmf2 * 256 + flg2) % 31 == 0,
        flg & 0x20 == 0,
        flg2 & 0x20 == 0,
    ensures
        spec_inflate_zlib(seq![cmf, flg] + rest) == spec_inflate_zlib(seq![cmf2, flg2] + rest),
{
    let a = seq![cmf, flg] + rest;
    let b = seq![cmf2, flg2] + rest;
    assert(a[0] == cmf && a[1] == flg && b[0] == cmf2 && b[1] == flg2);
    if rest.len() >= 4 {
        let n = a.len() as int;
        assert(a.subrange(2, n - 4) =~= b.subrange(2, n - 4));
        assert(a[n - 4] == b[n - 4] && a[n - 3] == b[n - 3] && a[n - 2] == b[n - 2] && a[n - 1]
            == b[n - 1]);
    }
}

/// A zlib container with an acceptable header (CM = 8, valid FCHECK, no
/// preset dictionary, any FLEVEL), a raw DEFLATE body and the big-endian
/// Adler-32 of what the body decodes to, decodes to that output.
pub proof fn law_zlib_accepts(
    cmf: u8,
    flg: u8,
    raw: Seq<u8>,
    out: Seq<u8>,
    t0: u8,
    t1: u8,
    t2: u8,
    t3: u8,
)
    requires
        cmf & 0x0F == 8,
        (cmf * 256 + flg) % 31 == 0,
        flg & 0x20 == 0,
        spec_inflate(raw) == Ok::<Seq<u8>, InflateError>(out),
        t0 * 16777216 + t1 * 65536 + t2 * 256 + t3 == spec_adler32(1, out),
    ensures
        spec_inflate_zlib(seq![cmf, flg] + raw + seq![t0, t1, t2, t3]) == Ok::<
            Seq<u8>,
            InflateError,
        >(out),
{
    let a = seq![cmf, flg] + raw + seq![t0, t1, t2, t3];
    let n = a.len() as int;
    assert(a[0] == cmf && a[1] == flg);
    assert(a.subrange(2, n - 4) =~= raw);
    assert(a[n - 4] == t0 && a[n - 3] == t1 && a[n - 2] == t2 && a[n - 1] == t3);
}

/// A container whose body or trailer is wrong is refused whatever its
/// FLEVEL: with an acceptable header, the result is `Ok` exactly when the
/// body decodes and the trailer holds the Adler-32 of its output.
pub proof fn law_zlib_ok_iff(cmf: u8, flg: u8, raw: Seq<u8>, t0: u8, t1: u8, t2: u8, t3: u8)
    requires
        cmf & 0x0F == 8,
        (cmf * 256 + flg) % 31 == 0,
        flg & 0x20 == 0,
    ensures
        spec_inflate_zlib(seq![cmf, flg] + raw + seq![t0, t1, t2, t3]) is Ok <==> (spec_inflate(
            raw,
        ) is Ok && spec_adler32(1, spec_inflate(raw)->Ok_0) == t0 * 16777216 + t1 * 65536 + t2
            * 256 + t3),
{
    let a = seq![cmf, flg] + raw + seq![t0, t1, t2, t3];
    let n = a.len() as int;
    assert(a[0] == cmf && a[1] == flg);
    assert(a.subrange(2, n - 4) =~= raw);
    assert(a[n - 4] == t0 && a[n - 3] == t1 && a[n - 2] == t2 && a[n - 1] == t3);
}

/// A container with an acceptable header whose body decodes but whose
/// trailer is not the big-endian Adler-32 of the output is refused with a
/// checksum mismatch; one whose body does not decode is refused with the
/// body's error.
pub proof fn law_zlib_errors(cmf: u8, flg: u8, raw: Seq<u8>, t0: u8, t1: u8, t2: u8, t3: u8)
    requires
        cmf & 0x0F == 8,
        (cmf * 256 + flg) % 31 == 0,
        flg & 0x20 == 0,
    ensures
        spec_inflate(raw) is Err ==> spec_inflate_zlib(seq![cmf, flg] + raw + seq![t0, t1, t2, t3])
            == spec_inflate(raw),
        spec_inflate(raw) is Ok && spec_adler32(1, spec_inflate(raw)->Ok_0) != t0 * 16777216 + t1
            * 65536 + t2 * 256 + t3 ==> spec_inflate_zlib(seq![cmf, flg] + raw + seq![t0, t1, t2, t3])
            == Err::<Seq<u8>, InflateError>(InflateError::ChecksumMismatch),
{
    let a = seq![cmf, flg] + raw + seq![t0, t1, t2, t3];
    let n = a.len() as int;
    assert(a[0] == cmf && a[1] == flg);
    assert(a.subrange(2, n - 4) =~= raw);
    assert(a[n - 4] == t0 && a[n - 3] == t1 && a[n - 2] == t2 && a[n - 1] == t3);
}

/// The header checks of RFC 1950: fewer than six bytes is truncated; a
/// compression method other than 8, an FCHECK that does not make
/// `CMF * 256 + FLG` a multiple of 31, or a preset dictionary is refused as
/// malformed.
pub proof fn law_zlib_header_refused(data: Seq<u8>)
    ensures
        data.len() < 6 ==> spec_inflate_zlib(data) == Err::<Seq<u8>, InflateError>(
            InflateError::Truncated,
        ),
        data.len() >= 6 && (data[0] & 0x0F != 8 || (data[0] * 256 + data[1]) % 31 != 0 || data[1]
            & 0x20 != 0) ==> spec_inflate_zlib(data) == Err::<Seq<u8>, InflateError>(
            InflateError::BadFormat,
        ),
{
}

/// Decode a zlib container (RFC 1950): verify the header, decode, and check
/// the big-endian Adler-32 trailer.
pub fn decompress_zlib(data: &[u8]) -> (res: Result<Vec<u8>, InflateError>)
    requires
        8 * data@.len() <= usize::MAX,
    ensures
        match res {
            Ok(v) => spec_inflate_zlib(data@) == Ok::<Seq<u8>, InflateError>(v@),
            Err(e) => spec_inflate_zlib(data@) == Err::<Seq<u8>, InflateError>(e),
        },
{
    if data.len() < 6 {
        return Err(InflateError::Truncated);
    }
    let cmf = data[0];
    let flg = data[1];
    if cmf & 0x0F != 8 {
        return Err(InflateError::BadFormat);
    }
    if (cmf as u16 * 256 + flg as u16) % 31 != 0 {
        return Err(InflateError::BadFormat);
    }
    if flg & 0x20 != 0 {
        return Err(InflateError::BadFormat);
    }
    let n = data.len();
    let body = vstd::slice::slice_subrange(data, 2, n - 4);
    let out = match decompress_raw(body) {
        Ok(v) => v,
        Err(e) => {
            return Err(e);
        },
    };
    let stored: u32 = data[n - 4] as u32 * 16777216 + data[n - 3] as u32 * 65536 + data[n - 2] as u32
        * 256 + data[n - 1] as u32;
    if adler32_fresh(out.as_slice()) != stored {
        return Err(InflateError::ChecksumMismatch);
    }
    Ok(out)
}

} // verus!
