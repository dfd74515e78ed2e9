//! Canonical Huffman coding (RFC 1951 §3.2.2, §3.2.5, §3.2.6, §3.2.7).
//!
//! * `canonical_codes` implements the RFC's bl_count / next_code / assign
//!   algorithm.
//! * The fixed literal/length and distance tables (§3.2.6) are built by
//!   running the same algorithm on the RFC's fixed length sequences.
//! * The length codes 257..285 and distance codes 0..29 with their extra bits
//!   (§3.2.5) are the two lookup tables.
//! * `encode_code_lengths` / `decode_code_lengths` are the §3.2.7 run coding
//!   of a code-length sequence (symbols 16, 17, 18).
use vstd::prelude::*;
use vstd::arithmetic::power2::pow2;
use crate::inflate::InflateError;

verus! {

/// The 19 code-length symbols in their on-the-wire order (RFC §3.2.7).
pub const CODE_LENGTH_ORDER: [u8; 19] = [
    16, 17, 18, 0, 8, 7, 9, 6, 10, 5, 11, 4, 12, 3, 13, 2, 14, 1, 15,
];

/// The fixed distance code lengths (RFC §3.2.6): 5 for 0-29 (30 entries).
pub const FIXED_DIST_LENGTHS: [u8; 30] = [
    5, 5, 5, 5, 5, 5, 5, 5, 5, 5, 5, 5, 5, 5, 5, 5, 5, 5, 5, 5, 5, 5, 5, 5, 5, 5, 5, 5, 5, 5,
];

/// The length codes 257..285: base lengths (RFC §3.2.5). Index `i` is code
/// `257 + i`.
pub const LEN_BASE: [u32; 29] = [
    3, 4, 5, 6, 7, 8, 9, 10, 11, 13, 15, 17, 19, 23, 27, 31, 35, 43, 51, 59, 67, 83, 99, 115, 131,
    163, 195, 227, 258,
];

/// The length codes 257..285: extra-bit counts (RFC §3.2.5).
pub const LEN_EXTRA: [u32; 29] = [
    0, 0, 0, 0, 0, 0, 0, 0, 1, 1, 1, 1, 2, 2, 2, 2, 3, 3, 3, 3, 4, 4, 4, 4, 5, 5, 5, 5, 0,
];

/// The distance codes 0..29: base distances (RFC §3.2.5). Index `i` is code
/// `i`.
pub const DIST_BASE: [u32; 30] = [
    1, 2, 3, 4, 5, 7, 9, 13, 17, 25, 33, 49, 65, 97, 129, 193, 257, 385, 513, 769, 1025, 1537,
    2049, 3073, 4097, 6145, 8193, 12289, 16385, 24577,
];

/// The distance codes 0..29: extra-bit counts (RFC §3.2.5).
pub const DIST_EXTRA: [u32; 30] = [
    0, 0, 0, 0, 1, 1, 2, 2, 3, 3, 4, 4, 5, 5, 6, 6, 7, 7, 8, 8, 9, 9, 10, 10, 11, 11, 12, 12, 13,
    13,
];

/// The fixed literal/length code length of symbol `i` (RFC §3.2.6):
/// 0-143: 8, 144-255: 9, 256-279: 7, 280-287: 8.
pub open spec fn fixed_lit_length(i: int) -> u8 {
    if i < 144 {
        8
    } else if i < 256 {
        9
    } else if i < 280 {
        7
    } else {
        8
    }
}

/// The fixed literal/length code lengths (288 entries).
pub fn fixed_lit_lengths() -> (a: Vec<u8>)
    ensures
        a@.len() == 288,
        forall|i: int| 0 <= i < 288 ==> #[trigger] a@[i] == fixed_lit_length(i),
{
    let mut a: Vec<u8> = Vec::new();
    let mut i: usize = 0;
    while i < 288
        invariant
            i <= 288,
            a@.len() == i,
            forall|j: int| 0 <= j < i ==> #[trigger] a@[j] == fixed_lit_length(j),
        decreases 288 - i,
    {
        let l: u8 = if i < 144 {
            8
        } else if i < 256 {
            9
        } else if i < 280 {
            7
        } else {
            8
        };
        a.push(l);
        i = i + 1;
    }
    a
}

/// The number of positions `j < n` of `lens` that hold the length `l`.
pub open spec fn count_len(lens: Seq<u8>, l: int, n: int) -> nat
    decreases n,
{
    if n <= 0 {
        0
    } else {
        count_len(lens, l, n - 1) + if lens[n - 1] == l {
            1nat
        } else {
            0nat
        }
    }
}

/// The longest code length the assignment processes (`max_bits`, at most 15).
pub open spec fn eff_max(max_bits: u32) -> int {
    if max_bits < 15 {
        max_bits as int
    } else {
        15
    }
}

/// The first code of length `b` (RFC §3.2.2 step 2), for lengths up to `mb`.
pub open spec fn code_start(lens: Seq<u8>, b: int) -> nat
    decreases b,
{
    if b <= 1 {
        0
    } else {
        2 * (code_start(lens, b - 1) + count_len(lens, b - 1, lens.len() as int))
    }
}

/// The first code handed out for length `l` when lengths up to `mb` are
/// processed (0 for longer lengths, which the assignment skips).
pub open spec fn code_base(lens: Seq<u8>, mb: int, l: int) -> nat {
    if 1 <= l <= mb {
        code_start(lens, l)
    } else {
        0
    }
}

/// The canonical code of symbol `i` (RFC §3.2.2 step 3): the first code of its
/// length plus the number of earlier symbols of the same length.
pub open spec fn canonical_code(lens: Seq<u8>, mb: int, i: int) -> nat {
    if lens[i] == 0 {
        0
    } else {
        code_base(lens, mb, lens[i] as int) + count_len(lens, lens[i] as int, i)
    }
}

/// A length sequence the assignment accepts: every length at most 15 and at
/// most 65536 symbols (so that no code overflows 32 bits).
pub open spec fn lengths_ok(lens: Seq<u8>) -> bool {
    &&& lens.len() <= 65536
    &&& forall|i: int| 0 <= i < lens.len() ==> #[trigger] lens[i] <= 15
}

proof fn lemma_count_len_bound(lens: Seq<u8>, l: int, n: int)
    requires
        0 <= n <= lens.len(),
    ensures
        count_len(lens, l, n) <= n,
    decreases n,
{
    if n > 0 {
        lemma_count_len_bound(lens, l, n - 1);
    }
}

proof fn lemma_code_start_bound(lens: Seq<u8>, b: int)
    requires
        1 <= b,
    ensures
        code_start(lens, b) + 2 * lens.len() <= lens.len() * pow2(b as nat),
    decreases b,
{
    vstd::arithmetic::power2::lemma2_to64();
    let n = lens.len();
    if b > 1 {
        lemma_code_start_bound(lens, b - 1);
        lemma_count_len_bound(lens, b - 1, lens.len() as int);
        vstd::arithmetic::power2::lemma_pow2_unfold(b as nat);
        let p = pow2((b - 1) as nat);
        let c = count_len(lens, b - 1, lens.len() as int);
        assert(code_start(lens, b) == 2 * (code_start(lens, b - 1) + c));
        assert(n * pow2(b as nat) == 2 * (n * p)) by (nonlinear_arith)
            requires
                pow2(b as nat) == 2 * p,
        ;
    } else {
        assert(code_start(lens, b) == 0);
        assert(n * pow2(1) == 2 * n);
    }
}

proof fn lemma_code_start_u32(lens: Seq<u8>, b: int)
    requires
        1 <= b <= 15,
        lens.len() <= 65536,
    ensures
        code_start(lens, b) + 2 * lens.len() <= 0x8000_0000,
{
    lemma_code_start_bound(lens, b);
    vstd::arithmetic::power2::lemma2_to64();
    if b < 15 {
        vstd::arithmetic::power2::lemma_pow2_strictly_increases(b as nat, 15);
    }
    let n = lens.len();
    assert(n * pow2(b as nat) <= 65536 * 32768) by (nonlinear_arith)
        requires
            n <= 65536,
            pow2(b as nat) <= 32768,
    ;
}

/// Lengths whose canonical codes the assignment computes without leaving 32
/// bits: every length at most 15, and for each length the first code plus
/// the number of codes of that length fits in a `u32`.
pub open spec fn codes_fit(lens: Seq<u8>) -> bool {
    &&& forall|i: int| 0 <= i < lens.len() ==> #[trigger] lens[i] <= 15
    &&& forall|l: int|
        1 <= l <= 15 ==> #[trigger] code_start(lens, l) + count_len(lens, l, lens.len() as int)
            <= u32::MAX
}

/// Up to 65536 lengths of at most 15 always fit.
pub proof fn lemma_lengths_fit(lens: Seq<u8>)
    requires
        lengths_ok(lens),
    ensures
        codes_fit(lens),
{
    assert forall|l: int| 1 <= l <= 15 implies #[trigger] code_start(lens, l) + count_len(
        lens,
        l,
        lens.len() as int,
    ) <= u32::MAX by {
        lemma_code_start_u32(lens, l);
        lemma_count_len_bound(lens, l, lens.len() as int);
    }
}

/// Counting over a longer prefix counts no fewer.
proof fn lemma_count_len_le(lens: Seq<u8>, l: int, i: int, n: int)
    requires
        0 <= i <= n <= lens.len(),
    ensures
        count_len(lens, l, i) <= count_len(lens, l, n),
    decreases n - i,
{
    if i < n {
        lemma_count_len_le(lens, l, i, n - 1);
    }
}

fn zeros_u32(n: usize) -> (v: Vec<u32>)
    ensures
        v@.len() == n,
        forall|i: int| 0 <= i < n ==> #[trigger] v@[i] == 0,
{
    let mut v: Vec<u32> = Vec::new();
    let mut i: usize = 0;
    while i < n
        invariant
            i <= n,
            v@.len() == i,
            forall|j: int| 0 <= j < i ==> #[trigger] v@[j] == 0,
        decreases n - i,
    {
        v.push(0);
        i = i + 1;
    }
    v
}

/// Assign canonical codes (read MSB-first) from bit lengths, using the RFC
/// §3.2.2 algorithm. Length 0 assigns no code (0).
///
/// `max_bits` is the maximum code length to process (at most 15).
pub fn canonical_codes(lengths: &[u8], max_bits: u32) -> (r: Vec<u32>)
    requires
        codes_fit(lengths@),
    ensures
        r@.len() == lengths@.len(),
        forall|i: int|
            0 <= i < lengths@.len() ==> #[trigger] r@[i] == canonical_code(
                lengths@,
                eff_max(max_bits),
                i,
            ),
{
    let ghost lens = lengths@;
    let n = lengths.len();
    let mb: u32 = if max_bits < 15 {
        max_bits
    } else {
        15
    };
    let ghost mbi = eff_max(max_bits);
    let mut bl_count = zeros_u32(16);
    let mut i: usize = 0;
    while i < n
        invariant
            lens == lengths@,
            n == lens.len(),
            codes_fit(lens),
            mb == mbi,
            mbi <= 15,
            i <= n,
            bl_count@.len() == 16,
            forall|l: int|
                0 <= l < 16 ==> #[trigger] bl_count@[l] == (if 1 <= l <= mbi {
                    count_len(lens, l, i as int)
                } else {
                    0
                }),
        decreases n - i,
    {
        let l = lengths[i] as u32;
        proof {
            lemma_count_len_bound(lens, l as int, i as int);
            lemma_count_len_le(lens, l as int, i + 1, n as int);
            if 1 <= l {
                assert(code_start(lens, l as int) + count_len(lens, l as int, n as int) <= u32::MAX);
                assert(count_len(lens, l as int, i + 1) == count_len(lens, l as int, i as int) + 1);
            }
        }
        if 1 <= l && l <= mb {
            let c = bl_count[l as usize];
            bl_count.set(l as usize, c + 1);
        }
        i = i + 1;
    }
    let mut next_code = zeros_u32(16);
    let mut code: u32 = 0;
    let mut bits: u32 = 1;
    while bits <= mb
        invariant
            lens == lengths@,
            n == lens.len(),
            codes_fit(lens),
            mb == mbi,
            mbi <= 15,
            1 <= bits <= mb + 1,
            bl_count@.len() == 16,
            next_code@.len() == 16,
            forall|l: int|
                0 <= l < 16 ==> #[trigger] bl_count@[l] == (if 1 <= l <= mbi {
                    count_len(lens, l, n as int)
                } else {
                    0
                }),
            code == code_start(lens, bits - 1),
            forall|l: int|
                0 <= l < 16 ==> #[trigger] next_code@[l] == (if 1 <= l < bits {
                    code_start(lens, l)
                } else {
                    0
                }),
        decreases mb + 1 - bits,
    {
        proof {
            lemma_count_len_bound(lens, (bits - 1) as int, n as int);
            assert(code_start(lens, bits as int) + count_len(lens, bits as int, n as int) <= u32::MAX);
            if bits > 1 {
                assert(code_start(lens, bits - 1) + count_len(lens, bits - 1, n as int) <= u32::MAX);
            }
            assert(code_start(lens, bits as int) == 2 * (code_start(lens, bits - 1) + bl_count@[bits - 1]));
        }
        code = (code + bl_count[(bits - 1) as usize]) * 2;
        next_code.set(bits as usize, code);
        bits = bits + 1;
    }
    let mut out: Vec<u32> = Vec::new();
    let mut i: usize = 0;
    while i < n
        invariant
            lens == lengths@,
            n == lens.len(),
            codes_fit(lens),
            mb == mbi,
            mbi <= 15,
            i <= n,
            out@.len() == i,
            next_code@.len() == 16,
            forall|l: int|
                0 <= l < 16 ==> #[trigger] next_code@[l] == (if 1 <= l {
                    code_base(lens, mbi, l) + count_len(lens, l, i as int)
                } else {
                    0
                }),
            forall|j: int| 0 <= j < i ==> #[trigger] out@[j] == canonical_code(lens, mbi, j),
        decreases n - i,
    {
        let l = lengths[i];
        proof {
            lemma_count_len_bound(lens, l as int, i as int);
            lemma_count_len_le(lens, l as int, i + 1, n as int);
            if l >= 1 {
                assert(code_start(lens, l as int) + count_len(lens, l as int, n as int) <= u32::MAX);
            }
        }
        if l != 0 {
            let c = next_code[l as usize];
            out.push(c);
            next_code.set(l as usize, c + 1);
        } else {
            out.push(0);
        }
        i = i + 1;
    }
    out
}

proof fn lemma_len_table(i: int)
    requires
        0 <= i < 28,
    ensures
        LEN_BASE[i] + pow2(LEN_EXTRA[i] as nat) >= LEN_BASE[i + 1],
{
    vstd::arithmetic::power2::lemma2_to64();
    if i == 0 {} else if i == 1 {} else if i == 2 {} else if i == 3 {} else if i == 4 {}
    else if i == 5 {} else if i == 6 {} else if i == 7 {} else if i == 8 {} else if i == 9 {}
    else if i == 10 {} else if i == 11 {} else if i == 12 {} else if i == 13 {}
    else if i == 14 {} else if i == 15 {} else if i == 16 {} else if i == 17 {}
    else if i == 18 {} else if i == 19 {} else if i == 20 {} else if i == 21 {}
    else if i == 22 {} else if i == 23 {} else if i == 24 {} else if i == 25 {}
    else if i == 26 {} else {}
}

proof fn lemma_dist_table(i: int)
    requires
        0 <= i < 30,
    ensures
        i < 29 ==> DIST_BASE[i] + pow2(DIST_EXTRA[i] as nat) >= DIST_BASE[i + 1],
        i == 29 ==> DIST_BASE[i] + pow2(DIST_EXTRA[i] as nat) >= 32769,
{
    vstd::arithmetic::power2::lemma2_to64();
    if i == 0 {} else if i == 1 {} else if i == 2 {} else if i == 3 {} else if i == 4 {}
    else if i == 5 {} else if i == 6 {} else if i == 7 {} else if i == 8 {} else if i == 9 {}
    else if i == 10 {} else if i == 11 {} else if i == 12 {} else if i == 13 {}
    else if i == 14 {} else if i == 15 {} else if i == 16 {} else if i == 17 {}
    else if i == 18 {} else if i == 19 {} else if i == 20 {} else if i == 21 {}
    else if i == 22 {} else if i == 23 {} else if i == 24 {} else if i == 25 {}
    else if i == 26 {} else if i == 27 {} else if i == 28 {} else {}
}

/// Every length-code extra field fits in 5 bits.
pub proof fn lemma_len_extra_bound(i: int)
    requires
        0 <= i < 29,
    ensures
        LEN_EXTRA[i] <= 5,
        LEN_BASE[i] <= 258,
{
    if i == 0 {} else if i == 1 {} else if i == 2 {} else if i == 3 {} else if i == 4 {}
    else if i == 5 {} else if i == 6 {} else if i == 7 {} else if i == 8 {} else if i == 9 {}
    else if i == 10 {} else if i == 11 {} else if i == 12 {} else if i == 13 {}
    else if i == 14 {} else if i == 15 {} else if i == 16 {} else if i == 17 {}
    else if i == 18 {} else if i == 19 {} else if i == 20 {} else if i == 21 {}
    else if i == 22 {} else if i == 23 {} else if i == 24 {} else if i == 25 {}
    else if i == 26 {} else if i == 27 {} else {}
}

/// Every distance-code extra field fits in 13 bits.
pub proof fn lemma_dist_extra_bound(i: int)
    requires
        0 <= i < 30,
    ensures
        DIST_EXTRA[i] <= 13,
        DIST_BASE[i] <= 24577,
{
    if i == 0 {} else if i == 1 {} else if i == 2 {} else if i == 3 {} else if i == 4 {}
    else if i == 5 {} else if i == 6 {} else if i == 7 {} else if i == 8 {} else if i == 9 {}
    else if i == 10 {} else if i == 11 {} else if i == 12 {} else if i == 13 {}
    else if i == 14 {} else if i == 15 {} else if i == 16 {} else if i == 17 {}
    else if i == 18 {} else if i == 19 {} else if i == 20 {} else if i == 21 {}
    else if i == 22 {} else if i == 23 {} else if i == 24 {} else if i == 25 {}
    else if i == 26 {} else if i == 27 {} else if i == 28 {} else {}
}

/// The length code for `len` found by scanning up from code `i`: the last
/// code whose base is not above `len`.
pub open spec fn len_index_from(len: u32, i: nat) -> nat
    decreases 28 - i,
{
    if i < 28 && LEN_BASE[(i + 1) as int] <= len {
        len_index_from(len, i + 1)
    } else {
        i
    }
}

/// The distance code for `dist` found by scanning up from code `i`.
pub open spec fn dist_index_from(dist: u32, i: nat) -> nat
    decreases 29 - i,
{
    if i < 29 && DIST_BASE[(i + 1) as int] <= dist {
        dist_index_from(dist, i + 1)
    } else {
        i
    }
}

/// The length code of a match length: its base is not above the length and
/// the rest fits the code's extra bits.
pub proof fn lemma_len_index(len: u32, i: nat)
    requires
        i <= 28,
        LEN_BASE[i as int] <= len <= 258,
    ensures
        len_index_from(len, i) <= 28,
        LEN_BASE[len_index_from(len, i) as int] <= len,
        ((len - LEN_BASE[len_index_from(len, i) as int]) as nat) < pow2(
            LEN_EXTRA[len_index_from(len, i) as int] as nat,
        ),
    decreases 28 - i,
{
    if i < 28 && LEN_BASE[(i + 1) as int] <= len {
        lemma_len_index(len, i + 1);
    } else if i < 28 {
        lemma_len_table(i as int);
    } else {
        vstd::arithmetic::power2::lemma2_to64();
    }
}

/// The distance code of a match distance: its base is not above the
/// distance and the rest fits the code's extra bits.
pub proof fn lemma_dist_index(dist: u32, i: nat)
    requires
        i <= 29,
        DIST_BASE[i as int] <= dist <= 32768,
    ensures
        dist_index_from(dist, i) <= 29,
        DIST_BASE[dist_index_from(dist, i) as int] <= dist,
        ((dist - DIST_BASE[dist_index_from(dist, i) as int]) as nat) < pow2(
            DIST_EXTRA[dist_index_from(dist, i) as int] as nat,
        ),
    decreases 29 - i,
{
    if i < 29 && DIST_BASE[(i + 1) as int] <= dist {
        lemma_dist_index(dist, i + 1);
    } else {
        lemma_dist_table(i as int);
    }
}

/// Every transmitted code-length symbol position names one of the 19
/// code-length symbols.
pub proof fn lemma_order_bound(k: int)
    requires
        0 <= k < 19,
    ensures
        CODE_LENGTH_ORDER[k] < 19,
{
    if k == 0 {} else if k == 1 {} else if k == 2 {} else if k == 3 {} else if k == 4 {}
    else if k == 5 {} else if k == 6 {} else if k == 7 {} else if k == 8 {} else if k == 9 {}
    else if k == 10 {} else if k == 11 {} else if k == 12 {} else if k == 13 {}
    else if k == 14 {} else if k == 15 {} else if k == 16 {} else if k == 17 {} else {}
}

/// Pick the length code for a match length (3..258): the code `i` whose base
/// `LEN_BASE[i]` is the largest not above `len`, and the extra value.
pub fn length_code(len: u32) -> (r: (u32, u32))
    requires
        3 <= len <= 258,
    ensures
        r.0 <= 28,
        LEN_BASE[r.0 as int] <= len,
        r.0 == 28 || len < LEN_BASE[r.0 + 1],
        r.1 == len - LEN_BASE[r.0 as int],
        r.1 < pow2(LEN_EXTRA[r.0 as int] as nat),
        r.0 == len_index_from(len, 0),
{
    let mut i: usize = 0;
    while i < 28 && LEN_BASE[i + 1] <= len
        invariant
            i <= 28,
            LEN_BASE[i as int] <= len,
            3 <= len <= 258,
            len_index_from(len, i as nat) == len_index_from(len, 0),
        decreases 28 - i,
    {
        i = i + 1;
    }
    proof {
        vstd::arithmetic::power2::lemma2_to64();
        if i < 28 {
            lemma_len_table(i as int);
        }
    }
    let extra = len - LEN_BASE[i];
    (i as u32, extra)
}

/// Pick the distance code for a backward distance (1..=32768): the code `i`
/// whose base `DIST_BASE[i]` is the largest not above `dist`, and the extra
/// value.
pub fn distance_code(dist: u32) -> (r: (u32, u32))
    requires
        1 <= dist <= 32768,
    ensures
        r.0 <= 29,
        DIST_BASE[r.0 as int] <= dist,
        r.0 == 29 || dist < DIST_BASE[r.0 + 1],
        r.1 == dist - DIST_BASE[r.0 as int],
        r.1 < pow2(DIST_EXTRA[r.0 as int] as nat),
        r.0 == dist_index_from(dist, 0),
{
    let mut i: usize = 0;
    while i < 29 && DIST_BASE[i + 1] <= dist
        invariant
            i <= 29,
            DIST_BASE[i as int] <= dist,
            1 <= dist <= 32768,
            dist_index_from(dist, i as nat) == dist_index_from(dist, 0),
        decreases 29 - i,
    {
        i = i + 1;
    }
    proof {
        lemma_dist_table(i as int);
    }
    let extra = dist - DIST_BASE[i];
    (i as u32, extra)
}

/// The longest length in `lens` (0 for an empty sequence).
pub open spec fn seq_max(lens: Seq<u8>) -> nat
    decreases lens.len(),
{
    if lens.len() == 0 {
        0
    } else {
        let m = seq_max(lens.drop_last());
        if lens.last() > m {
            lens.last() as nat
        } else {
            m
        }
    }
}

/// The first symbol among the first `n` whose length is `len` and whose
/// canonical code (lengths up to 15) is `code`.
pub open spec fn lookup_prefix(lens: Seq<u8>, code: nat, len: nat, n: int) -> Option<nat>
    decreases n,
{
    if n <= 0 {
        None
    } else {
        match lookup_prefix(lens, code, len, n - 1) {
            Some(j) => Some(j),
            None => if lens[n - 1] == len && canonical_code(lens, 15, n - 1) == code {
                Some((n - 1) as nat)
            } else {
                None
            },
        }
    }
}

/// The symbol that the (`code`, `len`) pair names in the canonical code of
/// `lens`, if any (the first such symbol).
pub open spec fn table_lookup(lens: Seq<u8>, code: nat, len: nat) -> Option<nat> {
    lookup_prefix(lens, code, len, lens.len() as int)
}

/// The first symbol with the given length and code is found.
pub proof fn lemma_lookup_found(lens: Seq<u8>, code: nat, len: nat, m: int, n: int)
    requires
        0 <= m < n,
        lookup_prefix(lens, code, len, m) is None,
        lens[m] == len,
        canonical_code(lens, 15, m) == code,
    ensures
        lookup_prefix(lens, code, len, n) == Some(m as nat),
    decreases n - m,
{
    if n > m + 1 {
        lemma_lookup_found(lens, code, len, m, n - 1);
    }
}

/// Lengths the assignment accepts are at most 15.
pub proof fn lemma_seq_max_bound(lens: Seq<u8>)
    requires
        lengths_ok(lens),
    ensures
        seq_max(lens) <= 15,
    decreases lens.len(),
{
    if lens.len() > 0 {
        assert(lengths_ok(lens.drop_last()));
        lemma_seq_max_bound(lens.drop_last());
    }
}

/// A canonical Huffman decoding table built from code lengths.
#[derive(Debug, Clone)]
pub struct CodeTable {
    lengths: Vec<u8>,
    codes: Vec<u32>,
    max_len: u32,
}

impl CodeTable {
    /// The code lengths the table was built from.
    pub closed spec fn lens(&self) -> Seq<u8> {
        self.lengths@
    }

    /// The table's internal consistency.
    pub closed spec fn wf(&self) -> bool {
        &&& lengths_ok(self.lengths@)
        &&& self.codes@.len() == self.lengths@.len()
        &&& forall|i: int|
            0 <= i < self.lengths@.len() ==> #[trigger] self.codes@[i] == canonical_code(
                self.lengths@,
                15,
                i,
            )
        &&& self.max_len == seq_max(self.lengths@)
    }

    /// Build the table for `lengths` (canonical codes, lengths up to 15).
    /// The lengths must not be overfull (Kraft sum at most one).
    pub fn build(lengths: &[u8]) -> (t: Self)
        requires
            lengths_ok(lengths@),
            crate::inflate::prefix_ok(lengths@),
        ensures
            t.wf(),
            t.lens() == lengths@,
    {
        proof {
            lemma_lengths_fit(lengths@);
        }
        let codes = canonical_codes(lengths, 15);
        let mut v: Vec<u8> = Vec::new();
        let mut m: u32 = 0;
        let mut i: usize = 0;
        while i < lengths.len()
            invariant
                i <= lengths@.len(),
                v@ == lengths@.take(i as int),
                m == seq_max(lengths@.take(i as int)),
                lengths_ok(lengths@),
            decreases lengths@.len() - i,
        {
            let l = lengths[i];
            proof {
                assert(lengths@.take(i + 1).drop_last() =~= lengths@.take(i as int));
            }
            if l as u32 > m {
                m = l as u32;
            }
            v.push(l);
            i = i + 1;
            proof {
                assert(v@ =~= lengths@.take(i as int));
            }
        }
        proof {
            assert(lengths@.take(i as int) =~= lengths@);
        }
        CodeTable { lengths: v, codes, max_len: m }
    }

    /// The symbol whose canonical code of `len` bits is `code`, if any.
    pub fn decode(&self, code: u32, len: u32) -> (r: Option<usize>)
        requires
            self.wf(),
        ensures
            match r {
                Some(s) => table_lookup(self.lens(), code as nat, len as nat) == Some(s as nat),
                None => table_lookup(self.lens(), code as nat, len as nat) is None,
            },
    {
        let n = self.lengths.len();
        let mut i: usize = 0;
        while i < n
            invariant
                self.wf(),
                n == self.lengths@.len(),
                i <= n,
                lookup_prefix(self.lengths@, code as nat, len as nat, i as int) is None,
            decreases n - i,
        {
            if self.lengths[i] as u32 == len && self.codes[i] == code {
                proof {
                    lemma_lookup_found(self.lengths@, code as nat, len as nat, i as int, n as int);
                }
                return Some(i);
            }
            i = i + 1;
        }
        None
    }

    /// A valid table's lengths are ones the assignment accepts.
    pub proof fn lemma_wf(&self)
        requires
            self.wf(),
        ensures
            lengths_ok(self.lens()),
            seq_max(self.lens()) <= 15,
    {
        lemma_seq_max_bound(self.lengths@);
    }

    /// The longest code length in the table (0 if no symbol has a code).
    pub fn max_length(&self) -> (r: u32)
        requires
            self.wf(),
        ensures
            r == seq_max(self.lens()),
            r <= 15,
    {
        proof {
            lemma_seq_max_bound(self.lengths@);
        }
        self.max_len
    }

    /// The code lengths the table was built from.
    pub fn lengths(&self) -> (r: &[u8])
        ensures
            r@ == self.lens(),
    {
        self.lengths.as_slice()
    }
}

/// The number of consecutive copies of `v` starting at `j`.
pub open spec fn run_eq(s: Seq<u8>, v: u8, j: int) -> nat
    decreases s.len() - j,
{
    if 0 <= j < s.len() && s[j] == v {
        1 + run_eq(s, v, j + 1)
    } else {
        0
    }
}

/// The smaller of two naturals.
pub open spec fn min_nat(a: nat, b: nat) -> nat {
    if a < b {
        a
    } else {
        b
    }
}

/// The repeat-previous (symbol 16) chunks for `rem` further copies of a
/// nonzero length: chunks of at most 6 while at least 4 copies remain.
pub open spec fn rep16(rem: nat) -> Seq<(u32, u32)>
    decreases rem,
{
    if rem >= 4 {
        let k = min_nat(rem, 6);
        seq![(16u32, (k - 3) as u32)] + rep16((rem - k) as nat)
    } else {
        Seq::empty()
    }
}

/// The number of copies the `rep16(rem)` chunks cover.
pub open spec fn used16(rem: nat) -> nat
    decreases rem,
{
    if rem >= 4 {
        let k = min_nat(rem, 6);
        k + used16((rem - k) as nat)
    } else {
        0
    }
}

/// The run coding (RFC §3.2.7) of `s` from position `i`, as (symbol, repeat
/// value) pairs: zero runs of 11..138 become 18, zero runs of 3..10 become
/// 17, shorter zero runs stay literal; a nonzero length is sent literally and
/// then repeated with 16 in chunks of at most 6 while at least 4 copies
/// remain.
pub open spec fn rle(s: Seq<u8>, i: int) -> Seq<(u32, u32)>
    decreases s.len() - i, 1nat,
{
    if i < 0 || i >= s.len() {
        Seq::empty()
    } else {
        let v = s[i];
        let r = run_eq(s, v, i);
        proof {
            lemma_run_eq_bound(s, v, i);
            lemma_used16((r - 1) as nat);
        }
        if r == 0 {
            Seq::empty()
        } else if v == 0 {
            if r >= 11 {
                let k = min_nat(r, 138);
                seq![(18u32, (k - 11) as u32)] + rle(s, i + k)
            } else if r >= 3 {
                seq![(17u32, (r - 3) as u32)] + rle(s, i + r)
            } else {
                seq![(0u32, 0u32)] + rle(s, i + 1)
            }
        } else {
            seq![(v as u32, 0u32)] + rep16((r - 1) as nat) + rle(s, i + 1 + used16((r - 1) as nat))
        }
    }
}

/// A run of copies stays inside the sequence.
pub proof fn lemma_run_eq_bound(s: Seq<u8>, v: u8, j: int)
    requires
        0 <= j <= s.len(),
    ensures
        j + run_eq(s, v, j) <= s.len(),
        forall|t: int| j <= t < j + run_eq(s, v, j) ==> s[t] == v,
    decreases s.len() - j,
{
    if j < s.len() && s[j] == v {
        lemma_run_eq_bound(s, v, j + 1);
    }
}

proof fn lemma_push_concat<A>(a: Seq<A>, p: A, b: Seq<A>)
    ensures
        a.push(p) + b == a + (seq![p] + b),
{
    assert(a.push(p) + b =~= a + (seq![p] + b));
}

/// The 16-chunks never cover more than the copies left, and leave fewer than 4.
pub proof fn lemma_used16(rem: nat)
    ensures
        used16(rem) <= rem,
        rem - used16(rem) < 4,
    decreases rem,
{
    if rem >= 4 {
        lemma_used16((rem - min_nat(rem, 6)) as nat);
    }
}

/// The 16-chunks are all symbol 16 and no more numerous than the copies they
/// cover.
pub proof fn lemma_rep16(rem: nat)
    ensures
        rep16(rem).len() <= used16(rem),
        forall|k: int| 0 <= k < rep16(rem).len() ==> (#[trigger] rep16(rem)[k]).0 == 16,
    decreases rem,
{
    if rem >= 4 {
        let k = min_nat(rem, 6);
        lemma_rep16((rem - k) as nat);
        let tail = rep16((rem - k) as nat);
        assert forall|t: int| 0 <= t < rep16(rem).len() implies (#[trigger] rep16(rem)[t]).0
            == 16 by {
            if t > 0 {
                assert(rep16(rem)[t] == tail[t - 1]);
            }
        }
    }
}

/// The run coding of lengths of at most 15 has no more symbols than lengths,
/// and every symbol is one of the 19 code-length symbols.
pub proof fn lemma_rle_props(s: Seq<u8>, i: int)
    requires
        0 <= i <= s.len(),
        forall|j: int| 0 <= j < s.len() ==> #[trigger] s[j] <= 15,
    ensures
        rle(s, i).len() <= s.len() - i,
        forall|k: int| 0 <= k < rle(s, i).len() ==> (#[trigger] rle(s, i)[k]).0 <= 18,
    decreases s.len() - i,
{
    if i < s.len() {
        let v = s[i];
        let r = run_eq(s, v, i);
        lemma_run_eq_bound(s, v, i);
        lemma_used16((r - 1) as nat);
        if v == 0 {
            if r >= 11 {
                let k = min_nat(r, 138);
                lemma_rle_props(s, i + k);
                let t = rle(s, i + k);
                assert forall|q: int| 0 <= q < rle(s, i).len() implies (#[trigger] rle(s, i)[q]).0
                    <= 18 by {
                    if q > 0 {
                        assert(rle(s, i)[q] == t[q - 1]);
                    }
                }
            } else if r >= 3 {
                lemma_rle_props(s, i + r);
                let t = rle(s, i + r);
                assert forall|q: int| 0 <= q < rle(s, i).len() implies (#[trigger] rle(s, i)[q]).0
                    <= 18 by {
                    if q > 0 {
                        assert(rle(s, i)[q] == t[q - 1]);
                    }
                }
            } else {
                lemma_rle_props(s, i + 1);
                let t = rle(s, i + 1);
                assert forall|q: int| 0 <= q < rle(s, i).len() implies (#[trigger] rle(s, i)[q]).0
                    <= 18 by {
                    if q > 0 {
                        assert(rle(s, i)[q] == t[q - 1]);
                    }
                }
            }
        } else {
            let u = used16((r - 1) as nat);
            lemma_rep16((r - 1) as nat);
            lemma_rle_props(s, i + 1 + u);
            let a = seq![(v as u32, 0u32)];
            let b = rep16((r - 1) as nat);
            let t = rle(s, i + 1 + u);
            assert(rle(s, i) == a + b + t);
            assert forall|q: int| 0 <= q < rle(s, i).len() implies (#[trigger] rle(s, i)[q]).0
                <= 18 by {
                if q == 0 {
                } else if q < 1 + b.len() {
                    assert(rle(s, i)[q] == b[q - 1]);
                } else {
                    assert(rle(s, i)[q] == t[q - 1 - b.len()]);
                }
            }
        }
    }
}

/// When every length is at most `b`, each symbol of the run coding is either
/// a length of at most `b` or one of the repeat symbols 16, 17, 18.
pub proof fn lemma_rle_small(s: Seq<u8>, i: int, b: u8)
    requires
        0 <= i <= s.len(),
        forall|j: int| 0 <= j < s.len() ==> #[trigger] s[j] <= b,
    ensures
        forall|k: int|
            0 <= k < rle(s, i).len() ==> (#[trigger] rle(s, i)[k]).0 <= b || rle(s, i)[k].0 >= 16,
    decreases s.len() - i,
{
    if i < s.len() {
        let v = s[i];
        let r = run_eq(s, v, i);
        lemma_run_eq_bound(s, v, i);
        lemma_used16((r - 1) as nat);
        if v == 0 {
            let step: int = if r >= 11 {
                min_nat(r, 138) as int
            } else if r >= 3 {
                r as int
            } else {
                1
            };
            lemma_rle_small(s, i + step, b);
            let t = rle(s, i + step);
            assert forall|q: int| 0 <= q < rle(s, i).len() implies (#[trigger] rle(s, i)[q]).0 <= b
                || rle(s, i)[q].0 >= 16 by {
                if q > 0 {
                    assert(rle(s, i)[q] == t[q - 1]);
                }
            }
        } else {
            let u = used16((r - 1) as nat);
            lemma_rep16((r - 1) as nat);
            lemma_rle_small(s, i + 1 + u, b);
            let a = seq![(v as u32, 0u32)];
            let c = rep16((r - 1) as nat);
            let t = rle(s, i + 1 + u);
            assert(rle(s, i) == a + c + t);
            assert forall|q: int| 0 <= q < rle(s, i).len() implies (#[trigger] rle(s, i)[q]).0 <= b
                || rle(s, i)[q].0 >= 16 by {
                if q == 0 {
                } else if q < 1 + c.len() {
                    assert(rle(s, i)[q] == c[q - 1]);
                } else {
                    assert(rle(s, i)[q] == t[q - 1 - c.len()]);
                }
            }
        }
    }
}

/// Run-code a code-length sequence (RFC §3.2.7): returns the symbols and, for
/// each symbol, its repeat value (0 for literal lengths).
#[verifier::rlimit(40)]
pub fn encode_code_lengths(seq: &[u8]) -> (r: (Vec<u32>, Vec<u32>))
    ensures
        r.0@.len() == rle(seq@, 0).len(),
        r.1@.len() == rle(seq@, 0).len(),
        forall|k: int|
            0 <= k < rle(seq@, 0).len() ==> (#[trigger] r.0@[k], r.1@[k]) == rle(seq@, 0)[k],
{
    let ghost s = seq@;
    let n = seq.len();
    let mut syms: Vec<u32> = Vec::new();
    let mut reps: Vec<u32> = Vec::new();
    let ghost mut out: Seq<(u32, u32)> = Seq::empty();
    let mut i: usize = 0;
    while i < n
        invariant
            s == seq@,
            n == s.len(),
            i <= n,
            syms@.len() == out.len(),
            reps@.len() == out.len(),
            forall|k: int| 0 <= k < out.len() ==> (#[trigger] syms@[k], reps@[k]) == out[k],
            out + rle(s, i as int) == rle(s, 0),
        decreases n - i,
    {
        let v = seq[i];
        let mut r: usize = 1;
        while i + r < n && seq[i + r] == v
            invariant
                s == seq@,
                n == s.len(),
                i < n,
                1 <= r <= n - i,
                s[i as int] == v,
                run_eq(s, v, i as int) == r + run_eq(s, v, (i + r) as int),
            decreases n - i - r,
        {
            r = r + 1;
        }
        proof {
            lemma_run_eq_bound(s, v, i as int);
            assert(run_eq(s, v, (i + r) as int) == 0);
        }
        let ghost step_start = out;
        if v == 0 {
            if r >= 11 {
                let k: usize = if r < 138 {
                    r
                } else {
                    138
                };
                syms.push(18);
                reps.push((k - 11) as u32);
                proof {
                    lemma_push_concat(out, (18u32, (k - 11) as u32), rle(s, (i + k) as int));
                    out = out.push((18u32, (k - 11) as u32));
                }
                i = i + k;
            } else if r >= 3 {
                syms.push(17);
                reps.push((r - 3) as u32);
                proof {
                    lemma_push_concat(out, (17u32, (r - 3) as u32), rle(s, (i + r) as int));
                    out = out.push((17u32, (r - 3) as u32));
                }
                i = i + r;
            } else {
                syms.push(0);
                reps.push(0);
                proof {
                    lemma_push_concat(out, (0u32, 0u32), rle(s, (i + 1) as int));
                    out = out.push((0u32, 0u32));
                }
                i = i + 1;
            }
        } else {
            syms.push(v as u32);
            reps.push(0);
            proof {
                lemma_used16((r - 1) as nat);
                let tail = rle(s, i + 1 + used16((r - 1) as nat));
                assert(rle(s, i as int) == seq![(v as u32, 0u32)] + rep16((r - 1) as nat) + tail);
                assert(out.push((v as u32, 0u32)) + rep16((r - 1) as nat) + tail
                    =~= out + rle(s, i as int));
                out = out.push((v as u32, 0u32));
            }
            let ghost i0 = i;
            i = i + 1;
            let mut rem: usize = r - 1;
            while rem >= 4
                invariant
                    s == seq@,
                    n == s.len(),
                    i + rem <= n,
                    syms@.len() == out.len(),
                    reps@.len() == out.len(),
                    forall|k: int| 0 <= k < out.len() ==> (#[trigger] syms@[k], reps@[k]) == out[k],
                    out + rep16(rem as nat) + rle(s, i + used16(rem as nat)) == rle(s, 0),
                    i > i0,
                decreases rem,
            {
                let k: usize = if rem < 6 {
                    rem
                } else {
                    6
                };
                syms.push(16);
                reps.push((k - 3) as u32);
                let ghost before = out;
                proof {
                    lemma_used16((rem - k) as nat);
                    assert(rep16(rem as nat) == seq![(16u32, (k - 3) as u32)] + rep16((rem - k) as nat));
                    assert(out.push((16u32, (k - 3) as u32)) + rep16((rem - k) as nat) =~= before
                        + rep16(rem as nat));
                    out = out.push((16u32, (k - 3) as u32));
                }
                i = i + k;
                rem = rem - k;
            }
            proof {
                assert(rep16(rem as nat) =~= Seq::<(u32, u32)>::empty());
                assert(out + rep16(rem as nat) =~= out);
            }
        }
    }
    proof {
        assert(rle(s, i as int) =~= Seq::<(u32, u32)>::empty());
        assert(out + rle(s, i as int) =~= out);
    }
    (syms, reps)
}

/// `k` copies of `v`.
pub open spec fn fill(v: u8, k: nat) -> Seq<u8> {
    Seq::new(k, |j: int| v)
}

/// Decode a run-coded code-length sequence of `n` lengths: `syms` are the
/// code-length symbols in order; `reps` are the repeat values of the 16, 17
/// and 18 symbols, in the order those symbols appear. Runs that would pass
/// `n` lengths are cut at `n`.
pub open spec fn rl_decode(syms: Seq<u32>, reps: Seq<u32>, n: nat, acc: Seq<u8>) -> Result<
    Seq<u8>,
    InflateError,
>
    decreases n - acc.len(), syms.len(),
{
    if acc.len() >= n {
        Ok(acc)
    } else if syms.len() == 0 {
        Err(InflateError::Truncated)
    } else {
        let s = syms[0];
        if s <= 15 {
            rl_decode(syms.drop_first(), reps, n, acc.push(s as u8))
        } else if s <= 18 {
            if s == 16 && acc.len() == 0 {
                Err(InflateError::BadFormat)
            } else if reps.len() == 0 {
                Err(InflateError::Truncated)
            } else {
                let rep: nat = (reps[0] + if s == 18 {
                    11nat
                } else {
                    3nat
                }) as nat;
                let v: u8 = if s == 16 {
                    acc.last()
                } else {
                    0
                };
                let k = min_nat(rep, (n - acc.len()) as nat);
                rl_decode(syms.drop_first(), reps.drop_first(), n, acc + fill(v, k))
            }
        } else {
            Err(InflateError::BadFormat)
        }
    }
}

/// The symbols of a run-coded pair list.
pub open spec fn pair_syms(pairs: Seq<(u32, u32)>) -> Seq<u32>
    decreases pairs.len(),
{
    if pairs.len() == 0 {
        Seq::empty()
    } else {
        seq![pairs[0].0] + pair_syms(pairs.drop_first())
    }
}

/// The repeat values of the 16, 17 and 18 symbols of a pair list, in order.
pub open spec fn rep_values(pairs: Seq<(u32, u32)>) -> Seq<u32>
    decreases pairs.len(),
{
    if pairs.len() == 0 {
        Seq::empty()
    } else if pairs[0].0 >= 16 {
        seq![pairs[0].1] + rep_values(pairs.drop_first())
    } else {
        rep_values(pairs.drop_first())
    }
}

/// Pair lists concatenate symbol by symbol and repeat value by repeat value.
pub proof fn lemma_pairs_concat(a: Seq<(u32, u32)>, b: Seq<(u32, u32)>)
    ensures
        pair_syms(a + b) == pair_syms(a) + pair_syms(b),
        rep_values(a + b) == rep_values(a) + rep_values(b),
    decreases a.len(),
{
    if a.len() == 0 {
        assert(a + b =~= b);
        assert(pair_syms(a) + pair_syms(b) =~= pair_syms(b));
        assert(rep_values(a) + rep_values(b) =~= rep_values(b));
    } else {
        lemma_pairs_concat(a.drop_first(), b);
        assert((a + b).drop_first() =~= a.drop_first() + b);
        assert((a + b)[0] == a[0]);
        assert(pair_syms(a + b) =~= pair_syms(a) + pair_syms(b));
        assert(rep_values(a + b) =~= rep_values(a) + rep_values(b));
    }
}

/// One pair decoded: what the decoder adds for the pair at the front.
proof fn lemma_rl_pair(pr: (u32, u32), rest: Seq<(u32, u32)>, n: nat, acc: Seq<u8>, added: Seq<u8>)
    requires
        pr.0 <= 18,
        pr.0 <= 15 ==> added == seq![pr.0 as u8],
        pr.0 == 16 ==> acc.len() > 0 && added == fill(acc.last(), (pr.1 + 3) as nat),
        pr.0 == 17 ==> added == fill(0, (pr.1 + 3) as nat),
        pr.0 == 18 ==> added == fill(0, (pr.1 + 11) as nat),
        acc.len() + added.len() <= n,
        acc.len() < n,
    ensures
        rl_decode(pair_syms(seq![pr] + rest), rep_values(seq![pr] + rest), n, acc) == rl_decode(
            pair_syms(rest),
            rep_values(rest),
            n,
            acc + added,
        ),
{
    let ps = seq![pr] + rest;
    assert(ps[0] == pr);
    assert(ps.drop_first() =~= rest);
    let syms = pair_syms(ps);
    let reps = rep_values(ps);
    assert(syms[0] == pr.0);
    assert(syms.drop_first() =~= pair_syms(rest));
    if pr.0 >= 16 {
        assert(reps[0] == pr.1);
        assert(reps.drop_first() =~= rep_values(rest));
        assert(acc + added =~= acc + fill(if pr.0 == 16 {
            acc.last()
        } else {
            0u8
        }, added.len()));
    } else {
        assert(reps =~= rep_values(rest));
        assert(acc.push(pr.0 as u8) =~= acc + added);
    }
}

proof fn lemma_rl_rep16(s: Seq<u8>, j: int, rem: nat, rest: Seq<(u32, u32)>)
    requires
        1 <= j,
        j + rem <= s.len(),
        forall|t: int| j - 1 <= t < j + rem ==> #[trigger] s[t] == s[j - 1],
    ensures
        rl_decode(pair_syms(rep16(rem) + rest), rep_values(rep16(rem) + rest), s.len(), s.take(j))
            == rl_decode(pair_syms(rest), rep_values(rest), s.len(), s.take(j + used16(rem))),
    decreases rem,
{
    if rem >= 4 {
        let k = min_nat(rem, 6);
        let pr = (16u32, (k - 3) as u32);
        let tail = rep16((rem - k) as nat);
        assert(rep16(rem) + rest =~= seq![pr] + (tail + rest));
        assert(s.take(j).last() == s[j - 1]);
        lemma_used16((rem - k) as nat);
        lemma_rl_pair(pr, tail + rest, s.len(), s.take(j), fill(s[j - 1], k));
        assert(s.take(j) + fill(s[j - 1], k) =~= s.take(j + k));
        lemma_rl_rep16(s, j + k, (rem - k) as nat, rest);
    } else {
        assert(rep16(rem) + rest =~= rest);
    }
}

/// Run decoding undoes run coding: decoding the symbols of `rle(s, i)` and
/// their repeat values, after the first `i` lengths, gives back all of `s`.
proof fn lemma_rl_roundtrip(s: Seq<u8>, i: int)
    requires
        forall|j: int| 0 <= j < s.len() ==> #[trigger] s[j] <= 15,
        0 <= i <= s.len(),
    ensures
        rl_decode(pair_syms(rle(s, i)), rep_values(rle(s, i)), s.len(), s.take(i)) == Ok::<
            Seq<u8>,
            InflateError,
        >(s),
    decreases s.len() - i,
{
    if i == s.len() {
        assert(s.take(i) =~= s);
    } else {
        let v = s[i];
        let r = run_eq(s, v, i);
        lemma_run_eq_bound(s, v, i);
        lemma_used16((r - 1) as nat);
        if v == 0 {
            let (pr, k) = if r >= 11 {
                let k = min_nat(r, 138);
                ((18u32, (k - 11) as u32), k)
            } else if r >= 3 {
                ((17u32, (r - 3) as u32), r)
            } else {
                ((0u32, 0u32), 1nat)
            };
            let rest = rle(s, i + k);
            assert(rle(s, i) == seq![pr] + rest);
            let added = fill(0, k);
            if pr.0 == 0 {
                assert(added =~= seq![0u8]);
            }
            lemma_rl_pair(pr, rest, s.len(), s.take(i), added);
            assert(s.take(i) + added =~= s.take(i + k));
            lemma_rl_roundtrip(s, i + k);
        } else {
            let u = used16((r - 1) as nat);
            let pr = (v as u32, 0u32);
            let chunks = rep16((r - 1) as nat);
            let rest = rle(s, i + 1 + u);
            assert(rle(s, i) == seq![pr] + chunks + rest);
            assert(seq![pr] + chunks + rest =~= seq![pr] + (chunks + rest));
            lemma_rl_pair(pr, chunks + rest, s.len(), s.take(i), seq![v]);
            assert(s.take(i) + seq![v] =~= s.take(i + 1));
            lemma_rl_rep16(s, i + 1, (r - 1) as nat, rest);
            lemma_rl_roundtrip(s, i + 1 + u);
        }
    }
}

/// Decoding undoes run coding: for any code-length sequence (lengths at most
/// 15), decoding the symbols that `encode_code_lengths` gives, with the
/// repeat values of its 16, 17 and 18 symbols in order, yields the sequence
/// back.
pub proof fn law_run_coding_roundtrip(s: Seq<u8>)
    requires
        forall|j: int| 0 <= j < s.len() ==> #[trigger] s[j] <= 15,
    ensures
        rl_decode(pair_syms(rle(s, 0)), rep_values(rle(s, 0)), s.len(), Seq::empty()) == Ok::<
            Seq<u8>,
            InflateError,
        >(s),
{
    assert(s.take(0) =~= Seq::<u8>::empty());
    lemma_rl_roundtrip(s, 0);
}

/// Decode a run-coded code-length sequence of `n` lengths (the inverse of
/// `encode_code_lengths`): `syms` are the symbols, `reps` the repeat values
/// of the 16/17/18 symbols in order. Running out of either list is
/// `Truncated`; a 16 with no previous length, or a symbol above 18, is
/// `BadFormat`.
pub fn decode_code_lengths(syms: &[u32], reps: &[u32], n: usize) -> (r: Result<Vec<u8>, InflateError>)
    ensures
        match r {
            Ok(v) => rl_decode(syms@, reps@, n as nat, Seq::empty()) == Ok::<Seq<u8>, InflateError>(v@),
            Err(e) => rl_decode(syms@, reps@, n as nat, Seq::empty()) == Err::<Seq<u8>, InflateError>(e),
        },
{
    let mut lens: Vec<u8> = Vec::new();
    let mut si: usize = 0;
    let mut ri: usize = 0;
    proof {
        assert(syms@.skip(0) =~= syms@);
        assert(reps@.skip(0) =~= reps@);
    }
    while lens.len() < n
        invariant
            si <= syms@.len(),
            ri <= reps@.len(),
            lens@.len() <= n,
            rl_decode(syms@.skip(si as int), reps@.skip(ri as int), n as nat, lens@) == rl_decode(
                syms@,
                reps@,
                n as nat,
                Seq::empty(),
            ),
        decreases n - lens@.len(), syms@.len() - si,
    {
        if si >= syms.len() {
            return Err(InflateError::Truncated);
        }
        let s = syms[si];
        proof {
            assert(syms@.skip(si as int).drop_first() =~= syms@.skip(si + 1));
            assert(reps@.skip(ri as int).len() > 0 ==> reps@.skip(ri as int).drop_first()
                =~= reps@.skip(ri + 1));
        }
        if s <= 15 {
            lens.push(s as u8);
            si = si + 1;
        } else if s <= 18 {
            if s == 16 && lens.len() == 0 {
                return Err(InflateError::BadFormat);
            }
            if ri >= reps.len() {
                return Err(InflateError::Truncated);
            }
            let v: u8 = if s == 16 {
                lens[lens.len() - 1]
            } else {
                0
            };
            let rep: u64 = reps[ri] as u64 + if s == 18 {
                11
            } else {
                3
            };
            let room = n - lens.len();
            let k: usize = if rep < room as u64 {
                rep as usize
            } else {
                room
            };
            let ghost before = lens@;
            let mut t: usize = 0;
            while t < k
                invariant
                    t <= k,
                    k <= room,
                    room == n - before.len(),
                    lens@ == before + fill(v, t as nat),
                decreases k - t,
            {
                lens.push(v);
                t = t + 1;
                proof {
                    assert(lens@ =~= before + fill(v, t as nat));
                }
            }
            si = si + 1;
            ri = ri + 1;
        } else {
            return Err(InflateError::BadFormat);
        }
    }
    Ok(lens)
}

} // verus!
