//! Known-answer test battery.
//!
//! Five groups, in order:
//!
//! * **rfc1951** — the RFC's own worked examples and tables: the §3.2.2
//!   canonical-assignment example, the §3.2.6 fixed-code spot values, the
//!   §3.2.5 length/distance base+extra tables, the §3.2.7 19-symbol
//!   code-length order, the §3.2.7 run example (twelve 8s), exhaustive
//!   `length_code` / `distance_code` round-trips, and 16/17/18 run
//!   round-trips through the public encoder/decoder.
//! * **bits** — pinned bit-packing streams pinning the two element orders
//!   (LSB-first data vs MSB-first Huffman codes) and the 64-bit boundary.
//! * **blocks** — pinned single-block raw DEFLATE streams (stored and
//!   fixed), the overlapping-match semantics, the zlib container for a
//!   pinned message, and malformed-container rejection.
//! * **hash** — known Adler-32 / CRC-32 values, checked against `adler32` /
//!   `crc32`.
//! * **xval** — cross-verification against CPython's `zlib` (performed at
//!   development time; the pinned streams below are the contract): the
//!   encoder's dynamic stream must be byte-identical on every run, and
//!   CPython's fixed-block streams must decode byte-identically here.
//!
//! Every check is deterministic and pure: `run_all()` may be called any
//! number of times with the same result. The checks whose outcome follows
//! from the library's contracts are proved to pass.
use vstd::prelude::*;
use vstd::string::StringExecFns;
use crate::huff::{
    canonical_code, canonical_codes, code_start, count_len, decode_code_lengths, distance_code,
    encode_code_lengths, fixed_lit_lengths, length_code, lemma_pairs_concat,
    law_run_coding_roundtrip, pair_syms, rep_values, rle, CODE_LENGTH_ORDER, DIST_BASE,
    DIST_EXTRA, FIXED_DIST_LENGTHS, LEN_BASE, LEN_EXTRA,
};
use crate::text::{
    dec_chars, dec_digit, hex_chars, list_chars, push_char, push_dec, push_hex_fixed, push_list,
    to_hex,
};
use crate::bits::{bytes_bits, lsb_bits, pad_len, BitReader, BitWriter};
use crate::adler::{adler32, adler32_fresh};
use crate::crc32::{crc32, crc32_fresh};
use crate::deflate::{compress_zlib, container_hashes, phrases_to_bytes};
use crate::inflate::{
    decompress_raw, decompress_zlib, read_lsb, spec_inflate, spec_inflate_zlib, InflateError,
};
use crate::lzw77::{apply_phrase, expand, phrases_ok, Phrase};

verus! {

/// One battery check: its name, whether it passed, and a human-readable
/// detail line.
#[derive(Debug, Clone)]
pub struct Check {
    pub name: String,
    pub ok: bool,
    pub detail: String,
}

/// The names of the RFC 1951 group's checks, in order.
pub open spec fn rfc_names() -> Seq<Seq<char>> {
    seq![
        "rfc-canonical-example"@,
        "rfc-fixed-lit-codes"@,
        "rfc-fixed-dist-codes"@,
        "rfc-len-base-table"@,
        "rfc-len-extra-table"@,
        "rfc-dist-base-table"@,
        "rfc-dist-extra-table"@,
        "rfc-code-length-order"@,
        "rfc-length-code-roundtrip"@,
        "rfc-distance-code-roundtrip"@,
        "rfc-run-example-8x12"@,
        "rfc-repeat-17-18-runs"@,
        "run-encode-decode-roundtrip"@,
    ]
}

/// The names of the bit-packing group's checks, in order.
pub open spec fn bit_names() -> Seq<Seq<char>> {
    seq!["bit-lsb-pattern"@, "bit-huff-pattern"@, "bit-64-lsb"@, "bit-64-huff"@]
}

/// The names of the block group's checks, in order.
pub open spec fn block_names() -> Seq<Seq<char>> {
    seq![
        "stored-block-pinned"@,
        "fixed-block-pinned"@,
        "overlap-match-kat"@,
        "zlib-container-hello"@,
        "zlib-headers-rejected"@,
    ]
}

/// The name of the hash group's `n`-th check (from 1): `hash-` and `n` in
/// three decimal digits.
pub open spec fn hash_name(n: int) -> Seq<char> {
    "hash-"@ + seq![dec_digit(n / 100), dec_digit((n / 10) % 10), dec_digit(n % 10)]
}

/// The names of the hash group's checks, in order.
pub open spec fn hash_names() -> Seq<Seq<char>> {
    Seq::new(HASH_VECTOR_COUNT as nat, |i: int| hash_name(i + 1))
}

/// The names of the cross-verification group's checks, in order.
pub open spec fn cross_names() -> Seq<Seq<char>> {
    seq![
        "xval-our-dynamic-fox"@,
        "xval-cpython-fixed-fox-1"@,
        "xval-cpython-fixed-fox-6"@,
        "xval-cpython-fixed-data"@,
    ]
}

/// The names of the whole battery's checks, in order.
pub open spec fn battery_names() -> Seq<Seq<char>> {
    rfc_names() + bit_names() + block_names() + hash_names() + cross_names()
}

/// The checks `v` carry the names `names`, in order.
pub open spec fn named(v: Seq<Check>, names: Seq<Seq<char>>) -> bool {
    &&& v.len() == names.len()
    &&& forall|k: int| 0 <= k < v.len() ==> (#[trigger] v[k]).name@ == names[k]
}

fn chk(name: &str, ok: bool, detail: String) -> (c: Check)
    ensures
        c.name@ == name@,
        c.ok == ok,
        c.detail == detail,
{
    Check { name: String::from_str(name), ok, detail }
}

/// A string holding `a` and then the decimal digits of `n`.
fn text_num(a: &str, n: u64) -> (r: String)
    ensures
        r@ == a@ + dec_chars(n as nat),
{
    let mut s = String::from_str(a);
    push_dec(&mut s, n);
    s
}

/// Appends `a` and then the decimal digits of `n`.
fn push_num(s: &mut String, a: &str, n: u64)
    ensures
        final(s)@ == old(s)@ + a@ + dec_chars(n as nat),
{
    s.append(a);
    push_dec(s, n);
}

fn widen32(v: &[u32]) -> (w: Vec<u64>)
    ensures
        w@.len() == v@.len(),
        forall|i: int| 0 <= i < v@.len() ==> #[trigger] w@[i] == v@[i],
{
    let mut w: Vec<u64> = Vec::new();
    let mut i: usize = 0;
    while i < v.len()
        invariant
            i <= v@.len(),
            w@.len() == i,
            forall|j: int| 0 <= j < i ==> #[trigger] w@[j] == v@[j],
        decreases v@.len() - i,
    {
        w.push(v[i] as u64);
        i = i + 1;
    }
    w
}

fn widen8(v: &[u8]) -> (w: Vec<u64>)
    ensures
        w@.len() == v@.len(),
        forall|i: int| 0 <= i < v@.len() ==> #[trigger] w@[i] == v@[i],
{
    let mut w: Vec<u64> = Vec::new();
    let mut i: usize = 0;
    while i < v.len()
        invariant
            i <= v@.len(),
            w@.len() == i,
            forall|j: int| 0 <= j < i ==> #[trigger] w@[j] == v@[j],
        decreases v@.len() - i,
    {
        w.push(v[i] as u64);
        i = i + 1;
    }
    w
}

/// `a` and `b` hold the same values.
fn same32(a: &[u32], b: &[u32]) -> (r: bool)
    ensures
        r == (a@ == b@),
{
    if a.len() != b.len() {
        return false;
    }
    let mut i: usize = 0;
    while i < a.len()
        invariant
            a@.len() == b@.len(),
            i <= a@.len(),
            forall|j: int| 0 <= j < i ==> a@[j] == b@[j],
        decreases a@.len() - i,
    {
        if a[i] != b[i] {
            return false;
        }
        i = i + 1;
    }
    assert(a@ =~= b@);
    true
}

/// `a` and `b` hold the same bytes.
fn same8(a: &[u8], b: &[u8]) -> (r: bool)
    ensures
        r == (a@ == b@),
{
    if a.len() != b.len() {
        return false;
    }
    let mut i: usize = 0;
    while i < a.len()
        invariant
            a@.len() == b@.len(),
            i <= a@.len(),
            forall|j: int| 0 <= j < i ==> a@[j] == b@[j],
        decreases a@.len() - i,
    {
        if a[i] != b[i] {
            return false;
        }
        i = i + 1;
    }
    assert(a@ =~= b@);
    true
}

/// `n` copies of `v`.
fn repeat(v: u8, n: usize) -> (r: Vec<u8>)
    ensures
        r@ == Seq::new(n as nat, |i: int| v),
{
    let mut r: Vec<u8> = Vec::new();
    let mut i: usize = 0;
    while i < n
        invariant
            i <= n,
            r@ == Seq::new(i as nat, |j: int| v),
        decreases n - i,
    {
        r.push(v);
        i = i + 1;
        proof {
            assert(r@ =~= Seq::new(i as nat, |j: int| v));
        }
    }
    r
}

/// Decode a code-length sequence with the public decoder: the encoder's
/// symbols, and the repeat values of its 16/17/18 symbols in the order the
/// repeats appear.
fn decode_seq(seq: &[u8]) -> (r: Option<Vec<u8>>)
    requires
        forall|j: int| 0 <= j < seq@.len() ==> #[trigger] seq@[j] <= 15,
    ensures
        r matches Some(v) && v@ == seq@,
{
    let (syms, reps) = encode_code_lengths(seq);
    let ghost pr = rle(seq@, 0);
    let mut rep_vals: Vec<u32> = Vec::new();
    let mut k: usize = 0;
    proof {
        assert(pr.take(0) =~= Seq::<(u32, u32)>::empty());
    }
    while k < syms.len()
        invariant
            k <= syms@.len(),
            syms@.len() == pr.len(),
            reps@.len() == pr.len(),
            forall|q: int| 0 <= q < pr.len() ==> (#[trigger] syms@[q], reps@[q]) == pr[q],
            rep_vals@ == rep_values(pr.take(k as int)),
            syms@.take(k as int) == pair_syms(pr.take(k as int)),
        decreases syms@.len() - k,
    {
        let ghost x = pr[k as int];
        let ghost before = rep_vals@;
        proof {
            assert((syms@[k as int], reps@[k as int]) == x);
            assert(pr.take(k + 1) =~= pr.take(k as int) + seq![x]);
            lemma_pairs_concat(pr.take(k as int), seq![x]);
            assert(seq![x].drop_first() =~= Seq::<(u32, u32)>::empty());
            assert(seq![x][0] == x);
            assert(pair_syms(Seq::<(u32, u32)>::empty()) =~= Seq::<u32>::empty());
            assert(rep_values(Seq::<(u32, u32)>::empty()) =~= Seq::<u32>::empty());
            assert(pair_syms(seq![x]) =~= seq![x.0]);
            if x.0 >= 16 {
                assert(rep_values(seq![x]) =~= seq![x.1]);
            } else {
                assert(rep_values(seq![x]) =~= Seq::<u32>::empty());
            }
            assert(syms@.take(k + 1) =~= syms@.take(k as int) + seq![x.0]);
        }
        if syms[k] >= 16 {
            rep_vals.push(reps[k]);
            proof {
                assert(rep_vals@ =~= before + seq![x.1]);
            }
        } else {
            proof {
                assert(rep_vals@ =~= before + Seq::<u32>::empty());
            }
        }
        k = k + 1;
    }
    proof {
        assert(syms@.take(k as int) =~= syms@);
        assert(pr.take(k as int) =~= pr);
        law_run_coding_roundtrip(seq@);
    }
    match decode_code_lengths(syms.as_slice(), rep_vals.as_slice(), seq.len()) {
        Ok(v) => Some(v),
        Err(_) => None,
    }
}

/// The code lengths of the RFC 1951 §3.2.2 example (symbols A..H).
pub open spec fn rfc_example_lengths() -> Seq<u8> {
    seq![3u8, 3, 3, 3, 3, 2, 4, 4]
}

/// The codes the RFC assigns in that example: 010, 011, 100, 101, 110, 00,
/// 1110, 1111.
pub open spec fn rfc_example_codes() -> Seq<nat> {
    seq![2nat, 3, 4, 5, 6, 0, 14, 15]
}

proof fn lemma_rfc_canonical_example()
    ensures
        forall|i: int|
            0 <= i < 8 ==> #[trigger] canonical_code(rfc_example_lengths(), 4, i)
                == rfc_example_codes()[i],
{
    let l = rfc_example_lengths();
    reveal_with_fuel(count_len, 9);
    reveal_with_fuel(code_start, 5);
    assert(count_len(l, 1, 8) == 0);
    assert(count_len(l, 2, 8) == 1);
    assert(count_len(l, 3, 8) == 5);
    assert(code_start(l, 2) == 0);
    assert(code_start(l, 3) == 2);
    assert(code_start(l, 4) == 14);
}

/// How many of the first `k` fixed literal/length lengths are 7, 8 and 9,
/// and that no other nonzero length occurs.
pub(crate) proof fn lemma_fixed_lit_counts(lens: Seq<u8>, k: int)
    requires
        lens.len() == 288,
        forall|i: int| 0 <= i < 288 ==> #[trigger] lens[i] == crate::huff::fixed_lit_length(i),
        0 <= k <= 288,
    ensures
        count_len(lens, 7, k) == (if k <= 256 {
            0
        } else if k <= 280 {
            k - 256
        } else {
            24
        }),
        count_len(lens, 8, k) == (if k <= 144 {
            k
        } else if k <= 280 {
            144
        } else {
            k - 136
        }),
        count_len(lens, 9, k) == (if k <= 144 {
            0
        } else if k <= 256 {
            k - 144
        } else {
            112
        }),
        forall|l: int| 1 <= l <= 6 ==> #[trigger] count_len(lens, l, k) == 0,
    decreases k,
{
    if k > 0 {
        lemma_fixed_lit_counts(lens, k - 1);
        assert(lens[k - 1] == crate::huff::fixed_lit_length(k - 1));
        assert forall|l: int| 1 <= l <= 6 implies #[trigger] count_len(lens, l, k) == 0 by {
            assert(count_len(lens, l, k) == count_len(lens, l, k - 1) + if lens[k - 1] == l {
                1nat
            } else {
                0nat
            });
        }
    }
}

/// The fixed literal/length codes (RFC §3.2.6): lengths 7 from 0, 8 from
/// `0b00110000`, 9 from `0b110010000`.
pub(crate) proof fn lemma_fixed_lit_code(lens: Seq<u8>, i: int)
    requires
        lens.len() == 288,
        forall|j: int| 0 <= j < 288 ==> #[trigger] lens[j] == crate::huff::fixed_lit_length(j),
        0 <= i < 288,
    ensures
        canonical_code(lens, 9, i) == (if i < 144 {
            48 + i
        } else if i < 256 {
            400 + (i - 144)
        } else if i < 280 {
            i - 256
        } else {
            192 + (i - 280)
        }),
{
    lemma_fixed_lit_counts(lens, 288);
    lemma_fixed_lit_counts(lens, i);
    reveal_with_fuel(code_start, 10);
    assert(count_len(lens, 1, 288) == 0);
    assert(count_len(lens, 2, 288) == 0);
    assert(count_len(lens, 3, 288) == 0);
    assert(count_len(lens, 4, 288) == 0);
    assert(count_len(lens, 5, 288) == 0);
    assert(count_len(lens, 6, 288) == 0);
    assert(code_start(lens, 7) == 0);
    assert(code_start(lens, 8) == 48);
    assert(code_start(lens, 9) == 400);
    assert(lens[i] == crate::huff::fixed_lit_length(i));
}

/// Among `k` lengths of 5, `k` are 5 and none is anything else.
proof fn lemma_all_five_counts(lens: Seq<u8>, k: int)
    requires
        forall|i: int| 0 <= i < lens.len() ==> #[trigger] lens[i] == 5,
        0 <= k <= lens.len(),
    ensures
        count_len(lens, 5, k) == k,
        forall|l: int| l != 5 ==> #[trigger] count_len(lens, l, k) == 0,
    decreases k,
{
    if k > 0 {
        lemma_all_five_counts(lens, k - 1);
        assert forall|l: int| l != 5 implies #[trigger] count_len(lens, l, k) == 0 by {
            assert(count_len(lens, l, k) == count_len(lens, l, k - 1) + if lens[k - 1] == l {
                1nat
            } else {
                0nat
            });
        }
    }
}

/// The fixed distance codes are the identity: `canonical_code(lens, 5, j) == j`
/// when every length is 5.
proof fn lemma_five_codes(lens: Seq<u8>, j: int)
    requires
        forall|i: int| 0 <= i < lens.len() ==> #[trigger] lens[i] == 5,
        0 <= j < lens.len(),
    ensures
        canonical_code(lens, 5, j) == j,
{
    lemma_all_five_counts(lens, lens.len() as int);
    lemma_all_five_counts(lens, j);
    reveal_with_fuel(code_start, 6);
    assert(count_len(lens, 1, lens.len() as int) == 0);
    assert(count_len(lens, 2, lens.len() as int) == 0);
    assert(count_len(lens, 3, lens.len() as int) == 0);
    assert(count_len(lens, 4, lens.len() as int) == 0);
    assert(code_start(lens, 5) == 0);
}

/// The run coding of twelve 8s (RFC §3.2.7 example): the literal 8, then
/// repeat 6 and repeat 5.
proof fn lemma_run_example_8x12()
    ensures
        rle(Seq::new(12, |i: int| 8u8), 0) == seq![(8u32, 0u32), (16u32, 3u32), (16u32, 2u32)],
{
    let s = Seq::new(12, |i: int| 8u8);
    reveal_with_fuel(crate::huff::run_eq, 14);
    reveal_with_fuel(crate::huff::rep16, 3);
    reveal_with_fuel(crate::huff::used16, 3);
    assert(crate::huff::run_eq(s, 8, 0) == 12);
    assert(crate::huff::rep16(11) =~= seq![(16u32, 3u32), (16u32, 2u32)]);
    assert(crate::huff::used16(11) == 11);
    assert(rle(s, 12) =~= Seq::<(u32, u32)>::empty());
    assert(rle(s, 0) =~= seq![(8u32, 0u32)] + crate::huff::rep16(11) + rle(s, 12));
}

/// The run coding of a 5, nine zeros, a 7 and twenty zeros: the zero runs
/// become one 17 (repeat 6) and one 18 (repeat 9).
proof fn lemma_run_example_17_18()
    ensures
        rle(seq![5u8] + Seq::new(9, |i: int| 0u8) + seq![7u8] + Seq::new(20, |i: int| 0u8), 0)
            == seq![(5u32, 0u32), (17u32, 6u32), (7u32, 0u32), (18u32, 9u32)],
{
    let s = seq![5u8] + Seq::new(9, |i: int| 0u8) + seq![7u8] + Seq::new(20, |i: int| 0u8);
    assert(s.len() == 31);
    assert forall|i: int| 1 <= i < 10 implies s[i] == 0 by {}
    assert forall|i: int| 11 <= i < 31 implies s[i] == 0 by {}
    assert(s[0] == 5 && s[10] == 7);
    reveal_with_fuel(crate::huff::run_eq, 22);
    reveal_with_fuel(crate::huff::rep16, 2);
    reveal_with_fuel(crate::huff::used16, 2);
    assert(crate::huff::run_eq(s, 0, 11) == 20);
    assert(rle(s, 31) =~= Seq::<(u32, u32)>::empty());
    assert(rle(s, 11) =~= seq![(18u32, 9u32)]);
    assert(crate::huff::run_eq(s, 7, 10) == 1);
    assert(rle(s, 10) =~= seq![(7u32, 0u32)] + rle(s, 11));
    assert(crate::huff::run_eq(s, 0, 1) == 9);
    assert(rle(s, 1) =~= seq![(17u32, 6u32)] + rle(s, 10));
    assert(crate::huff::run_eq(s, 5, 0) == 1);
    assert(rle(s, 0) =~= seq![(5u32, 0u32)] + rle(s, 1));
}

/// The RFC 1951 group: thirteen checks, under the names `rfc_names()`, all
/// proved to pass.
#[verifier::spinoff_prover]
#[verifier::rlimit(60)]
fn rfc_kats() -> (v: Vec<Check>)
    ensures
        v@.len() == 13,
        named(v@, rfc_names()),
        forall|k: int| 0 <= k < 13 ==> (#[trigger] v@[k]).ok,
{
    let mut v: Vec<Check> = Vec::new();

    // §3.2.2 worked example: lengths (3,3,3,3,3,2,4,4) for A..H.
    let example: [u8; 8] = [3, 3, 3, 3, 3, 2, 4, 4];
    let want_codes: [u32; 8] = [2, 3, 4, 5, 6, 0, 14, 15];
    proof {
        crate::huff::lemma_lengths_fit(example@);
    }
    let codes = canonical_codes(&example, 4);
    proof {
        assert(example@ =~= rfc_example_lengths());
        lemma_rfc_canonical_example();
        assert forall|i: int| 0 <= i < 8 implies codes@[i] == want_codes@[i] by {
            assert(codes@[i] == canonical_code(rfc_example_lengths(), 4, i));
            assert(rfc_example_codes()[i] == want_codes@[i]);
        }
        assert(codes@ =~= want_codes@);
    }
    let mut d = String::from_str("A..H codes = ");
    push_list(&mut d, widen32(codes.as_slice()).as_slice());
    d.append(" (want A=010 B=011 C=100 D=101 E=110 F=00 G=1110 H=1111)");
    v.push(chk("rfc-canonical-example", same32(codes.as_slice(), &want_codes), d));

    // §3.2.6 fixed literal/length spot codes.
    let lit = fixed_lit_lengths();
    proof {
        crate::huff::lemma_lengths_fit(lit@);
    }
    let fl = canonical_codes(lit.as_slice(), 9);
    let spot: [(usize, u32); 9] = [
        (0, 0b00110000),
        (143, 0b10111111),
        (144, 0b110010000),
        (255, 0b111111111),
        (256, 0b0000000),
        (279, 0b0010111),
        (280, 0b11000000),
        (285, 0b11000101),
        (287, 0b11000111),
    ];
    proof {
        assert forall|j: int| 0 <= j < 9 implies fl@[(#[trigger] spot@[j]).0 as int] == spot@[j].1 by {
            lemma_fixed_lit_code(lit@, spot@[j].0 as int);
        }
    }
    let mut ok = true;
    let mut i: usize = 0;
    while i < 9
        invariant
            fl@.len() == 288,
            forall|j: int| 0 <= j < 9 ==> (#[trigger] spot@[j]).0 < 288,
            forall|j: int| 0 <= j < 9 ==> fl@[(#[trigger] spot@[j]).0 as int] == spot@[j].1,
            ok,
        decreases 9 - i,
    {
        let (sym, c) = spot[i];
        if fl[sym] != c {
            ok = false;
        }
        i = i + 1;
    }
    let mut d = text_num("lit0=", fl[0] as u64);
    push_num(&mut d, " lit143=", fl[143] as u64);
    push_num(&mut d, " lit144=", fl[144] as u64);
    push_num(&mut d, " lit256=", fl[256] as u64);
    push_num(&mut d, " lit285=", fl[285] as u64);
    v.push(chk("rfc-fixed-lit-codes", ok, d));

    // §3.2.6 fixed distance codes: 5-bit identity codes.
    proof {
        crate::huff::lemma_lengths_fit(FIXED_DIST_LENGTHS@);
    }
    let fd = canonical_codes(&FIXED_DIST_LENGTHS, 5);
    proof {
        let dl = FIXED_DIST_LENGTHS@;
        assert forall|j: int| 0 <= j < 30 implies #[trigger] fd@[j] == j by {
            lemma_five_codes(dl, j);
        }
    }
    let mut ok = true;
    let mut i: usize = 0;
    while i < 30
        invariant
            fd@.len() == 30,
            forall|j: int| 0 <= j < 30 ==> #[trigger] fd@[j] == j,
            ok,
        decreases 30 - i,
    {
        if fd[i] != i as u32 {
            ok = false;
        }
        i = i + 1;
    }
    let mut d = String::from_str("dist codes = identity over 0..29 (first 8: ");
    push_list(&mut d, widen32(vstd::slice::slice_subrange(fd.as_slice(), 0, 8)).as_slice());
    d.append(")");
    v.push(chk("rfc-fixed-dist-codes", ok, d));

    let want_len_base: [u32; 29] = [
        3, 4, 5, 6, 7, 8, 9, 10, 11, 13, 15, 17, 19, 23, 27, 31, 35, 43, 51, 59, 67, 83, 99, 115, 131,
        163, 195, 227, 258,
    ];
    let mut d = text_num("29 length bases, 3..258 (", 29);
    d.append(")");
    v.push(chk("rfc-len-base-table", same32(&LEN_BASE, &want_len_base), d));

    let want_len_extra: [u32; 29] = [
        0, 0, 0, 0, 0, 0, 0, 0, 1, 1, 1, 1, 2, 2, 2, 2, 3, 3, 3, 3, 4, 4, 4, 4, 5, 5, 5, 5, 0,
    ];
    v.push(
        chk(
            "rfc-len-extra-table",
            same32(&LEN_EXTRA, &want_len_extra),
            String::from_str("29 length extra counts (codes 277-280 use 4, 281-284 use 5)"),
        ),
    );

    let want_dist_base: [u32; 30] = [
        1, 2, 3, 4, 5, 7, 9, 13, 17, 25, 33, 49, 65, 97, 129, 193, 257, 385, 513, 769, 1025, 1537,
        2049, 3073, 4097, 6145, 8193, 12289, 16385, 24577,
    ];
    let mut d = text_num("30 distance bases, 1..32768 (", 30);
    d.append(")");
    v.push(chk("rfc-dist-base-table", same32(&DIST_BASE, &want_dist_base), d));

    let want_dist_extra: [u32; 30] = [
        0, 0, 0, 0, 1, 1, 2, 2, 3, 3, 4, 4, 5, 5, 6, 6, 7, 7, 8, 8, 9, 9, 10, 10, 11, 11, 12, 12, 13,
        13,
    ];
    v.push(
        chk(
            "rfc-dist-extra-table",
            same32(&DIST_EXTRA, &want_dist_extra),
            String::from_str("30 distance extra counts (codes 28-29 use 13)"),
        ),
    );

    let want_order: [u8; 19] = [16, 17, 18, 0, 8, 7, 9, 6, 10, 5, 11, 4, 12, 3, 13, 2, 14, 1, 15];
    let mut d = String::from_str("19-symbol on-the-wire order = ");
    push_list(&mut d, widen8(&CODE_LENGTH_ORDER).as_slice());
    v.push(chk("rfc-code-length-order", same8(&CODE_LENGTH_ORDER, &want_order), d));

    // Exhaustive length-code round-trip (3..=258).
    let mut first_bad: Option<u32> = None;
    let mut len: u32 = 3;
    while len <= 258
        invariant
            3 <= len <= 259,
            first_bad is None,
        decreases 259 - len,
    {
        let (lc, extra) = length_code(len);
        proof {
            crate::huff::lemma_len_extra_bound(lc as int);
            vstd::arithmetic::power2::lemma2_to64();
        }
        let e = LEN_EXTRA[lc as usize];
        assert((1u32 << e) == vstd::arithmetic::power2::pow2(e as nat)) by {
            vstd::bits::lemma_u32_shl_is_mul(1, e);
            vstd::arithmetic::power2::lemma_pow2(e as nat);
        }
        if LEN_BASE[lc as usize] + extra != len || extra >= 1u32 << e {
            first_bad = Some(len);
        }
        len = len + 1;
    }
    let mut d = String::from_str("256 lengths, first bad = ");
    match first_bad {
        Some(x) => push_dec(&mut d, x as u64),
        None => d.append("none"),
    }
    v.push(chk("rfc-length-code-roundtrip", first_bad.is_none(), d));

    // Exhaustive distance-code round-trip (1..=32768).
    let mut first_bad: Option<u32> = None;
    let mut dist: u32 = 1;
    while dist <= 32768
        invariant
            1 <= dist <= 32769,
            first_bad is None,
        decreases 32769 - dist,
    {
        let (dc, extra) = distance_code(dist);
        proof {
            crate::huff::lemma_dist_extra_bound(dc as int);
            vstd::arithmetic::power2::lemma2_to64();
        }
        let e = DIST_EXTRA[dc as usize];
        assert((1u32 << e) == vstd::arithmetic::power2::pow2(e as nat)) by {
            vstd::bits::lemma_u32_shl_is_mul(1, e);
            vstd::arithmetic::power2::lemma_pow2(e as nat);
        }
        if DIST_BASE[dc as usize] + extra != dist || extra >= 1u32 << e {
            first_bad = Some(dist);
        }
        dist = dist + 1;
    }
    let mut d = String::from_str("32768 distances, first bad = ");
    match first_bad {
        Some(x) => push_dec(&mut d, x as u64),
        None => d.append("none"),
    }
    v.push(chk("rfc-distance-code-roundtrip", first_bad.is_none(), d));

    // §3.2.7 run example: twelve 8s -> literal, then two 16-runs.
    let twelve = repeat(8, 12);
    let (syms, reps) = encode_code_lengths(twelve.as_slice());
    let want_s: [u32; 3] = [8, 16, 16];
    let want_r: [u32; 3] = [0, 3, 2];
    proof {
        assert(twelve@ =~= Seq::new(12, |i: int| 8u8));
        lemma_run_example_8x12();
        let r = rle(twelve@, 0);
        assert forall|k: int| 0 <= k < 3 implies syms@[k] == want_s@[k] && reps@[k] == want_r@[k] by {
            assert((syms@[k], reps@[k]) == r[k]);
        }
        assert(syms@ =~= want_s@);
        assert(reps@ =~= want_r@);
    }
    let mut d = String::from_str("syms = ");
    push_list(&mut d, widen32(syms.as_slice()).as_slice());
    d.append(" reps = ");
    push_list(&mut d, widen32(reps.as_slice()).as_slice());
    v.push(
        chk(
            "rfc-run-example-8x12",
            same32(syms.as_slice(), &want_s) && same32(reps.as_slice(), &want_r),
            d,
        ),
    );

    // 17/18 runs: 9 zeros -> one 17; 20 zeros -> one 18.
    let mut seq: Vec<u8> = vec![5];
    let mut z9 = repeat(0, 9);
    seq.append(&mut z9);
    seq.push(7);
    let mut z20 = repeat(0, 20);
    seq.append(&mut z20);
    let (syms, reps) = encode_code_lengths(seq.as_slice());
    let want_s: [u32; 4] = [5, 17, 7, 18];
    let want_r: [u32; 4] = [0, 6, 0, 9];
    proof {
        assert(seq@ =~= seq![5u8] + Seq::new(9, |i: int| 0u8) + seq![7u8] + Seq::new(
            20,
            |i: int| 0u8,
        ));
        lemma_run_example_17_18();
        let r = rle(seq@, 0);
        assert forall|k: int| 0 <= k < 4 implies syms@[k] == want_s@[k] && reps@[k] == want_r@[k] by {
            assert((syms@[k], reps@[k]) == r[k]);
        }
        assert(syms@ =~= want_s@);
        assert(reps@ =~= want_r@);
    }
    let mut d = String::from_str("syms = ");
    push_list(&mut d, widen32(syms.as_slice()).as_slice());
    d.append(" reps = ");
    push_list(&mut d, widen32(reps.as_slice()).as_slice());
    v.push(
        chk(
            "rfc-repeat-17-18-runs",
            same32(syms.as_slice(), &want_s) && same32(reps.as_slice(), &want_r),
            d,
        ),
    );

    // Encode/decode round-trips through the public decoder.
    let a = repeat(8, 12);
    let b = repeat(9, 30);
    let c = repeat(0, 200);
    let e: Vec<u8> = vec![3, 3, 4, 0, 0, 0, 0, 0, 0, 0, 0, 5, 5, 5, 5, 5, 5, 6];
    let seqs: Vec<Vec<u8>> = vec![a, b, c, e];
    let mut all_ok = true;
    let mut i: usize = 0;
    while i < seqs.len()
        invariant
            i <= seqs@.len(),
            seqs@.len() == 4,
            forall|q: int, j: int|
                0 <= q < 4 && 0 <= j < seqs@[q]@.len() ==> #[trigger] seqs@[q]@[j] <= 15,
            all_ok,
        decreases seqs@.len() - i,
    {
        let got = decode_seq(seqs[i].as_slice());
        let same = match &got {
            Some(g) => same8(g.as_slice(), seqs[i].as_slice()),
            None => false,
        };
        if !same {
            all_ok = false;
            break;
        }
        i = i + 1;
    }
    v.push(
        chk(
            "run-encode-decode-roundtrip",
            all_ok,
            String::from_str("4 synthetic sequences (..ok symbols)"),
        ),
    );
    proof {
        assert forall|k: int| 0 <= k < 13 implies (#[trigger] v@[k]).ok by {
            if k == 0 {} else if k == 1 {} else if k == 2 {} else if k == 3 {} else if k == 4 {}
            else if k == 5 {} else if k == 6 {} else if k == 7 {} else if k == 8 {}
            else if k == 9 {} else if k == 10 {} else if k == 11 {} else {}
        }
    }
    v
}

// ------------------------------------------------------------------
// Bit-packing group
// ------------------------------------------------------------------

/// Appends `a` and then the bytes as hex.
fn push_hex_bytes(s: &mut String, a: &str, b: &[u8])
    ensures
        final(s)@ == old(s)@ + a@ + hex_chars(b@),
{
    s.append(a);
    let h = to_hex(b);
    s.append(h.as_str());
}

/// A byte is fixed by its eight bits.
pub(crate) proof fn lemma_byte_of_bits(x: u8, y: u8)
    requires
        crate::bits::byte_bits(x) == crate::bits::byte_bits(y),
    ensures
        x == y,
{
    let bx = crate::bits::byte_bits(x);
    let by = crate::bits::byte_bits(y);
    assert(bx[0] == by[0] && bx[1] == by[1] && bx[2] == by[2] && bx[3] == by[3]);
    assert(bx[4] == by[4] && bx[5] == by[5] && bx[6] == by[6] && bx[7] == by[7]);
    let a = x as u64;
    let b = y as u64;
    assert(a == b) by (bit_vector)
        requires
            a < 256,
            b < 256,
            ((a >> 0u64) & 1 == 1) == ((b >> 0u64) & 1 == 1),
            ((a >> 1u64) & 1 == 1) == ((b >> 1u64) & 1 == 1),
            ((a >> 2u64) & 1 == 1) == ((b >> 2u64) & 1 == 1),
            ((a >> 3u64) & 1 == 1) == ((b >> 3u64) & 1 == 1),
            ((a >> 4u64) & 1 == 1) == ((b >> 4u64) & 1 == 1),
            ((a >> 5u64) & 1 == 1) == ((b >> 5u64) & 1 == 1),
            ((a >> 6u64) & 1 == 1) == ((b >> 6u64) & 1 == 1),
            ((a >> 7u64) & 1 == 1) == ((b >> 7u64) & 1 == 1),
    ;
}

/// A one-byte stream reads back as its byte.
proof fn lemma_one_byte(s: Seq<u8>, want: u8)
    requires
        s.len() == 1,
        bytes_bits(s) == crate::bits::byte_bits(want),
    ensures
        s == seq![want],
{
    assert(s.drop_last() =~= Seq::<u8>::empty());
    assert(bytes_bits(s.drop_last()) =~= Seq::<bool>::empty());
    assert(bytes_bits(s) =~= crate::bits::byte_bits(s[0]));
    lemma_byte_of_bits(s[0], want);
    assert(s =~= seq![want]);
}

/// The bit-packing group: four checks under the names `bit_names()`; the
/// two single-byte patterns are proved to come out as pinned.
fn bit_kats() -> (v: Vec<Check>)
    ensures
        v@.len() == 4,
        named(v@, bit_names()),
        v@[0].ok,
        v@[1].ok,
{
    let mut v: Vec<Check> = Vec::new();

    // LSB-first pattern: 0b110 (3 bits) + 0b1010 (4 bits) + 1 (1 bit).
    // Stream bits: 0,1,1 | 0,1,0,1 | 1  -> byte 0b01101011 reversed = 0xD6.
    let mut w = BitWriter::new();
    w.push_lsb(0b110, 3);
    w.push_lsb(0b1010, 4);
    w.push_lsb(1, 1);
    let ghost wb = w.bits();
    let out = w.finish();
    let want1: [u8; 1] = [0xD6];
    proof {
        assert(wb =~= lsb_bits(0b110, 3) + lsb_bits(0b1010, 4) + lsb_bits(1, 1));
        assert(((6u64 >> 0u64) & 1 == 1) == ((0xD6u64 >> 0u64) & 1 == 1) && ((6u64 >> 1u64) & 1
            == 1) == ((0xD6u64 >> 1u64) & 1 == 1) && ((6u64 >> 2u64) & 1 == 1) == ((0xD6u64
            >> 2u64) & 1 == 1) && ((10u64 >> 0u64) & 1 == 1) == ((0xD6u64 >> 3u64) & 1 == 1) && ((
        10u64 >> 1u64) & 1 == 1) == ((0xD6u64 >> 4u64) & 1 == 1) && ((10u64 >> 2u64) & 1 == 1)
            == ((0xD6u64 >> 5u64) & 1 == 1) && ((10u64 >> 3u64) & 1 == 1) == ((0xD6u64 >> 6u64) & 1
            == 1) && ((1u64 >> 0u64) & 1 == 1) == ((0xD6u64 >> 7u64) & 1 == 1)) by (bit_vector);
        assert(lsb_bits(0b110, 3) + lsb_bits(0b1010, 4) + lsb_bits(1, 1) =~= crate::bits::byte_bits(
            0xD6,
        ));
        assert(pad_len(8) == 0);
        assert(wb + crate::bits::zero_bits(0) =~= wb);
        lemma_one_byte(out@, 0xD6);
        assert(out@ =~= want1@);
    }
    let mut d = String::new();
    push_hex_bytes(&mut d, "lsb(0b110)+lsb(0b1010)+lsb(1) = ", out.as_slice());
    d.append(" (want 0xd6)");
    v.push(chk("bit-lsb-pattern", same8(out.as_slice(), &want1), d));

    // Same values, MSB-first (Huffman) order: bits 1,1,0 | 1,0,1,0 | 1
    // -> LSB-first byte 0b01011011 = 0xAB (bits reversed within the byte
    // relative to the code order).
    let mut w = BitWriter::new();
    w.push_huff(0b110, 3);
    w.push_huff(0b1010, 4);
    w.push_huff(1, 1);
    let ghost wb = w.bits();
    let out = w.finish();
    let want2: [u8; 1] = [0xAB];
    proof {
        assert(wb =~= crate::bits::msb_bits(0b110, 3) + crate::bits::msb_bits(0b1010, 4)
            + crate::bits::msb_bits(1, 1));
        assert(((6u64 >> 2u64) & 1 == 1) == ((0xABu64 >> 0u64) & 1 == 1) && ((6u64 >> 1u64) & 1
            == 1) == ((0xABu64 >> 1u64) & 1 == 1) && ((6u64 >> 0u64) & 1 == 1) == ((0xABu64
            >> 2u64) & 1 == 1) && ((10u64 >> 3u64) & 1 == 1) == ((0xABu64 >> 3u64) & 1 == 1) && ((
        10u64 >> 2u64) & 1 == 1) == ((0xABu64 >> 4u64) & 1 == 1) && ((10u64 >> 1u64) & 1 == 1)
            == ((0xABu64 >> 5u64) & 1 == 1) && ((10u64 >> 0u64) & 1 == 1) == ((0xABu64 >> 6u64) & 1
            == 1) && ((1u64 >> 0u64) & 1 == 1) == ((0xABu64 >> 7u64) & 1 == 1)) by (bit_vector);
        assert(wb =~= crate::bits::byte_bits(0xAB));
        assert(pad_len(8) == 0);
        assert(wb + crate::bits::zero_bits(0) =~= wb);
        lemma_one_byte(out@, 0xAB);
        assert(out@ =~= want2@);
    }
    let mut d = String::new();
    push_hex_bytes(&mut d, "huff(0b110)+huff(0b1010)+huff(1) = ", out.as_slice());
    d.append(" (want 0xab)");
    v.push(chk("bit-huff-pattern", same8(out.as_slice(), &want2), d));

    // 64-bit LSB element: byte order must be little-endian.
    let val: u64 = 0xDEAD_BEEF_CAFE_1234;
    let mut w = BitWriter::new();
    w.push_lsb(val, 64);
    let out = w.finish();
    let want: [u8; 8] = [0x34, 0x12, 0xFE, 0xCA, 0xEF, 0xBE, 0xAD, 0xDE];
    proof {
        assert(pad_len(64) == 0);
    }
    let mut r = BitReader::new(out.as_slice());
    let back: u64 = match r.next_lsb(64) {
        Ok(x) => x,
        Err(_) => u64::MAX,
    };
    let mut d = String::new();
    push_hex_bytes(&mut d, "lsb64(0xdeadbeefcafe1234) = ", out.as_slice());
    d.append(", read back = 0x");
    push_hex_fixed(&mut d, back, 16);
    v.push(chk("bit-64-lsb", same8(out.as_slice(), &want) && back == val, d));

    // 64-bit MSB element: each output byte is the 8 code bits with the
    // bit order reversed within the byte (LSB-first packing of MSB-first
    // codes).
    let mut w = BitWriter::new();
    w.push_huff((val >> 32) as u32, 32);
    w.push_huff((val & 0xFFFF_FFFF) as u32, 32);
    let out = w.finish();
    let want: [u8; 8] = [0x7B, 0xB5, 0x7D, 0xF7, 0x53, 0x7F, 0x48, 0x2C];
    let mut r = BitReader::new(out.as_slice());
    let hi: u64 = match r.next_huff(32) {
        Ok(x) => x as u64,
        Err(_) => u32::MAX as u64,
    };
    let lo: u64 = match r.next_huff(32) {
        Ok(x) => x as u64,
        Err(_) => u32::MAX as u64,
    };
    let back = (hi << 32u64) | lo;
    let mut d = String::new();
    push_hex_bytes(&mut d, "huff64(0xdeadbeefcafe1234) = ", out.as_slice());
    d.append(", read back = 0x");
    push_hex_fixed(&mut d, back, 16);
    v.push(chk("bit-64-huff", same8(out.as_slice(), &want) && back == val, d));
    v
}

// ------------------------------------------------------------------
// Block / container group
// ------------------------------------------------------------------

/// The name of a decode error.
pub open spec fn spec_error_name(e: InflateError) -> &'static str {
    match e {
        InflateError::Truncated => "Truncated",
        InflateError::BadFormat => "BadFormat",
        InflateError::ChecksumMismatch => "ChecksumMismatch",
    }
}

/// A decode result as text: `Ok([..])` with the bytes in decimal, or
/// `Err(Name)`, with the name in quotes when `quoted`.
pub open spec fn result_text(r: Result<Vec<u8>, InflateError>, quoted: bool) -> Seq<char> {
    match r {
        Ok(v) => "Ok("@ + list_chars(Seq::new(v@.len(), |i: int| v@[i] as nat)) + ")"@,
        Err(e) => if quoted {
            "Err(\""@ + spec_error_name(e)@ + "\")"@
        } else {
            "Err("@ + spec_error_name(e)@ + ")"@
        },
    }
}

/// The name of a decode error.
fn error_name(e: &InflateError) -> (r: &'static str)
    ensures
        r == spec_error_name(*e),
{
    match e {
        InflateError::Truncated => "Truncated",
        InflateError::BadFormat => "BadFormat",
        InflateError::ChecksumMismatch => "ChecksumMismatch",
    }
}

/// Appends a decode result as `Ok([..])` or `Err(Name)`; `quoted` puts the
/// error name in quotes.
fn push_result(s: &mut String, r: &Result<Vec<u8>, InflateError>, quoted: bool)
    ensures
        final(s)@ == old(s)@ + result_text(*r, quoted),
{
    let ghost s0 = s@;
    match r {
        Ok(v) => {
            s.append("Ok(");
            let w = widen8(v.as_slice());
            push_list(s, w.as_slice());
            s.append(")");
            proof {
                assert(Seq::new(w@.len(), |i: int| w@[i] as nat) =~= Seq::new(
                    v@.len(),
                    |i: int| v@[i] as nat,
                ));
                assert(s@ =~= s0 + result_text(*r, quoted));
            }
        },
        Err(e) => {
            s.append(if quoted {
                "Err(\""
            } else {
                "Err("
            });
            s.append(error_name(e));
            s.append(if quoted {
                "\")"
            } else {
                ")"
            });
            proof {
                assert(s@ =~= s0 + result_text(*r, quoted));
            }
        },
    }
}

/// The result holds exactly `want`.
fn result_is(r: &Result<Vec<u8>, InflateError>, want: &[u8]) -> (b: bool)
    ensures
        b == (r matches Ok(v) && v@ == want@),
{
    match r {
        Ok(v) => same8(v.as_slice(), want),
        Err(_) => false,
    }
}

/// Decode a zlib stream whose bit count fits the machine word; a longer
/// one cannot be addressed bit by bit and counts as truncated.
fn decode_zlib(z: &[u8]) -> (r: Result<Vec<u8>, InflateError>)
    ensures
        8 * z@.len() <= usize::MAX ==> match r {
            Ok(v) => spec_inflate_zlib(z@) == Ok::<Seq<u8>, InflateError>(v@),
            Err(e) => spec_inflate_zlib(z@) == Err::<Seq<u8>, InflateError>(e),
        },
{
    if z.len() > usize::MAX / 8 {
        Err(InflateError::Truncated)
    } else {
        decompress_zlib(z)
    }
}

/// A container too short, with a bad header, or with a failing body is
/// refused.
proof fn lemma_headers_refused()
    ensures
        spec_inflate_zlib(seq![0x78u8, 0x01, 0x00, 0x00, 0x00, 0x00]) is Err,
        spec_inflate_zlib(seq![0x08u8, 0x9C, 0x00, 0x00, 0x00, 0x00]) is Err,
        spec_inflate_zlib(seq![0x78u8, 0x20, 0x00, 0x00, 0x00, 0x00]) is Err,
        spec_inflate_zlib(seq![0x78u8, 0x9c]) is Err,
{
    let a = seq![0x78u8, 0x01, 0x00, 0x00, 0x00, 0x00];
    assert(0x78u8 & 0x0F == 8 && 0x01u8 & 0x20 == 0 && 0x20u8 & 0x20 != 0 && 0x08u8 & 0x0F == 8)
        by (bit_vector);
    assert(a.subrange(2, 2) =~= Seq::<u8>::empty());
    assert(bytes_bits(Seq::<u8>::empty()).len() == 0);
    assert(read_lsb(bytes_bits(Seq::<u8>::empty()), 0, 1) is None);
    assert(spec_inflate(Seq::<u8>::empty()) is Err);
}

/// The low 16 bits of `lo + 256 * hi` are the bits of `lo`, then of `hi`.
pub(crate) proof fn lemma_bit_of_u16(v: u64, lo: u8, hi: u8, k: nat)
    requires
        v == lo + 256 * hi,
        k < 16,
    ensures
        crate::bits::bit_of(v, k) == if k < 8 {
            crate::bits::bit_of(lo as u64, k)
        } else {
            crate::bits::bit_of(hi as u64, (k - 8) as nat)
        },
{
    vstd::arithmetic::power2::lemma2_to64();
    crate::bits::lemma_bit_of_value(v, k);
    if k < 8 {
        crate::bits::lemma_bit_of_value(lo as u64, k);
    } else {
        crate::bits::lemma_bit_of_value(hi as u64, (k - 8) as nat);
    }
    let l = lo as int;
    let h = hi as int;
    if k == 0 {
        assert(((l + 256 * h) / 1) % 2 == (l / 1) % 2) by (nonlinear_arith)
            requires
                0 <= l < 256,
                0 <= h < 256,
        ;
    } else if k == 1 {
        assert(((l + 256 * h) / 2) % 2 == (l / 2) % 2) by (nonlinear_arith)
            requires
                0 <= l < 256,
                0 <= h < 256,
        ;
    } else if k == 2 {
        assert(((l + 256 * h) / 4) % 2 == (l / 4) % 2) by (nonlinear_arith)
            requires
                0 <= l < 256,
                0 <= h < 256,
        ;
    } else if k == 3 {
        assert(((l + 256 * h) / 8) % 2 == (l / 8) % 2) by (nonlinear_arith)
            requires
                0 <= l < 256,
                0 <= h < 256,
        ;
    } else if k == 4 {
        assert(((l + 256 * h) / 16) % 2 == (l / 16) % 2) by (nonlinear_arith)
            requires
                0 <= l < 256,
                0 <= h < 256,
        ;
    } else if k == 5 {
        assert(((l + 256 * h) / 32) % 2 == (l / 32) % 2) by (nonlinear_arith)
            requires
                0 <= l < 256,
                0 <= h < 256,
        ;
    } else if k == 6 {
        assert(((l + 256 * h) / 64) % 2 == (l / 64) % 2) by (nonlinear_arith)
            requires
                0 <= l < 256,
                0 <= h < 256,
        ;
    } else if k == 7 {
        assert(((l + 256 * h) / 128) % 2 == (l / 128) % 2) by (nonlinear_arith)
            requires
                0 <= l < 256,
                0 <= h < 256,
        ;
    } else if k == 8 {
        assert(((l + 256 * h) / 256) % 2 == (h / 1) % 2) by (nonlinear_arith)
            requires
                0 <= l < 256,
                0 <= h < 256,
        ;
    } else if k == 9 {
        assert(((l + 256 * h) / 512) % 2 == (h / 2) % 2) by (nonlinear_arith)
            requires
                0 <= l < 256,
                0 <= h < 256,
        ;
    } else if k == 10 {
        assert(((l + 256 * h) / 1024) % 2 == (h / 4) % 2) by (nonlinear_arith)
            requires
                0 <= l < 256,
                0 <= h < 256,
        ;
    } else if k == 11 {
        assert(((l + 256 * h) / 2048) % 2 == (h / 8) % 2) by (nonlinear_arith)
            requires
                0 <= l < 256,
                0 <= h < 256,
        ;
    } else if k == 12 {
        assert(((l + 256 * h) / 4096) % 2 == (h / 16) % 2) by (nonlinear_arith)
            requires
                0 <= l < 256,
                0 <= h < 256,
        ;
    } else if k == 13 {
        assert(((l + 256 * h) / 8192) % 2 == (h / 32) % 2) by (nonlinear_arith)
            requires
                0 <= l < 256,
                0 <= h < 256,
        ;
    } else if k == 14 {
        assert(((l + 256 * h) / 16384) % 2 == (h / 64) % 2) by (nonlinear_arith)
            requires
                0 <= l < 256,
                0 <= h < 256,
        ;
    } else {
        assert(((l + 256 * h) / 32768) % 2 == (h / 128) % 2) by (nonlinear_arith)
            requires
                0 <= l < 256,
                0 <= h < 256,
        ;
    }
}

/// The pinned stored block `01 03 00 fc ff 41 42 43` decodes to `ABC`.
proof fn lemma_stored_pinned(data: Seq<u8>)
    requires
        data == seq![0x01u8, 0x03, 0x00, 0xFC, 0xFF, 0x41, 0x42, 0x43],
    ensures
        spec_inflate(data) == Ok::<Seq<u8>, InflateError>(seq![0x41u8, 0x42, 0x43]),
{
    let abc = seq![0x41u8, 0x42, 0x43];
    let wb = crate::deflate::block_header(1, 0) + crate::deflate::stored_body(3, abc);
    let bb = bytes_bits(data);
    crate::bits::lemma_bytes_bits_len(data);
    crate::bits::lemma_bytes_bits_len(abc);
    assert(pad_len(3) == 5);
    crate::bits::lemma_complement16(3, 0);
    assert(wb.len() == 64);
    let h = crate::deflate::block_header(1, 0);
    let len16 = lsb_bits(3, 16);
    let nlen16 = lsb_bits(0xFFFC, 16);
    assert(wb =~= h + crate::bits::zero_bits(5) + len16 + nlen16 + bytes_bits(abc));
    assert forall|i: int| 0 <= i < 8 implies #[trigger] bb[i] == wb[i] by {
        crate::bits::lemma_bytes_bits_index(data, 0, i);
        crate::bits::lemma_bit_of_value(1, i as nat);
        vstd::arithmetic::power2::lemma2_to64();
        if i < 3 {
            crate::bits::lemma_bit_of_value(0, 0);
            crate::bits::lemma_bit_of_value(0, 1);
            assert(h[0] == crate::bits::bit_of(1, 0));
            assert(h[1] == crate::bits::bit_of(0, 0));
            assert(h[2] == crate::bits::bit_of(0, 1));
        }
        if i == 0 {} else if i == 1 {} else if i == 2 {} else if i == 3 {} else if i == 4 {}
        else if i == 5 {} else if i == 6 {} else {}
    }
    assert forall|i: int| 8 <= i < 24 implies #[trigger] bb[i] == wb[i] by {
        let j = i / 8;
        let t = i % 8;
        crate::bits::lemma_bytes_bits_index(data, j, t);
        lemma_bit_of_u16(3, 3, 0, (i - 8) as nat);
        assert(wb[i] == len16[i - 8]);
    }
    assert forall|i: int| 24 <= i < 40 implies #[trigger] bb[i] == wb[i] by {
        let j = i / 8;
        let t = i % 8;
        crate::bits::lemma_bytes_bits_index(data, j, t);
        lemma_bit_of_u16(0xFFFC, 0xFC, 0xFF, (i - 24) as nat);
        assert(wb[i] == nlen16[i - 24]);
    }
    assert forall|i: int| 40 <= i < 64 implies #[trigger] bb[i] == wb[i] by {
        let j = i / 8;
        let t = i % 8;
        crate::bits::lemma_bytes_bits_index(data, j, t);
        crate::bits::lemma_bytes_bits_index(abc, j - 5, t);
        assert(wb[i] == bytes_bits(abc)[i - 40]);
    }
    assert(bb =~= wb);
    crate::roundtrip::lemma_stored_decodes(0, 1, Seq::empty(), abc);
    assert(Seq::<u8>::empty() + abc =~= abc);
    let poss = seq![0nat, 64nat];
    let outs = seq![Seq::<u8>::empty(), abc];
    assert(bb.subrange(0, 64) =~= wb);
    crate::roundtrip::lemma_blocks_chain(data, poss, outs, 0, 8 * data.len() + 1);
}

/// The eight low bits of 75.
proof fn lemma_bits_75()
    ensures
        crate::bits::bit_of(75, 0) == true,
        crate::bits::bit_of(75, 1) == true,
        crate::bits::bit_of(75, 2) == false,
        crate::bits::bit_of(75, 3) == true,
        crate::bits::bit_of(75, 4) == false,
        crate::bits::bit_of(75, 5) == false,
        crate::bits::bit_of(75, 6) == true,
        crate::bits::bit_of(75, 7) == false,
{
    vstd::arithmetic::power2::lemma2_to64();
    crate::bits::lemma_bit_of_value(75, 0);
    assert(75nat / 1 == 75);
    crate::bits::lemma_bit_of_value(75, 1);
    assert(75nat / 2 == 37);
    crate::bits::lemma_bit_of_value(75, 2);
    assert(75nat / 4 == 18);
    crate::bits::lemma_bit_of_value(75, 3);
    assert(75nat / 8 == 9);
    crate::bits::lemma_bit_of_value(75, 4);
    assert(75nat / 16 == 4);
    crate::bits::lemma_bit_of_value(75, 5);
    assert(75nat / 32 == 2);
    crate::bits::lemma_bit_of_value(75, 6);
    assert(75nat / 64 == 1);
    crate::bits::lemma_bit_of_value(75, 7);
    assert(75nat / 128 == 0);
}

/// The eight low bits of 4.
proof fn lemma_bits_4()
    ensures
        crate::bits::bit_of(4, 0) == false,
        crate::bits::bit_of(4, 1) == false,
        crate::bits::bit_of(4, 2) == true,
        crate::bits::bit_of(4, 3) == false,
        crate::bits::bit_of(4, 4) == false,
        crate::bits::bit_of(4, 5) == false,
        crate::bits::bit_of(4, 6) == false,
        crate::bits::bit_of(4, 7) == false,
{
    vstd::arithmetic::power2::lemma2_to64();
    crate::bits::lemma_bit_of_value(4, 0);
    assert(4nat / 1 == 4);
    crate::bits::lemma_bit_of_value(4, 1);
    assert(4nat / 2 == 2);
    crate::bits::lemma_bit_of_value(4, 2);
    assert(4nat / 4 == 1);
    crate::bits::lemma_bit_of_value(4, 3);
    assert(4nat / 8 == 0);
    crate::bits::lemma_bit_of_value(4, 4);
    assert(4nat / 16 == 0);
    crate::bits::lemma_bit_of_value(4, 5);
    assert(4nat / 32 == 0);
    crate::bits::lemma_bit_of_value(4, 6);
    assert(4nat / 64 == 0);
    crate::bits::lemma_bit_of_value(4, 7);
    assert(4nat / 128 == 0);
}

/// The eight low bits of 0.
proof fn lemma_bits_0()
    ensures
        crate::bits::bit_of(0, 0) == false,
        crate::bits::bit_of(0, 1) == false,
        crate::bits::bit_of(0, 2) == false,
        crate::bits::bit_of(0, 3) == false,
        crate::bits::bit_of(0, 4) == false,
        crate::bits::bit_of(0, 5) == false,
        crate::bits::bit_of(0, 6) == false,
        crate::bits::bit_of(0, 7) == false,
{
    vstd::arithmetic::power2::lemma2_to64();
    crate::bits::lemma_bit_of_value(0, 0);
    assert(0nat / 1 == 0);
    crate::bits::lemma_bit_of_value(0, 1);
    assert(0nat / 2 == 0);
    crate::bits::lemma_bit_of_value(0, 2);
    assert(0nat / 4 == 0);
    crate::bits::lemma_bit_of_value(0, 3);
    assert(0nat / 8 == 0);
    crate::bits::lemma_bit_of_value(0, 4);
    assert(0nat / 16 == 0);
    crate::bits::lemma_bit_of_value(0, 5);
    assert(0nat / 32 == 0);
    crate::bits::lemma_bit_of_value(0, 6);
    assert(0nat / 64 == 0);
    crate::bits::lemma_bit_of_value(0, 7);
    assert(0nat / 128 == 0);
}

/// The eight low bits of 145.
proof fn lemma_bits_145()
    ensures
        crate::bits::bit_of(145, 0) == true,
        crate::bits::bit_of(145, 1) == false,
        crate::bits::bit_of(145, 2) == false,
        crate::bits::bit_of(145, 3) == false,
        crate::bits::bit_of(145, 4) == true,
        crate::bits::bit_of(145, 5) == false,
        crate::bits::bit_of(145, 6) == false,
        crate::bits::bit_of(145, 7) == true,
{
    vstd::arithmetic::power2::lemma2_to64();
    crate::bits::lemma_bit_of_value(145, 0);
    assert(145nat / 1 == 145);
    crate::bits::lemma_bit_of_value(145, 1);
    assert(145nat / 2 == 72);
    crate::bits::lemma_bit_of_value(145, 2);
    assert(145nat / 4 == 36);
    crate::bits::lemma_bit_of_value(145, 3);
    assert(145nat / 8 == 18);
    crate::bits::lemma_bit_of_value(145, 4);
    assert(145nat / 16 == 9);
    crate::bits::lemma_bit_of_value(145, 5);
    assert(145nat / 32 == 4);
    crate::bits::lemma_bit_of_value(145, 6);
    assert(145nat / 64 == 2);
    crate::bits::lemma_bit_of_value(145, 7);
    assert(145nat / 128 == 1);
}

/// The eight low bits of 1.
pub(crate) proof fn lemma_bits_1()
    ensures
        crate::bits::bit_of(1, 0) == true,
        crate::bits::bit_of(1, 1) == false,
        crate::bits::bit_of(1, 2) == false,
        crate::bits::bit_of(1, 3) == false,
        crate::bits::bit_of(1, 4) == false,
        crate::bits::bit_of(1, 5) == false,
        crate::bits::bit_of(1, 6) == false,
        crate::bits::bit_of(1, 7) == false,
{
    vstd::arithmetic::power2::lemma2_to64();
    crate::bits::lemma_bit_of_value(1, 0);
    assert(1nat / 1 == 1);
    crate::bits::lemma_bit_of_value(1, 1);
    assert(1nat / 2 == 0);
    crate::bits::lemma_bit_of_value(1, 2);
    assert(1nat / 4 == 0);
    crate::bits::lemma_bit_of_value(1, 3);
    assert(1nat / 8 == 0);
    crate::bits::lemma_bit_of_value(1, 4);
    assert(1nat / 16 == 0);
    crate::bits::lemma_bit_of_value(1, 5);
    assert(1nat / 32 == 0);
    crate::bits::lemma_bit_of_value(1, 6);
    assert(1nat / 64 == 0);
    crate::bits::lemma_bit_of_value(1, 7);
    assert(1nat / 128 == 0);
}

/// The pinned fixed block `4b 04 00` decodes to `a`: header, the 8-bit
/// code 145 of `a`, then the 7-bit end-of-block code.
proof fn lemma_fixed_pinned(data: Seq<u8>)
    requires
        data == seq![0x4Bu8, 0x04, 0x00],
    ensures
        spec_inflate(data) == Ok::<Seq<u8>, InflateError>(seq![0x61u8]),
{
    let fl = crate::inflate::fixed_lit_seq();
    let fd = crate::inflate::fixed_dist_seq();
    let ps = seq![Phrase::Literal(0x61)];
    let bs = crate::deflate::block_syms(ps, 0, 1);
    assert(bs =~= seq![crate::deflate::Sym::Lit(0x61), crate::deflate::Sym::Eob]);
    assert(bs.drop_last() =~= seq![crate::deflate::Sym::Lit(0x61)]);
    assert(bs.drop_last().drop_last() =~= Seq::<crate::deflate::Sym>::empty());
    lemma_fixed_lit_code(fl, 97);
    lemma_fixed_lit_code(fl, 256);
    assert(fl[97] == 8 && fl[256] == 7);
    let c1 = crate::prefix::code_bits(fl, 97);
    let c2 = crate::prefix::code_bits(fl, 256);
    assert(crate::deflate::sym_bits(fl, fd, crate::deflate::Sym::Lit(0x61)) == c1);
    assert(crate::deflate::sym_bits(fl, fd, crate::deflate::Sym::Eob) == c2);
    assert(crate::deflate::syms_bits(fl, fd, bs.drop_last().drop_last()) =~= Seq::<bool>::empty());
    assert(bs.drop_last().last() == crate::deflate::Sym::Lit(0x61));
    assert(bs.last() == crate::deflate::Sym::Eob);
    assert(crate::deflate::syms_bits(fl, fd, bs.drop_last()) =~= c1);
    assert(crate::deflate::syms_bits(fl, fd, bs) =~= c1 + c2);
    let h = crate::deflate::block_header(1, 1);
    let wb = h + crate::deflate::syms_bits(fl, fd, bs);
    assert(wb =~= h + c1 + c2);
    assert(wb.len() == 18);
    let bb = bytes_bits(data);
    crate::bits::lemma_bytes_bits_len(data);
    vstd::arithmetic::power2::lemma2_to64();
    lemma_bits_75();
    lemma_bits_4();
    lemma_bits_0();
    lemma_bits_145();
    lemma_bits_1();
    assert forall|i: int| 0 <= i < 18 implies #[trigger] bb[i] == wb[i] by {
        let j = i / 8;
        let t = i % 8;
        crate::bits::lemma_bytes_bits_index(data, j, t);
        if i < 3 {
            assert(wb[i] == h[i]);
            assert(h[0] == crate::bits::bit_of(1, 0));
            assert(h[1] == crate::bits::bit_of(1, 0));
            assert(h[2] == crate::bits::bit_of(1, 1));
        } else if i < 11 {
            assert(wb[i] == c1[i - 3]);
            assert(c1[i - 3] == crate::bits::bit_of(145, (10 - i) as nat));
        } else {
            assert(wb[i] == c2[i - 11]);
            assert(c2[i - 11] == crate::bits::bit_of(0, (17 - i) as nat));
        }
        if i == 0 {
            assert(crate::bits::bit_of(75, 0) == true);
            assert(crate::bits::bit_of(1, 0) == true);
            assert(bb[i] == crate::bits::bit_of(data[0] as u64, 0));
            assert(bb[i] == wb[i]);
        } else if i == 1 {
            assert(crate::bits::bit_of(75, 1) == true);
            assert(crate::bits::bit_of(1, 0) == true);
            assert(bb[i] == crate::bits::bit_of(data[0] as u64, 1));
            assert(bb[i] == wb[i]);
        } else if i == 2 {
            assert(crate::bits::bit_of(75, 2) == false);
            assert(crate::bits::bit_of(1, 1) == false);
            assert(bb[i] == crate::bits::bit_of(data[0] as u64, 2));
            assert(bb[i] == wb[i]);
        } else if i == 3 {
            assert(crate::bits::bit_of(75, 3) == true);
            assert(crate::bits::bit_of(145, 7) == true);
            assert(bb[i] == crate::bits::bit_of(data[0] as u64, 3));
            assert(bb[i] == wb[i]);
        } else if i == 4 {
            assert(crate::bits::bit_of(75, 4) == false);
            assert(crate::bits::bit_of(145, 6) == false);
            assert(bb[i] == crate::bits::bit_of(data[0] as u64, 4));
            assert(bb[i] == wb[i]);
        } else if i == 5 {
            assert(crate::bits::bit_of(75, 5) == false);
            assert(crate::bits::bit_of(145, 5) == false);
            assert(bb[i] == crate::bits::bit_of(data[0] as u64, 5));
            assert(bb[i] == wb[i]);
        } else if i == 6 {
            assert(crate::bits::bit_of(75, 6) == true);
            assert(crate::bits::bit_of(145, 4) == true);
            assert(bb[i] == crate::bits::bit_of(data[0] as u64, 6));
            assert(bb[i] == wb[i]);
        } else if i == 7 {
            assert(crate::bits::bit_of(75, 7) == false);
            assert(crate::bits::bit_of(145, 3) == false);
            assert(bb[i] == crate::bits::bit_of(data[0] as u64, 7));
            assert(bb[i] == wb[i]);
        } else if i == 8 {
            assert(crate::bits::bit_of(4, 0) == false);
            assert(crate::bits::bit_of(145, 2) == false);
            assert(bb[i] == crate::bits::bit_of(data[1] as u64, 0));
            assert(bb[i] == wb[i]);
        } else if i == 9 {
            assert(crate::bits::bit_of(4, 1) == false);
            assert(crate::bits::bit_of(145, 1) == false);
            assert(bb[i] == crate::bits::bit_of(data[1] as u64, 1));
            assert(bb[i] == wb[i]);
        } else if i == 10 {
            assert(crate::bits::bit_of(4, 2) == true);
            assert(crate::bits::bit_of(145, 0) == true);
            assert(bb[i] == crate::bits::bit_of(data[1] as u64, 2));
            assert(bb[i] == wb[i]);
        } else if i == 11 {
            assert(crate::bits::bit_of(4, 3) == false);
            assert(crate::bits::bit_of(0, 6) == false);
            assert(bb[i] == crate::bits::bit_of(data[1] as u64, 3));
            assert(bb[i] == wb[i]);
        } else if i == 12 {
            assert(crate::bits::bit_of(4, 4) == false);
            assert(crate::bits::bit_of(0, 5) == false);
            assert(bb[i] == crate::bits::bit_of(data[1] as u64, 4));
            assert(bb[i] == wb[i]);
        } else if i == 13 {
            assert(crate::bits::bit_of(4, 5) == false);
            assert(crate::bits::bit_of(0, 4) == false);
            assert(bb[i] == crate::bits::bit_of(data[1] as u64, 5));
            assert(bb[i] == wb[i]);
        } else if i == 14 {
            assert(crate::bits::bit_of(4, 6) == false);
            assert(crate::bits::bit_of(0, 3) == false);
            assert(bb[i] == crate::bits::bit_of(data[1] as u64, 6));
            assert(bb[i] == wb[i]);
        } else if i == 15 {
            assert(crate::bits::bit_of(4, 7) == false);
            assert(crate::bits::bit_of(0, 2) == false);
            assert(bb[i] == crate::bits::bit_of(data[1] as u64, 7));
            assert(bb[i] == wb[i]);
        } else if i == 16 {
            assert(crate::bits::bit_of(0, 0) == false);
            assert(crate::bits::bit_of(0, 1) == false);
            assert(bb[i] == crate::bits::bit_of(data[2] as u64, 0));
            assert(bb[i] == wb[i]);
        } else if i == 17 {
            assert(crate::bits::bit_of(0, 1) == false);
            assert(crate::bits::bit_of(0, 0) == false);
            assert(bb[i] == crate::bits::bit_of(data[2] as u64, 1));
            assert(bb[i] == wb[i]);
        }
    }
    assert(bb.subrange(0, 18) =~= wb);
    assert(phrases_ok(ps)) by {
        assert(ps.drop_last() =~= Seq::<Phrase>::empty());
        assert(phrases_ok(Seq::<Phrase>::empty()));
        assert(ps.last() == Phrase::Literal(0x61));
    }
    crate::roundtrip::lemma_fixed_decodes(0, 1, ps, 0, 1);
    assert(ps.take(0) =~= Seq::<Phrase>::empty());
    assert(ps.take(1) =~= ps);
    assert(expand(ps.take(0)) =~= Seq::<u8>::empty());
    assert(ps.drop_last() =~= Seq::<Phrase>::empty());
    assert(expand(ps) =~= seq![0x61u8]);
    let poss = seq![0nat, 18nat];
    let outs = seq![Seq::<u8>::empty(), seq![0x61u8]];
    crate::roundtrip::lemma_blocks_chain(data, poss, outs, 0, 8 * data.len() + 1);
}

/// The overlapping-match example: `X`, `Y`, then a match of length 5 at
/// distance 2 expands to `XYXYXYX`.
proof fn lemma_overlap_example(ps: Seq<Phrase>)
    requires
        ps == seq![Phrase::Literal(0x58), Phrase::Literal(0x59), Phrase::Match { len: 5, dist: 2 }],
    ensures
        phrases_ok(ps),
        expand(ps) == seq![0x58u8, 0x59, 0x58, 0x59, 0x58, 0x59, 0x58],
{
    let a2 = ps.drop_last();
    let a1 = a2.drop_last();
    let a0 = a1.drop_last();
    assert(a0 =~= Seq::<Phrase>::empty());
    assert(expand(a0).len() == 0);
    assert(a1.last() == Phrase::Literal(0x58));
    assert(expand(a1) == apply_phrase(expand(a0), a1.last()));
    assert(expand(a1).len() == 1);
    assert(a2.last() == Phrase::Literal(0x59));
    assert(expand(a2) == apply_phrase(expand(a1), a2.last()));
    assert(expand(a2).len() == 2);
    assert(phrases_ok(a0));
    assert(phrases_ok(a1));
    assert(phrases_ok(a2));
    assert(phrases_ok(ps));
    assert(expand(a1) =~= seq![0x58u8]);
    assert(expand(a2) =~= seq![0x58u8, 0x59u8]);
    reveal_with_fuel(crate::lzw77::copy_back, 6);
    assert(expand(ps) =~= seq![0x58u8, 0x59, 0x58, 0x59, 0x58, 0x59, 0x58]);
}

/// The block group: five checks under the names `block_names()`; the
/// pinned stored and fixed blocks are proved to decode, the overlapping
/// match to expand correctly and the malformed containers to be refused.
#[verifier::spinoff_prover]
#[verifier::rlimit(40)]
fn block_kats() -> (v: Vec<Check>)
    ensures
        v@.len() == 5,
        named(v@, block_names()),
        v@[0].ok,
        v@[1].ok,
        v@[2].ok,
        v@[4].ok,
{
    let mut v: Vec<Check> = Vec::new();

    // Pinned stored block: bfinal=1, btype=00, LEN=3, NLEN=0xFFFC, "ABC".
    let stored: [u8; 8] = [0x01, 0x03, 0x00, 0xFC, 0xFF, 0x41, 0x42, 0x43];
    let back = decompress_raw(&stored);
    let want_abc: [u8; 3] = [0x41, 0x42, 0x43];
    proof {
        assert(stored@ =~= seq![0x01u8, 0x03, 0x00, 0xFC, 0xFF, 0x41, 0x42, 0x43]);
        lemma_stored_pinned(stored@);
        assert(want_abc@ =~= seq![0x41u8, 0x42, 0x43]);
    }
    let mut d = String::new();
    push_hex_bytes(&mut d, "raw stored 0x", &stored);
    d.append(" -> ");
    push_result(&mut d, &back, true);
    v.push(chk("stored-block-pinned", result_is(&back, &want_abc), d));

    // Pinned fixed block: bfinal=1, btype=01, literal 'a' (code 145, 8
    // bits), EOB (0, 7 bits) -> 18 bits, 3 bytes.
    let fixed: [u8; 3] = [0x4B, 0x04, 0x00];
    let back = decompress_raw(&fixed);
    let want_a: [u8; 1] = [0x61];
    proof {
        assert(fixed@ =~= seq![0x4Bu8, 0x04, 0x00]);
        lemma_fixed_pinned(fixed@);
        assert(want_a@ =~= seq![0x61u8]);
    }
    let mut d = String::new();
    push_hex_bytes(&mut d, "raw fixed 0x", &fixed);
    d.append(" -> ");
    push_result(&mut d, &back, true);
    v.push(chk("fixed-block-pinned", result_is(&back, &want_a), d));

    // Overlapping match: X, Y, then match{len 5, dist 2} -> XYXYY...
    // copy: X Y X Y X  =>  "XYXYXYX".
    let phrases: Vec<Phrase> = vec![
        Phrase::Literal(0x58),
        Phrase::Literal(0x59),
        Phrase::Match { len: 5, dist: 2 },
    ];
    proof {
        assert(phrases@ =~= seq![
            Phrase::Literal(0x58),
            Phrase::Literal(0x59),
            Phrase::Match { len: 5, dist: 2 },
        ]);
        lemma_overlap_example(phrases@);
    }
    let out = phrases_to_bytes(phrases.as_slice());
    let want_xy: [u8; 7] = [0x58, 0x59, 0x58, 0x59, 0x58, 0x59, 0x58];
    proof {
        assert(out@ =~= want_xy@);
    }
    let mut d = String::from_str("XY + match{5,2} -> \"");
    let mut i: usize = 0;
    while i < out.len()
        invariant
            i <= out@.len(),
        decreases out@.len() - i,
    {
        push_char(&mut d, out[i] as char);
        i = i + 1;
    }
    d.append("\"");
    v.push(chk("overlap-match-kat", same8(out.as_slice(), &want_xy), d));

    // Pinned zlib container for "hello": 0x78 0x9C + 5 deflate bytes +
    // Adler. Container hashes pinned to the known CRC-32 / Adler-32.
    let hello: [u8; 5] = [0x68, 0x65, 0x6C, 0x6C, 0x6F];
    let z = compress_zlib(&hello);
    let want: [u8; 13] = [0x78, 0x9c, 0xcb, 0x48, 0xcd, 0xc9, 0xc9, 0x07, 0x00, 0x06, 0x2c, 0x02, 0x15];
    let back = decode_zlib(z.as_slice());
    let (crc, adler) = container_hashes(&hello);
    let hashes_ok = crc == crc32_fresh(&hello) && adler == adler32_fresh(&hello);
    let mut d = String::new();
    push_hex_bytes(&mut d, "z(5B) = ", z.as_slice());
    d.append(" (pinned), crc32 = 0x");
    push_hex_fixed(&mut d, crc as u64, 8);
    d.append(", adler32 = 0x");
    push_hex_fixed(&mut d, adler as u64, 8);
    v.push(chk("zlib-container-hello", same8(z.as_slice(), &want) && result_is(&back, &hello) && hashes_ok, d));

    // Malformed containers must be rejected (not panic, not misdecode).
    let bad_checksum: Vec<u8> = vec![0x78, 0x01, 0x00, 0x00, 0x00, 0x00];
    let bad_cmf: Vec<u8> = vec![0x08, 0x9C, 0x00, 0x00, 0x00, 0x00];
    let fdict: Vec<u8> = vec![0x78, 0x20, 0x00, 0x00, 0x00, 0x00];
    let truncated: Vec<u8> = vec![0x78, 0x9c];
    proof {
        lemma_headers_refused();
        assert(bad_checksum@ =~= seq![0x78u8, 0x01, 0x00, 0x00, 0x00, 0x00]);
        assert(bad_cmf@ =~= seq![0x08u8, 0x9C, 0x00, 0x00, 0x00, 0x00]);
        assert(fdict@ =~= seq![0x78u8, 0x20, 0x00, 0x00, 0x00, 0x00]);
        assert(truncated@ =~= seq![0x78u8, 0x9c]);
    }
    let names: [&str; 4] = ["bad-checksum", "bad-cmf", "fdict-rejected", "truncated"];
    let r0 = decompress_zlib(bad_checksum.as_slice());
    let r1 = decompress_zlib(bad_cmf.as_slice());
    let r2 = decompress_zlib(fdict.as_slice());
    let r3 = decompress_zlib(truncated.as_slice());
    let all_rejected = r0.is_err() && r1.is_err() && r2.is_err() && r3.is_err();
    let mut d = String::new();
    d.append(names[0]);
    d.append("=");
    push_result(&mut d, &r0, false);
    d.append(" ");
    d.append(names[1]);
    d.append("=");
    push_result(&mut d, &r1, false);
    d.append(" ");
    d.append(names[2]);
    d.append("=");
    push_result(&mut d, &r2, false);
    d.append(" ");
    d.append(names[3]);
    d.append("=");
    push_result(&mut d, &r3, false);
    d.append(" ");
    v.push(chk("zlib-headers-rejected", all_rejected, d));
    v
}

// ------------------------------------------------------------------
// Hash group
// ------------------------------------------------------------------

/// The number of known hash values in the hash group.
pub const HASH_VECTOR_COUNT: usize = 6;

/// Known values: (input, initial Adler-32, expected Adler-32, initial
/// CRC-32, expected CRC-32).
fn hash_vectors() -> (v: Vec<(Vec<u8>, u32, u32, u32, u32)>)
    ensures
        v@.len() == HASH_VECTOR_COUNT,
{
    vec![
        (Vec::new(), 1, 0x0000_0001, 0, 0x0000_0000),
        (vec![0x00], 1, 0x0001_0001, 0, 0xD202_EF8D),
        (vstd::slice::slice_to_vec("Wikipedia".as_bytes()), 1, 0x11E6_0398, 0, 0xADAA_C02E),
        (vstd::slice::slice_to_vec("123456789".as_bytes()), 1, 0x091E_01DE, 0, 0xCBF4_3926),
        (vec![0x61], 0xFFFF_FFFF, 0x007D_006F, 0xFFFF_FFFF, 0xC54A_AE31),
        (
            vstd::slice::slice_to_vec("The quick brown fox jumps over the lazy dog".as_bytes()),
            1,
            0x5BDC_0FDA,
            0,
            0x414F_A339,
        ),
    ]
}

/// Appends `n` as three decimal digits (zero-padded).
fn push_dec3(s: &mut String, n: usize)
    requires
        n < 1000,
    ensures
        final(s)@ == old(s)@ + seq![
            dec_digit(n as int / 100),
            dec_digit((n as int / 10) % 10),
            dec_digit(n as int % 10),
        ],
{
    push_char(s, ((48 + n / 100) as u8) as char);
    push_char(s, ((48 + (n / 10) % 10) as u8) as char);
    push_char(s, ((48 + n % 10) as u8) as char);
}

/// The hash group: one check per known value.
fn hash_battery() -> (v: Vec<Check>)
    ensures
        v@.len() == HASH_VECTOR_COUNT,
        named(v@, hash_names()),
{
    let vectors = hash_vectors();
    let mut v: Vec<Check> = Vec::new();
    let mut i: usize = 0;
    while i < vectors.len()
        invariant
            i <= vectors@.len(),
            vectors@.len() == HASH_VECTOR_COUNT,
            v@.len() == i,
            forall|k: int| 0 <= k < i ==> (#[trigger] v@[k]).name@ == hash_name(k + 1),
        decreases vectors@.len() - i,
    {
        let (buf, init_a, exp_a, init_c, exp_c) = &vectors[i];
        let got_a = adler32(*init_a, buf.as_slice());
        let got_c = crc32(*init_c, buf.as_slice());
        let ok = got_a == *exp_a && got_c == *exp_c;
        let mut name = String::from_str("hash-");
        push_dec3(&mut name, i + 1);
        let mut d = text_num("len ", buf.len() as u64);
        d.append(" adler(0x");
        push_hex_fixed(&mut d, *init_a as u64, 8);
        d.append(")=0x");
        push_hex_fixed(&mut d, got_a as u64, 8);
        d.append(" crc(0x");
        push_hex_fixed(&mut d, *init_c as u64, 8);
        d.append(")=0x");
        push_hex_fixed(&mut d, got_c as u64, 8);
        v.push(Check { name, ok, detail: d });
        i = i + 1;
    }
    proof {
        assert(v@.len() == hash_names().len());
    }
    v
}

// ------------------------------------------------------------------
// Cross-verification group (CPython zlib, pinned at development time)
// ------------------------------------------------------------------

/// The 2250-byte cross-verification message (50 copies of a 45-byte
/// sentence).
fn fox_msg() -> (v: Vec<u8>)
    ensures
        v@.len() == 2250,
{
    let sentence = "The quick brown fox jumps over the lazy dog. ".as_bytes();
    proof {
        reveal_strlit("The quick brown fox jumps over the lazy dog. ");
        vstd::string::is_ascii_spec_bytes("The quick brown fox jumps over the lazy dog. ");
    }
    let mut v: Vec<u8> = Vec::new();
    let mut k: usize = 0;
    while k < 50
        invariant
            k <= 50,
            sentence@.len() == 45,
            v@.len() == 45 * k,
        decreases 50 - k,
    {
        let mut j: usize = 0;
        while j < sentence.len()
            invariant
                j <= sentence@.len(),
                sentence@.len() == 45,
                v@.len() == 45 * k + j,
            decreases sentence@.len() - j,
        {
            v.push(sentence[j]);
            j = j + 1;
        }
        k = k + 1;
    }
    v
}

/// The 3000-byte incompressible cross-verification message: byte `i` is
/// `(i * 2654435761) mod 256`, the Knuth multiplicative hash.
fn data_msg() -> (v: Vec<u8>)
    ensures
        v@.len() == 3000,
        forall|i: int| 0 <= i < 3000 ==> #[trigger] v@[i] == (i * 2654435761) % 256,
{
    let mut v: Vec<u8> = Vec::new();
    let mut i: u64 = 0;
    while i < 3000
        invariant
            i <= 3000,
            v@.len() == i,
            forall|j: int| 0 <= j < i ==> #[trigger] v@[j] == (j * 2654435761) % 256,
        decreases 3000 - i,
    {
        assert(i * 2654435761 < 3000 * 2654435761) by (nonlinear_arith)
            requires
                i < 3000,
        ;
        v.push(((i * 2654435761) % 256) as u8);
        i = i + 1;
    }
    v
}

/// The encoder's pinned zlib stream for the fox message.
pub open spec fn pinned_fox_dynamic_bytes() -> Seq<u8> {
    seq![
        0x78u8, 0x9c, 0xed, 0xca, 0xc9, 0x01, 0x40, 0x40, 0x10, 0x45, 0xc1, 0x54, 0x7e, 0x04, 0xa2,
        0x91, 0x00, 0x8c, 0x9d, 0x66, 0x68, 0x5b, 0xf4, 0x84, 0x31, 0x87, 0x77, 0xae, 0xca, 0xbb,
        0xa0, 0xcd, 0xfb, 0x6a, 0x54, 0x19, 0xed, 0x5a, 0xd4, 0xd8, 0xad, 0xc1, 0xe7, 0x75, 0x97,
        0x9d, 0x21, 0xea, 0xf8, 0x79, 0x2a, 0xde, 0x47, 0xb5, 0xb5, 0x99, 0xc8, 0x64, 0x32, 0x99,
        0x4c, 0x26, 0x93, 0x93, 0xca, 0x1f, 0x25, 0x8c, 0x27, 0xcc
    ]
}

/// The encoder's pinned zlib stream for the fox message.
fn pinned_fox_dynamic() -> (r: [u8; 70])
    ensures
        r@ == pinned_fox_dynamic_bytes(),
{
    let a: [u8; 70] = [
        0x78, 0x9c, 0xed, 0xca, 0xc9, 0x01, 0x40, 0x40, 0x10, 0x45, 0xc1, 0x54, 0x7e, 0x04, 0xa2,
        0x91, 0x00, 0x8c, 0x9d, 0x66, 0x68, 0x5b, 0xf4, 0x84, 0x31, 0x87, 0x77, 0xae, 0xca, 0xbb,
        0xa0, 0xcd, 0xfb, 0x6a, 0x54, 0x19, 0xed, 0x5a, 0xd4, 0xd8, 0xad, 0xc1, 0xe7, 0x75, 0x97,
        0x9d, 0x21, 0xea, 0xf8, 0x79, 0x2a, 0xde, 0x47, 0xb5, 0xb5, 0x99, 0xc8, 0x64, 0x32, 0x99,
        0x4c, 0x26, 0x93, 0x93, 0xca, 0x1f, 0x25, 0x8c, 0x27, 0xcc
    ];
    proof {
        assert(a@ =~= pinned_fox_dynamic_bytes());
    }
    a
}

/// CPython's `zlib.compress(fox, 1)`: one fixed block.
pub open spec fn cpython_fox_level1_bytes() -> Seq<u8> {
    seq![
        0x78u8, 0x01, 0x0b, 0xc9, 0x48, 0x55, 0x28, 0x2c, 0xcd, 0x4c, 0xce, 0x56, 0x48, 0x2a, 0xca,
        0x2f, 0xcf, 0x53, 0x48, 0xcb, 0xaf, 0x50, 0xc8, 0x2a, 0xcd, 0x2d, 0x28, 0x56, 0xc8, 0x2f,
        0x4b, 0x2d, 0x52, 0x28, 0x01, 0x4a, 0xe7, 0x24, 0x56, 0x55, 0x2a, 0xa4, 0xe4, 0xa7, 0xeb,
        0x29, 0x84, 0x8c, 0x2a, 0x1e, 0x0d, 0x8d, 0xd1, 0xb4, 0x31, 0x9a, 0x53, 0x46, 0x8b, 0x82,
        0xd1, 0x82, 0x71, 0xb4, 0x9a, 0x18, 0xad, 0x34, 0x07, 0x53, 0xab, 0x00, 0x00, 0x25, 0x8c,
        0x27, 0xcc
    ]
}

/// CPython's `zlib.compress(fox, 1)`: one fixed block.
fn cpython_fox_level1() -> (r: [u8; 77])
    ensures
        r@ == cpython_fox_level1_bytes(),
{
    let a: [u8; 77] = [
        0x78, 0x01, 0x0b, 0xc9, 0x48, 0x55, 0x28, 0x2c, 0xcd, 0x4c, 0xce, 0x56, 0x48, 0x2a, 0xca,
        0x2f, 0xcf, 0x53, 0x48, 0xcb, 0xaf, 0x50, 0xc8, 0x2a, 0xcd, 0x2d, 0x28, 0x56, 0xc8, 0x2f,
        0x4b, 0x2d, 0x52, 0x28, 0x01, 0x4a, 0xe7, 0x24, 0x56, 0x55, 0x2a, 0xa4, 0xe4, 0xa7, 0xeb,
        0x29, 0x84, 0x8c, 0x2a, 0x1e, 0x0d, 0x8d, 0xd1, 0xb4, 0x31, 0x9a, 0x53, 0x46, 0x8b, 0x82,
        0xd1, 0x82, 0x71, 0xb4, 0x9a, 0x18, 0xad, 0x34, 0x07, 0x53, 0xab, 0x00, 0x00, 0x25, 0x8c,
        0x27, 0xcc
    ];
    proof {
        assert(a@ =~= cpython_fox_level1_bytes());
    }
    a
}

/// CPython's `zlib.compress(fox, 6)`: one fixed block.
pub open spec fn cpython_fox_level6_bytes() -> Seq<u8> {
    seq![
        0x78u8, 0x9c, 0x0b, 0xc9, 0x48, 0x55, 0x28, 0x2c, 0xcd, 0x4c, 0xce, 0x56, 0x48, 0x2a, 0xca,
        0x2f, 0xcf, 0x53, 0x48, 0xcb, 0xaf, 0x50, 0xc8, 0x2a, 0xcd, 0x2d, 0x28, 0x56, 0xc8, 0x2f,
        0x4b, 0x2d, 0x52, 0x28, 0x01, 0x4a, 0xe7, 0x24, 0x56, 0x55, 0x2a, 0xa4, 0xe4, 0xa7, 0xeb,
        0x29, 0x84, 0x8c, 0x2a, 0x1e, 0x55, 0x3c, 0xaa, 0x78, 0x54, 0xf1, 0xa8, 0xe2, 0x51, 0xc5,
        0xa3, 0x8a, 0x47, 0x15, 0x0f, 0x26, 0xc5, 0x00, 0x25, 0x8c, 0x27, 0xcc
    ]
}

/// CPython's `zlib.compress(fox, 6)`: one fixed block.
fn cpython_fox_level6() -> (r: [u8; 72])
    ensures
        r@ == cpython_fox_level6_bytes(),
{
    let a: [u8; 72] = [
        0x78, 0x9c, 0x0b, 0xc9, 0x48, 0x55, 0x28, 0x2c, 0xcd, 0x4c, 0xce, 0x56, 0x48, 0x2a, 0xca,
        0x2f, 0xcf, 0x53, 0x48, 0xcb, 0xaf, 0x50, 0xc8, 0x2a, 0xcd, 0x2d, 0x28, 0x56, 0xc8, 0x2f,
        0x4b, 0x2d, 0x52, 0x28, 0x01, 0x4a, 0xe7, 0x24, 0x56, 0x55, 0x2a, 0xa4, 0xe4, 0xa7, 0xeb,
        0x29, 0x84, 0x8c, 0x2a, 0x1e, 0x55, 0x3c, 0xaa, 0x78, 0x54, 0xf1, 0xa8, 0xe2, 0x51, 0xc5,
        0xa3, 0x8a, 0x47, 0x15, 0x0f, 0x26, 0xc5, 0x00, 0x25, 0x8c, 0x27, 0xcc
    ];
    proof {
        assert(a@ =~= cpython_fox_level6_bytes());
    }
    a
}

/// CPython's `zlib.compress(data, 1)` of the incompressible message.
pub open spec fn cpython_data_level1_bytes() -> Seq<u8> {
    seq![
        0x78u8, 0x01, 0x63, 0xd8, 0x98, 0x24, 0x7c, 0xa4, 0x54, 0xed, 0x7a, 0x87, 0xe5, 0xab, 0xd9,
        0x3e, 0x7f, 0xd7, 0xc5, 0x0b, 0x1c, 0x2c, 0x52, 0xbe, 0xd2, 0x6a, 0xf6, 0x7c, 0x86, 0xe7,
        0xaf, 0xd5, 0x31, 0xbc, 0xfb, 0xf2, 0x15, 0x2e, 0x36, 0x19, 0x3f, 0x99, 0xea, 0xf6, 0x7d,
        0x45, 0x24, 0xd7, 0xee, 0x1c, 0xd9, 0x73, 0xf5, 0x06, 0x0f, 0x27, 0x39, 0x7f, 0x59, 0x1a,
        0xc6, 0xbe, 0x23, 0x53, 0xea, 0x74, 0x8d, 0xee, 0xbd, 0x7e, 0x87, 0x8f, 0x8b, 0x82, 0x59,
        0xb6, 0xa6, 0x89, 0x9f, 0xa8, 0xd4, 0xba, 0xdd, 0x63, 0xfb, 0x6e, 0x7e, 0x00, 0xe3, 0xa6,
        0x64, 0x91, 0xa3, 0x65, 0xea, 0x37, 0x3a, 0xad, 0x5e, 0xcf, 0xf1, 0xfd, 0xb7, 0x3e, 0x41,
        0xf0, 0x50, 0xb1, 0xca, 0xd5, 0x36, 0xf3, 0x17, 0x33, 0xbd, 0x7e, 0xaf, 0x89, 0xe5, 0xdb,
        0x5f, 0xa0, 0x78, 0xa9, 0xd9, 0xe4, 0xe9, 0x34, 0xf7, 0x1f, 0x2b, 0xa3, 0xb8, 0xf7, 0xe4,
        0xca, 0x9d, 0x6f, 0x30, 0x7c, 0x34, 0xd9, 0xe5, 0xeb, 0xb2, 0x70, 0x8e, 0x9d, 0x59, 0xd2,
        0x67, 0x6a, 0xf5, 0xee, 0x4f, 0x70, 0xfc, 0xb4, 0x38, 0x84, 0x75, 0x5b, 0xba, 0xc4, 0xc9,
        0x2a, 0xed, 0x3b, 0xbd, 0x76, 0xef, 0x17, 0x04, 0x32, 0x6d, 0x4e, 0x11, 0x3d, 0x56, 0xae,
        0x71, 0xb3, 0xcb, 0xfa, 0xcd, 0x5c, 0xbf, 0xff, 0x1b, 0x12, 0x85, 0x0e, 0x97, 0xa8, 0x5e,
        0x6b, 0xb7, 0x78, 0x39, 0xcb, 0xfb, 0xcf, 0xda, 0x38, 0xfe, 0x03, 0x85, 0x4a, 0x97, 0x5b,
        0x4c, 0x9f, 0x4d, 0xf7, 0xf8, 0xb9, 0x2a, 0x9a, 0x67, 0x6f, 0x9e, 0xfc, 0x85, 0x46, 0xa3,
        0xc7, 0x53, 0x5c, 0xbf, 0x2d, 0x8f, 0xe0, 0xdc, 0x95, 0x2d, 0x73, 0xb6, 0x4e, 0xff, 0xc1,
        0x44, 0xa7, 0xcf, 0x4b, 0x42, 0xd9, 0xb6, 0x67, 0x48, 0x9e, 0xaa, 0xd6, 0xb9, 0xdb, 0x67,
        0xff, 0x61, 0x61, 0x10, 0xf3, 0x96, 0x54, 0xb1, 0xe3, 0x15, 0x9a, 0xb7, 0xba, 0x6d, 0xde,
        0xce, 0xf3, 0x67, 0x18, 0xf5, 0xff, 0x68, 0xfc, 0x8f, 0xa6, 0xff, 0xd1, 0xfc, 0x3f, 0x5a,
        0xfe, 0x8d, 0x96, 0xff, 0xa3, 0xf5, 0xdf, 0x68, 0xfd, 0x3f, 0xda, 0xfe, 0x19, 0x6d, 0xff,
        0x0d, 0x81, 0xf6, 0x2f, 0x00, 0xa4, 0x2e, 0xd6, 0x50
    ]
}

/// CPython's `zlib.compress(data, 1)` of the incompressible message.
fn cpython_data_level1() -> (r: [u8; 309])
    ensures
        r@ == cpython_data_level1_bytes(),
{
    let a: [u8; 309] = [
        0x78, 0x01, 0x63, 0xd8, 0x98, 0x24, 0x7c, 0xa4, 0x54, 0xed, 0x7a, 0x87, 0xe5, 0xab, 0xd9,
        0x3e, 0x7f, 0xd7, 0xc5, 0x0b, 0x1c, 0x2c, 0x52, 0xbe, 0xd2, 0x6a, 0xf6, 0x7c, 0x86, 0xe7,
        0xaf, 0xd5, 0x31, 0xbc, 0xfb, 0xf2, 0x15, 0x2e, 0x36, 0x19, 0x3f, 0x99, 0xea, 0xf6, 0x7d,
        0x45, 0x24, 0xd7, 0xee, 0x1c, 0xd9, 0x73, 0xf5, 0x06, 0x0f, 0x27, 0x39, 0x7f, 0x59, 0x1a,
        0xc6, 0xbe, 0x23, 0x53, 0xea, 0x74, 0x8d, 0xee, 0xbd, 0x7e, 0x87, 0x8f, 0x8b, 0x82, 0x59,
        0xb6, 0xa6, 0x89, 0x9f, 0xa8, 0xd4, 0xba, 0xdd, 0x63, 0xfb, 0x6e, 0x7e, 0x00, 0xe3, 0xa6,
        0x64, 0x91, 0xa3, 0x65, 0xea, 0x37, 0x3a, 0xad, 0x5e, 0xcf, 0xf1, 0xfd, 0xb7, 0x3e, 0x41,
        0xf0, 0x50, 0xb1, 0xca, 0xd5, 0x36, 0xf3, 0x17, 0x33, 0xbd, 0x7e, 0xaf, 0x89, 0xe5, 0xdb,
        0x5f, 0xa0, 0x78, 0xa9, 0xd9, 0xe4, 0xe9, 0x34, 0xf7, 0x1f, 0x2b, 0xa3, 0xb8, 0xf7, 0xe4,
        0xca, 0x9d, 0x6f, 0x30, 0x7c, 0x34, 0xd9, 0xe5, 0xeb, 0xb2, 0x70, 0x8e, 0x9d, 0x59, 0xd2,
        0x67, 0x6a, 0xf5, 0xee, 0x4f, 0x70, 0xfc, 0xb4, 0x38, 0x84, 0x75, 0x5b, 0xba, 0xc4, 0xc9,
        0x2a, 0xed, 0x3b, 0xbd, 0x76, 0xef, 0x17, 0x04, 0x32, 0x6d, 0x4e, 0x11, 0x3d, 0x56, 0xae,
        0x71, 0xb3, 0xcb, 0xfa, 0xcd, 0x5c, 0xbf, 0xff, 0x1b, 0x12, 0x85, 0x0e, 0x97, 0xa8, 0x5e,
        0x6b, 0xb7, 0x78, 0x39, 0xcb, 0xfb, 0xcf, 0xda, 0x38, 0xfe, 0x03, 0x85, 0x4a, 0x97, 0x5b,
        0x4c, 0x9f, 0x4d, 0xf7, 0xf8, 0xb9, 0x2a, 0x9a, 0x67, 0x6f, 0x9e, 0xfc, 0x85, 0x46, 0xa3,
        0xc7, 0x53, 0x5c, 0xbf, 0x2d, 0x8f, 0xe0, 0xdc, 0x95, 0x2d, 0x73, 0xb6, 0x4e, 0xff, 0xc1,
        0x44, 0xa7, 0xcf, 0x4b, 0x42, 0xd9, 0xb6, 0x67, 0x48, 0x9e, 0xaa, 0xd6, 0xb9, 0xdb, 0x67,
        0xff, 0x61, 0x61, 0x10, 0xf3, 0x96, 0x54, 0xb1, 0xe3, 0x15, 0x9a, 0xb7, 0xba, 0x6d, 0xde,
        0xce, 0xf3, 0x67, 0x18, 0xf5, 0xff, 0x68, 0xfc, 0x8f, 0xa6, 0xff, 0xd1, 0xfc, 0x3f, 0x5a,
        0xfe, 0x8d, 0x96, 0xff, 0xa3, 0xf5, 0xdf, 0x68, 0xfd, 0x3f, 0xda, 0xfe, 0x19, 0x6d, 0xff,
        0x0d, 0x81, 0xf6, 0x2f, 0x00, 0xa4, 0x2e, 0xd6, 0x50
    ];
    proof {
        assert(a@ =~= cpython_data_level1_bytes());
    }
    a
}

/// The cross-verification group: four checks.
#[verifier::spinoff_prover]
#[verifier::rlimit(40)]
fn cross_kats() -> (v: Vec<Check>)
    ensures
        v@.len() == 4,
        named(v@, cross_names()),
{
    let mut v: Vec<Check> = Vec::new();
    let fox = fox_msg();
    let data = data_msg();

    // The encoder's dynamic stream for the fox message: pinned for
    // determinism and verified byte-identical by CPython zlib.decompress
    // at development time.
    let z = compress_zlib(fox.as_slice());
    let want = pinned_fox_dynamic();
    let back = decode_zlib(z.as_slice());
    let mut d = text_num("", z.len() as u64);
    d.append(" bytes dynamic (pinned, CPython-verified)");
    v.push(chk("xval-our-dynamic-fox", same8(z.as_slice(), &want) && result_is(&back, fox.as_slice()), d));

    // CPython zlib.compress(fox, 1) -> fixed block, 77 bytes.
    let z1 = cpython_fox_level1();
    let back = decompress_zlib(&z1);
    let mut d = text_num("zlib(level 1, fixed) ", 77);
    push_num(&mut d, " bytes -> ", fox.len() as u64);
    d.append(" bytes");
    v.push(chk("xval-cpython-fixed-fox-1", result_is(&back, fox.as_slice()), d));

    // CPython zlib.compress(fox, 6) -> fixed block, 72 bytes.
    let z6 = cpython_fox_level6();
    let back = decompress_zlib(&z6);
    let mut d = text_num("zlib(level 6, fixed) ", 72);
    push_num(&mut d, " bytes -> ", fox.len() as u64);
    d.append(" bytes");
    v.push(chk("xval-cpython-fixed-fox-6", result_is(&back, fox.as_slice()), d));

    // CPython zlib.compress(data, 1) over the incompressible message.
    let zd = cpython_data_level1();
    let back = decompress_zlib(&zd);
    let mut d = text_num("zlib(level 1) ", 309);
    push_num(&mut d, " bytes -> ", data.len() as u64);
    d.append(" bytes incompressible");
    v.push(chk("xval-cpython-fixed-data", result_is(&back, data.as_slice()), d));
    v
}

// ------------------------------------------------------------------
// The battery
// ------------------------------------------------------------------

/// The number of checks in the full battery (without running it).
pub fn check_count() -> (n: usize)
    ensures
        n == 13 + 4 + 5 + HASH_VECTOR_COUNT + 4,
{
    13 + 4 + 5 + HASH_VECTOR_COUNT + 4
}

/// Append the checks of `more` to `v`.
fn extend(v: &mut Vec<Check>, more: Vec<Check>)
    ensures
        final(v)@ == old(v)@ + more@,
{
    let mut more = more;
    v.append(&mut more);
}

/// Run the full battery: the RFC 1951, bit-packing, block, hash and
/// cross-verification groups, in that order, under the names
/// `battery_names()`. The checks whose outcome follows from the library's
/// contracts are proved to pass: the whole RFC 1951 group, the two
/// single-byte bit patterns, the pinned stored and fixed blocks, the
/// overlapping match, and the refusal of the malformed containers.
pub fn run_all() -> (v: Vec<Check>)
    ensures
        v@.len() == 13 + 4 + 5 + HASH_VECTOR_COUNT + 4,
        named(v@, battery_names()),
        forall|k: int| 0 <= k < 15 ==> (#[trigger] v@[k]).ok,
        v@[17].ok,
        v@[18].ok,
        v@[19].ok,
        v@[21].ok,
{
    let mut v: Vec<Check> = Vec::new();
    let g1 = rfc_kats();
    let ghost s1 = g1@;
    extend(&mut v, g1);
    let g2 = bit_kats();
    let ghost s2 = g2@;
    extend(&mut v, g2);
    let g3 = block_kats();
    let ghost s3 = g3@;
    extend(&mut v, g3);
    let g4 = hash_battery();
    let ghost s4 = g4@;
    extend(&mut v, g4);
    let g5 = cross_kats();
    let ghost s5 = g5@;
    extend(&mut v, g5);
    proof {
        let names = battery_names();
        assert(v@ =~= s1 + s2 + s3 + s4 + s5);
        assert forall|k: int| 0 <= k < v@.len() implies (#[trigger] v@[k]).name@ == names[k] by {
            if k < 13 {
                assert(v@[k] == s1[k]);
            } else if k < 17 {
                assert(v@[k] == s2[k - 13]);
            } else if k < 22 {
                assert(v@[k] == s3[k - 17]);
            } else if k < 28 {
                assert(v@[k] == s4[k - 22]);
            } else {
                assert(v@[k] == s5[k - 28]);
            }
        }
    }
    v
}

} // verus!
