//! What the encoder writes, the decoder reads back: the bits of each symbol,
//! of a block's symbol sequence, and of whole blocks decode (by the
//! definition of the format in `inflate`) to the bytes they were made from.
use vstd::prelude::*;
use vstd::arithmetic::power2::pow2;
use crate::bits::{
    lsb_bits, low_mask, lemma_lsb_value_bits, bytes_bits, zero_bits, pad_len, bit_of,
    lemma_bytes_bits_index, lemma_bytes_bits_len,
};
use crate::huff::{
    LEN_BASE, LEN_EXTRA, DIST_BASE, DIST_EXTRA, CODE_LENGTH_ORDER, lemma_len_index, lemma_dist_index,
};
use crate::inflate::{
    read_lsb, sym_step, sym_loop, prefix_ok, stored_block, cl_read, lens_loop,
    dyn_block, one_block, blocks, fixed_lit_seq, fixed_dist_seq, InflateError,
};
use crate::huff::{rle, rep16, used16, run_eq, min_nat, fill, lemma_run_eq_bound, lemma_used16};
use crate::deflate::{
    cl_entries_bits, rle_bits, rep_bits, stored_body, dynamic_header, block_header, plan_covers,
    Sym, sym_bits, syms_bits, block_syms, phrase_sym, phrase_fits, lit_symbol, len_code, dist_code,
    sym_ok,
};
use crate::prefix::{code_bits, lemma_decode_code, lemma_canonical_trailing, lemma_fixed_prefix_ok};
use crate::lzw77::{
    Phrase, expand, phrases_ok, copy_back, apply_phrase, lemma_phrase_ok_at,
};

verus! {

/// Code lengths the decoder accepts and reads back: at most 15 bits and not
/// overfull.
pub open spec fn lens_ok(lens: Seq<u8>) -> bool {
    &&& prefix_ok(lens)
    &&& forall|j: int| 0 <= j < lens.len() ==> #[trigger] lens[j] <= 15
}

/// The code lengths give `s` a code: its literal/length symbol, and for a
/// match its distance symbol, have nonzero lengths.
pub open spec fn covers(lit: Seq<u8>, dist: Seq<u8>, s: Sym) -> bool {
    &&& 0 <= lit_symbol(s) < lit.len()
    &&& lit[lit_symbol(s)] >= 1
    &&& (s matches Sym::Match { len, dist: d } ==> 0 <= dist_code(d) < dist.len() && dist[dist_code(
        d,
    )] >= 1)
}

/// The output after decoding symbol `s`.
pub open spec fn sym_out(out: Seq<u8>, s: Sym) -> Seq<u8> {
    match s {
        Sym::Lit(b) => out.push(b),
        Sym::Eob => out,
        Sym::Match { len, dist } => copy_back(out, dist as nat, len as nat),
    }
}

/// A stream that holds `x + y` at `p` holds `x` at `p` and `y` right after.
pub proof fn lemma_split(bits: Seq<bool>, p: int, x: Seq<bool>, y: Seq<bool>)
    requires
        0 <= p,
        p + x.len() + y.len() <= bits.len(),
        bits.subrange(p, p + x.len() + y.len()) == x + y,
    ensures
        bits.subrange(p, p + x.len()) == x,
        bits.subrange(p + x.len(), p + x.len() + y.len()) == y,
{
    assert forall|i: int| 0 <= i < x.len() implies #[trigger] bits.subrange(p, p + x.len())[i]
        == x[i] by {
        assert(bits.subrange(p, p + x.len() + y.len())[i] == (x + y)[i]);
    }
    let whole = bits.subrange(p, p + x.len() + y.len());
    assert(bits.subrange(p + x.len(), p + x.len() + y.len()) =~= whole.subrange(
        x.len() as int,
        (x.len() + y.len()) as int,
    ));
    assert((x + y).subrange(x.len() as int, (x.len() + y.len()) as int) =~= y);
    assert(bits.subrange(p, p + x.len()) =~= x);
    assert(bits.subrange(p + x.len(), p + x.len() + y.len()) =~= y);
}

/// Reading back an element: `n` bits holding a value below `2^n`, read
/// least significant first, give the value.
pub proof fn lemma_read_back(bits: Seq<bool>, p: nat, v: u64, n: nat)
    requires
        n <= 64,
        (v as nat) < pow2(n),
        p + n <= bits.len(),
        bits.subrange(p as int, (p + n) as int) == lsb_bits(v, n),
    ensures
        read_lsb(bits, p, n) == Some(v),
{
    lemma_lsb_value_bits(v, n);
    let n64 = n as u64;
    if n < 64 {
        vstd::bits::lemma_u64_pow2_no_overflow(n);
        vstd::bits::lemma_u64_shl_is_mul(1, n64);
        assert(v & low_mask(n64) == v) by (bit_vector)
            requires
                n64 < 64,
                v < (1u64 << n64),
        ;
    } else {
        assert(v & low_mask(64) == v) by (bit_vector);
    }
}

/// The bits of a symbol sequence, first symbol first.
pub proof fn lemma_syms_bits_front(lit: Seq<u8>, dist: Seq<u8>, ss: Seq<Sym>)
    requires
        ss.len() >= 1,
    ensures
        syms_bits(lit, dist, ss) == sym_bits(lit, dist, ss[0]) + syms_bits(lit, dist, ss.drop_first()),
    decreases ss.len(),
{
    if ss.len() == 1 {
        assert(ss.drop_last() =~= Seq::<Sym>::empty());
        assert(ss.drop_first() =~= Seq::<Sym>::empty());
        assert(syms_bits(lit, dist, ss.drop_last()) == Seq::<bool>::empty());
        assert(syms_bits(lit, dist, ss.drop_first()) == Seq::<bool>::empty());
        assert(ss.last() == ss[0]);
        assert(syms_bits(lit, dist, ss) =~= sym_bits(lit, dist, ss[0]));
        assert(sym_bits(lit, dist, ss[0]) + Seq::<bool>::empty() =~= sym_bits(lit, dist, ss[0]));
    } else {
        lemma_syms_bits_front(lit, dist, ss.drop_last());
        assert(ss.drop_last().drop_first() =~= ss.drop_first().drop_last());
        assert(ss.drop_first().last() == ss.last());
        assert(syms_bits(lit, dist, ss) =~= sym_bits(lit, dist, ss[0]) + syms_bits(
            lit,
            dist,
            ss.drop_first(),
        ));
    }
}

/// One symbol read back: the decoder's step over the bits of `s` gives `s`
/// and moves past them.
pub proof fn lemma_sym_step_back(
    bits: Seq<bool>,
    p: nat,
    out: Seq<u8>,
    lit: Seq<u8>,
    dist: Seq<u8>,
    s: Sym,
)
    requires
        lens_ok(lit),
        lens_ok(dist),
        sym_ok(s),
        covers(lit, dist, s),
        s matches Sym::Match { len, dist: d } ==> d <= out.len(),
        p + sym_bits(lit, dist, s).len() <= bits.len(),
        bits.subrange(p as int, (p + sym_bits(lit, dist, s).len()) as int) == sym_bits(lit, dist, s),
    ensures
        sym_step(bits, p, out, lit, dist) == Ok::<(bool, nat, Seq<u8>), InflateError>(
            (s is Eob, (p + sym_bits(lit, dist, s).len()) as nat, sym_out(out, s)),
        ),
{
    match s {
        Sym::Lit(b) => {
            lemma_decode_code(bits, p, lit, b as int);
        },
        Sym::Eob => {
            lemma_decode_code(bits, p, lit, 256);
        },
        Sym::Match { len, dist: d } => {
            let lc = len_code(len);
            let dc = dist_code(d);
            lemma_len_index(len, 0);
            lemma_dist_index(d, 0);
            let el = (len - LEN_BASE[lc]) as u64;
            let ed = (d - DIST_BASE[dc]) as u64;
            let x1 = code_bits(lit, 257 + lc);
            let x2 = lsb_bits(el, LEN_EXTRA[lc] as nat);
            let x3 = code_bits(dist, dc);
            let x4 = lsb_bits(ed, DIST_EXTRA[dc] as nat);
            assert(sym_bits(lit, dist, s) == x1 + x2 + x3 + x4);
            let pi = p as int;
            lemma_split(bits, pi, x1 + x2 + x3, x4);
            lemma_split(bits, pi, x1 + x2, x3);
            lemma_split(bits, pi, x1, x2);
            lemma_decode_code(bits, p, lit, 257 + lc);
            let p1 = (p + x1.len()) as nat;
            crate::huff::lemma_len_extra_bound(lc);
            crate::huff::lemma_dist_extra_bound(dc);
            lemma_read_back(bits, p1, el, LEN_EXTRA[lc] as nat);
            let p2 = (p1 + x2.len()) as nat;
            lemma_decode_code(bits, p2, dist, dc);
            let p3 = (p2 + x3.len()) as nat;
            lemma_read_back(bits, p3, ed, DIST_EXTRA[dc] as nat);
            assert(LEN_BASE[lc] + el == len);
            assert(DIST_BASE[dc] + ed == d);
        },
    }
}

/// The bytes a symbol adds equal those its phrase adds.
proof fn lemma_sym_out_phrase(out: Seq<u8>, ph: Phrase)
    ensures
        sym_out(out, phrase_sym(ph)) == apply_phrase(out, ph),
{
}

/// A block's symbol sequence read back: the decoder's symbol loop over the
/// bits of the symbols of phrases `a..b` and end-of-block extends the output
/// of the first `a` phrases to the output of the first `b`.
pub proof fn lemma_block_loop(
    bits: Seq<bool>,
    p: nat,
    ps: Seq<Phrase>,
    a: int,
    b: int,
    lit: Seq<u8>,
    dist: Seq<u8>,
)
    requires
        lens_ok(lit),
        lens_ok(dist),
        phrases_ok(ps),
        0 <= a <= b <= ps.len(),
        forall|k: int| a <= k < b ==> phrase_fits(#[trigger] ps[k]),
        forall|q: int|
            0 <= q < block_syms(ps, a, b).len() ==> covers(lit, dist, #[trigger] block_syms(ps, a, b)[q]),
        p + syms_bits(lit, dist, block_syms(ps, a, b)).len() <= bits.len(),
        bits.subrange(p as int, (p + syms_bits(lit, dist, block_syms(ps, a, b)).len()) as int) == syms_bits(
            lit,
            dist,
            block_syms(ps, a, b),
        ),
    ensures
        sym_loop(bits, p, expand(ps.take(a)), lit, dist) == Ok::<(nat, Seq<u8>), InflateError>(
            ((p + syms_bits(lit, dist, block_syms(ps, a, b)).len()) as nat, expand(ps.take(b))),
        ),
    decreases b - a,
{
    let bs = block_syms(ps, a, b);
    let s0 = bs[0];
    let rest = bs.drop_first();
    lemma_syms_bits_front(lit, dist, bs);
    let x = sym_bits(lit, dist, s0);
    let y = syms_bits(lit, dist, rest);
    lemma_split(bits, p as int, x, y);
    let out = expand(ps.take(a));
    assert(covers(lit, dist, bs[0]));
    if a == b {
        assert(s0 == Sym::Eob);
        assert(rest =~= Seq::<Sym>::empty());
        lemma_sym_step_back(bits, p, out, lit, dist, s0);
    } else {
        let ph = ps[a];
        assert(s0 == phrase_sym(ph));
        assert(phrase_fits(ph));
        lemma_phrase_ok_at(ps, a);
        lemma_sym_step_back(bits, p, out, lit, dist, s0);
        lemma_sym_out_phrase(out, ph);
        assert(ps.take(a + 1).drop_last() =~= ps.take(a));
        assert(rest =~= block_syms(ps, a + 1, b));
        assert forall|q: int| 0 <= q < block_syms(ps, a + 1, b).len() implies covers(
            lit,
            dist,
            #[trigger] block_syms(ps, a + 1, b)[q],
        ) by {
            assert(block_syms(ps, a + 1, b)[q] == bs[q + 1]);
        }
        lemma_block_loop(bits, (p + x.len()) as nat, ps, a + 1, b, lit, dist);
    }
}


/// Bytes whose streams agree at a byte boundary are the same bytes.
proof fn lemma_bytes_from_bits(data: Seq<u8>, b: int, bytes: Seq<u8>)
    requires
        0 <= b,
        b + bytes.len() <= data.len(),
        bytes_bits(data).subrange(8 * b, 8 * (b + bytes.len())) == bytes_bits(bytes),
    ensures
        data.subrange(b, b + bytes.len()) == bytes,
{
    lemma_bytes_bits_len(data);
    lemma_bytes_bits_len(bytes);
    assert forall|j: int| 0 <= j < bytes.len() implies #[trigger] data.subrange(b, b + bytes.len())[j]
        == bytes[j] by {
        let x = data[b + j];
        let y = bytes[j];
        assert forall|t: nat| t < 8 implies #[trigger] bit_of(x as u64, t) == bit_of(y as u64, t) by {
            let ti = t as int;
            lemma_bytes_bits_index(data, b + j, ti);
            lemma_bytes_bits_index(bytes, j, ti);
            assert(bytes_bits(data).subrange(8 * b, 8 * (b + bytes.len()))[8 * j + ti] == bytes_bits(
                data,
            )[8 * (b + j) + ti]);
        }
        let x64 = x as u64;
        let y64 = y as u64;
        assert(bit_of(x64, 0) == bit_of(y64, 0));
        assert(bit_of(x64, 1) == bit_of(y64, 1));
        assert(bit_of(x64, 2) == bit_of(y64, 2));
        assert(bit_of(x64, 3) == bit_of(y64, 3));
        assert(bit_of(x64, 4) == bit_of(y64, 4));
        assert(bit_of(x64, 5) == bit_of(y64, 5));
        assert(bit_of(x64, 6) == bit_of(y64, 6));
        assert(bit_of(x64, 7) == bit_of(y64, 7));
        assert(x == y) by (bit_vector)
            requires
                x64 == x as u64,
                y64 == y as u64,
                ((x64 >> 0u64) & 1 == 1) == ((y64 >> 0u64) & 1 == 1),
                ((x64 >> 1u64) & 1 == 1) == ((y64 >> 1u64) & 1 == 1),
                ((x64 >> 2u64) & 1 == 1) == ((y64 >> 2u64) & 1 == 1),
                ((x64 >> 3u64) & 1 == 1) == ((y64 >> 3u64) & 1 == 1),
                ((x64 >> 4u64) & 1 == 1) == ((y64 >> 4u64) & 1 == 1),
                ((x64 >> 5u64) & 1 == 1) == ((y64 >> 5u64) & 1 == 1),
                ((x64 >> 6u64) & 1 == 1) == ((y64 >> 6u64) & 1 == 1),
                ((x64 >> 7u64) & 1 == 1) == ((y64 >> 7u64) & 1 == 1),
        ;
    }
    assert(data.subrange(b, b + bytes.len()) =~= bytes);
}

/// A stored block read back: the decoder's stored-block body at `p` over the
/// stream of `data` gives the bytes that were written.
pub proof fn lemma_stored_back(data: Seq<u8>, p: nat, out: Seq<u8>, bytes: Seq<u8>)
    requires
        bytes.len() <= 65535,
        p + stored_body(p, bytes).len() <= bytes_bits(data).len(),
        bytes_bits(data).subrange(p as int, (p + stored_body(p, bytes).len()) as int) == stored_body(
            p,
            bytes,
        ),
    ensures
        stored_block(data, p, out) == Ok::<(nat, Seq<u8>), InflateError>(
            ((p + stored_body(p, bytes).len()) as nat, out + bytes),
        ),
{
    let bits = bytes_bits(data);
    let n = bytes.len() as u64;
    let z = zero_bits(pad_len(p));
    let l1 = lsb_bits(n, 16);
    let l2 = lsb_bits(n ^ 0xFFFF, 16);
    let bb = bytes_bits(bytes);
    lemma_bytes_bits_len(bytes);
    lemma_bytes_bits_len(data);
    assert(stored_body(p, bytes) == z + l1 + l2 + bb);
    lemma_split(bits, p as int, z + l1 + l2, bb);
    lemma_split(bits, p as int, z + l1, l2);
    lemma_split(bits, p as int, z, l1);
    let q = p + pad_len(p);
    vstd::arithmetic::power2::lemma2_to64();
    assert(n < 65536);
    lemma_read_back(bits, q, n, 16);
    let nl = (n ^ 0xFFFF) as u64;
    assert(nl < 65536) by (bit_vector)
        requires
            n < 65536,
            nl == n ^ 0xFFFF,
    ;
    lemma_read_back(bits, q + 16, nl, 16);
    assert(n ^ nl == 0xFFFF) by (bit_vector)
        requires
            nl == n ^ 0xFFFF,
    ;
    assert(q % 8 == 0);
    let b = (q + 32) / 8;
    assert(8 * b == q + 32);
    lemma_bytes_from_bits(data, b as int, bytes);
}


/// The position of code-length symbol `idx` in `CODE_LENGTH_ORDER`.
pub open spec fn order_pos(idx: int) -> int {
    if idx == 16 {
        0
    } else if idx == 17 {
        1
    } else if idx == 18 {
        2
    } else if idx == 0 {
        3
    } else if idx == 8 {
        4
    } else if idx == 7 {
        5
    } else if idx == 9 {
        6
    } else if idx == 6 {
        7
    } else if idx == 10 {
        8
    } else if idx == 5 {
        9
    } else if idx == 11 {
        10
    } else if idx == 4 {
        11
    } else if idx == 12 {
        12
    } else if idx == 3 {
        13
    } else if idx == 13 {
        14
    } else if idx == 2 {
        15
    } else if idx == 14 {
        16
    } else if idx == 1 {
        17
    } else {
        18
    }
}

/// `CODE_LENGTH_ORDER` lists each of the 19 code-length symbols once.
pub proof fn lemma_order_inverse()
    ensures
        forall|j: int| 0 <= j < 19 ==> order_pos(#[trigger] CODE_LENGTH_ORDER[j] as int) == j,
        forall|idx: int| 0 <= idx < 19 ==> CODE_LENGTH_ORDER[#[trigger] order_pos(idx)] == idx,
{
    assert forall|j: int| 0 <= j < 19 implies order_pos(#[trigger] CODE_LENGTH_ORDER[j] as int) == j by {
        if j == 0 {} else if j == 1 {} else if j == 2 {} else if j == 3 {} else if j == 4 {}
        else if j == 5 {} else if j == 6 {} else if j == 7 {} else if j == 8 {} else if j == 9 {}
        else if j == 10 {} else if j == 11 {} else if j == 12 {} else if j == 13 {}
        else if j == 14 {} else if j == 15 {} else if j == 16 {} else if j == 17 {} else {}
    }
    assert forall|idx: int| 0 <= idx < 19 implies CODE_LENGTH_ORDER[#[trigger] order_pos(idx)]
        == idx by {
        if idx == 0 {} else if idx == 1 {} else if idx == 2 {} else if idx == 3 {} else if idx == 4 {}
        else if idx == 5 {} else if idx == 6 {} else if idx == 7 {} else if idx == 8 {}
        else if idx == 9 {} else if idx == 10 {} else if idx == 11 {} else if idx == 12 {}
        else if idx == 13 {} else if idx == 14 {} else if idx == 15 {} else if idx == 16 {}
        else if idx == 17 {} else {}
    }
}

/// The code-length code lengths after the first `k` transmitted entries.
pub open spec fn cl_partial(cl: Seq<u8>, k: int) -> Seq<u8> {
    Seq::new(19, |idx: int| if order_pos(idx) < k {
        cl[idx]
    } else {
        0u8
    })
}

/// The transmitted code-length code lengths read back: `count` 3-bit entries
/// in `CODE_LENGTH_ORDER` give back the 19 lengths, the rest being zero.
pub proof fn lemma_cl_read_back(bits: Seq<bool>, q: nat, cl: Seq<u8>, count: nat, k: nat)
    requires
        cl.len() == 19,
        forall|i: int| 0 <= i < 19 ==> #[trigger] cl[i] <= 7,
        k <= count <= 19,
        q + 3 * count <= bits.len(),
        bits.subrange(q as int, (q + 3 * count) as int) == cl_entries_bits(cl, count),
    ensures
        cl_read(bits, q + 3 * k, count, k, cl_partial(cl, k as int)) == Ok::<
            (nat, Seq<u8>),
            InflateError,
        >(((q + 3 * count) as nat, cl_partial(cl, count as int))),
    decreases count - k,
{
    if k < count {
        let qi = q as int;
        let ci = count as int;
        let ki = k as int;
        lemma_order_inverse();
        crate::huff::lemma_order_bound(ki);
        let idx = CODE_LENGTH_ORDER[ki] as int;
        let v = cl[idx] as u64;
        let k1 = (k + 1) as nat;
        lemma_cl_entries_prefix(cl, k1, count);
        assert(cl_entries_bits(cl, k1) == cl_entries_bits(cl, k) + lsb_bits(v, 3));
        lemma_cl_entries_len(cl, k);
        lemma_cl_entries_len(cl, k1);
        lemma_cl_entries_len(cl, count);
        assert(bits.subrange(qi, qi + 3 * (ki + 1)) =~= bits.subrange(qi, qi + 3 * ci).take(
            3 * (ki + 1),
        ));
        lemma_split(bits, qi, cl_entries_bits(cl, k), lsb_bits(v, 3));
        vstd::arithmetic::power2::lemma2_to64();
        lemma_read_back(bits, q + 3 * k, v, 3);
        assert(cl_partial(cl, ki).update(idx, v as u8) =~= cl_partial(cl, ki + 1));
        lemma_cl_read_back(bits, q, cl, count, k1);
    }
}

proof fn lemma_cl_entries_len(cl: Seq<u8>, k: nat)
    ensures
        cl_entries_bits(cl, k).len() == 3 * k,
    decreases k,
{
    if k > 0 {
        lemma_cl_entries_len(cl, (k - 1) as nat);
    }
}

/// The first `k` entries' bits are a prefix of the first `count` entries'.
proof fn lemma_cl_entries_prefix(cl: Seq<u8>, k: nat, count: nat)
    requires
        k <= count,
    ensures
        cl_entries_bits(cl, count).take(3 * k as int) == cl_entries_bits(cl, k),
    decreases count - k,
{
    lemma_cl_entries_len(cl, count);
    lemma_cl_entries_len(cl, k);
    if k == count {
        assert(cl_entries_bits(cl, count).take(3 * k as int) =~= cl_entries_bits(cl, k));
    } else {
        lemma_cl_entries_prefix(cl, k, (count - 1) as nat);
        lemma_cl_entries_len(cl, (count - 1) as nat);
        assert(cl_entries_bits(cl, count).take(3 * k as int) =~= cl_entries_bits(
            cl,
            (count - 1) as nat,
        ).take(3 * k as int));
    }
}


/// The bits of one run-coded pair: the symbol's code, then its repeat value.
pub open spec fn pair_bits(cl: Seq<u8>, pr: (u32, u32)) -> Seq<bool> {
    code_bits(cl, pr.0 as int) + lsb_bits(pr.1 as u64, rep_bits(pr.0))
}

/// The bits of concatenated pair lists are the concatenated bits.
pub proof fn lemma_rle_bits_concat(cl: Seq<u8>, a: Seq<(u32, u32)>, b: Seq<(u32, u32)>)
    ensures
        rle_bits(cl, a + b) == rle_bits(cl, a) + rle_bits(cl, b),
    decreases b.len(),
{
    if b.len() == 0 {
        assert(a + b =~= a);
        assert(rle_bits(cl, a) + rle_bits(cl, b) =~= rle_bits(cl, a));
    } else {
        lemma_rle_bits_concat(cl, a, b.drop_last());
        assert((a + b).drop_last() =~= a + b.drop_last());
        assert((a + b).last() == b.last());
        assert(rle_bits(cl, a + b) =~= rle_bits(cl, a) + rle_bits(cl, b));
    }
}

proof fn lemma_pair_front(cl: Seq<u8>, pr: (u32, u32), rest: Seq<(u32, u32)>)
    ensures
        rle_bits(cl, seq![pr] + rest) == pair_bits(cl, pr) + rle_bits(cl, rest),
{
    lemma_rle_bits_concat(cl, seq![pr], rest);
    assert(seq![pr].drop_last() =~= Seq::<(u32, u32)>::empty());
    assert(rle_bits(cl, seq![pr].drop_last()) == Seq::<bool>::empty());
    assert(seq![pr].last() == pr);
    assert(rle_bits(cl, seq![pr]) =~= pair_bits(cl, pr));
}

/// Code-length code lengths the decoder reads back with.
pub open spec fn cl_ok(cl: Seq<u8>) -> bool {
    &&& cl.len() == 19
    &&& lens_ok(cl)
}

/// One run-coded symbol read back: the decoder's code-length step over the
/// bits of pair `(sym, rep)` adds the lengths the pair stands for.
proof fn lemma_pair_back(
    bits: Seq<bool>,
    p: nat,
    cl: Seq<u8>,
    total: nat,
    acc: Seq<u8>,
    pr: (u32, u32),
    rest: Seq<(u32, u32)>,
    added: Seq<u8>,
)
    requires
        cl_ok(cl),
        pr.0 <= 18,
        cl[pr.0 as int] >= 1,
        pr.0 <= 15 ==> added == seq![pr.0 as u8],
        pr.0 == 16 ==> acc.len() > 0 && pr.1 < 4 && added == fill(acc.last(), (pr.1 + 3) as nat),
        pr.0 == 17 ==> pr.1 < 8 && added == fill(0, (pr.1 + 3) as nat),
        pr.0 == 18 ==> pr.1 < 128 && added == fill(0, (pr.1 + 11) as nat),
        acc.len() + added.len() <= total,
        acc.len() < total,
        p + pair_bits(cl, pr).len() + rle_bits(cl, rest).len() <= bits.len(),
        bits.subrange(p as int, (p + pair_bits(cl, pr).len() + rle_bits(cl, rest).len()) as int)
            == pair_bits(cl, pr) + rle_bits(cl, rest),
    ensures
        lens_loop(bits, p, cl, total, acc) == lens_loop(
            bits,
            (p + pair_bits(cl, pr).len()) as nat,
            cl,
            total,
            acc + added,
        ),
{
    let x = code_bits(cl, pr.0 as int);
    let y = lsb_bits(pr.1 as u64, rep_bits(pr.0));
    lemma_split(bits, p as int, pair_bits(cl, pr), rle_bits(cl, rest));
    lemma_split(bits, p as int, x, y);
    lemma_decode_code(bits, p, cl, pr.0 as int);
    vstd::arithmetic::power2::lemma2_to64();
    let p1 = (p + x.len()) as nat;
    if pr.0 <= 15 {
        assert(acc.push(pr.0 as u8) =~= acc + added);
        assert(rep_bits(pr.0) == 0);
    } else {
        lemma_read_back(bits, p1, pr.1 as u64, rep_bits(pr.0));
        assert(acc + added =~= acc + fill(
            if pr.0 == 16 {
                acc.last()
            } else {
                0u8
            },
            added.len(),
        ));
    }
}

/// The 16-chunks of a run read back: each repeats the previous length.
proof fn lemma_rep16_back(
    bits: Seq<bool>,
    p: nat,
    cl: Seq<u8>,
    s: Seq<u8>,
    j: int,
    rem: nat,
    rest: Seq<(u32, u32)>,
)
    requires
        cl_ok(cl),
        1 <= j,
        j + rem <= s.len(),
        forall|t: int| j - 1 <= t < j + rem ==> #[trigger] s[t] == s[j - 1],
        rem >= 4 ==> cl[16] >= 1,
        p + rle_bits(cl, rep16(rem)).len() + rle_bits(cl, rest).len() <= bits.len(),
        bits.subrange(p as int, (p + rle_bits(cl, rep16(rem)).len() + rle_bits(cl, rest).len()) as int)
            == rle_bits(cl, rep16(rem)) + rle_bits(cl, rest),
    ensures
        lens_loop(bits, p, cl, s.len(), s.take(j)) == lens_loop(
            bits,
            (p + rle_bits(cl, rep16(rem)).len()) as nat,
            cl,
            s.len(),
            s.take(j + used16(rem)),
        ),
    decreases rem,
{
    if rem >= 4 {
        let k = min_nat(rem, 6);
        let pr = (16u32, (k - 3) as u32);
        let tail = rep16((rem - k) as nat);
        assert(rep16(rem) == seq![pr] + tail);
        lemma_pair_front(cl, pr, tail);
        lemma_rle_bits_concat(cl, seq![pr] + tail, rest);
        lemma_rle_bits_concat(cl, tail, rest);
        assert(rle_bits(cl, rep16(rem)) + rle_bits(cl, rest) =~= pair_bits(cl, pr) + (rle_bits(
            cl,
            tail,
        ) + rle_bits(cl, rest)));
        let added = fill(s[j - 1], k);
        assert(s.take(j).last() == s[j - 1]);
        lemma_used16((rem - k) as nat);
        lemma_pair_back(
            bits,
            p,
            cl,
            s.len(),
            s.take(j),
            pr,
            tail + rest,
            added,
        );
        assert(s.take(j) + added =~= s.take(j + k));
        let p1 = (p + pair_bits(cl, pr).len()) as nat;
        lemma_split(bits, p as int, pair_bits(cl, pr), rle_bits(cl, tail) + rle_bits(cl, rest));
        lemma_rep16_back(bits, p1, cl, s, j + k, (rem - k) as nat, rest);
    } else {
        assert(rep16(rem) =~= Seq::<(u32, u32)>::empty());
        assert(s.take(j + used16(rem)) == s.take(j));
    }
}

/// The run-coded code lengths read back: the decoder's code-length loop over
/// the bits of `rle(s, i)`, after the first `i` lengths, gives all of `s`.
#[verifier::spinoff_prover]
#[verifier::rlimit(60)]
pub proof fn lemma_lens_back(bits: Seq<bool>, p: nat, cl: Seq<u8>, s: Seq<u8>, i: int)
    requires
        cl_ok(cl),
        forall|j: int| 0 <= j < s.len() ==> #[trigger] s[j] <= 15,
        0 <= i <= s.len(),
        forall|q: int| 0 <= q < rle(s, i).len() ==> cl[#[trigger] rle(s, i)[q].0 as int] >= 1,
        p + rle_bits(cl, rle(s, i)).len() <= bits.len(),
        bits.subrange(p as int, (p + rle_bits(cl, rle(s, i)).len()) as int) == rle_bits(cl, rle(s, i)),
    ensures
        lens_loop(bits, p, cl, s.len(), s.take(i)) == Ok::<(nat, Seq<u8>), InflateError>(
            ((p + rle_bits(cl, rle(s, i)).len()) as nat, s),
        ),
    decreases s.len() - i,
{
    if i == s.len() {
        assert(s.take(i) =~= s);
        assert(rle(s, i) =~= Seq::<(u32, u32)>::empty());
    } else {
        let v = s[i];
        let r = run_eq(s, v, i);
        lemma_run_eq_bound(s, v, i);
        lemma_used16((r - 1) as nat);
        crate::huff::lemma_rle_props(s, i);
        if v == 0 {
            let (pr, k) = if r >= 11 {
                let k = min_nat(r, 138);
                ((18u32, (k - 11) as u32), k)
            } else if r >= 3 {
                ((17u32, (r - 3) as u32), r)
            } else {
                ((0u32, 0u32), 1nat)
            };
            let rest = rle(s, i + k);
            assert(rle(s, i) == seq![pr] + rest);
            lemma_pair_front(cl, pr, rest);
            assert(cl[rle(s, i)[0].0 as int] >= 1);
            let added = fill(0, k);
            if pr.0 == 0 {
                assert(added =~= seq![0u8]);
            }
            lemma_pair_back(bits, p, cl, s.len(), s.take(i), pr, rest, added);
            assert(s.take(i) + added =~= s.take(i + k));
            lemma_split(bits, p as int, pair_bits(cl, pr), rle_bits(cl, rest));
            assert forall|q: int| 0 <= q < rest.len() implies cl[#[trigger] rest[q].0 as int] >= 1 by {
                assert(rle(s, i)[q + 1] == rest[q]);
            }
            lemma_lens_back(bits, (p + pair_bits(cl, pr).len()) as nat, cl, s, i + k);
        } else {
            let u = used16((r - 1) as nat);
            let pr = (v as u32, 0u32);
            let chunks = rep16((r - 1) as nat);
            let rest = rle(s, i + 1 + u);
            assert(rle(s, i) == seq![pr] + chunks + rest);
            lemma_pair_front(cl, pr, chunks + rest);
            lemma_rle_bits_concat(cl, chunks, rest);
            assert(seq![pr] + chunks + rest =~= seq![pr] + (chunks + rest));
            assert(cl[rle(s, i)[0].0 as int] >= 1);
            lemma_pair_back(bits, p, cl, s.len(), s.take(i), pr, chunks + rest, seq![v]);
            assert(s.take(i) + seq![v] =~= s.take(i + 1));
            let p1 = (p + pair_bits(cl, pr).len()) as nat;
            lemma_split(bits, p as int, pair_bits(cl, pr), rle_bits(cl, chunks + rest));
            crate::huff::lemma_rep16((r - 1) as nat);
            if r - 1 >= 4 {
                assert(rle(s, i)[1] == chunks[0]);
            }
            lemma_rep16_back(bits, p1, cl, s, i + 1, (r - 1) as nat, rest);
            let p2 = (p1 + rle_bits(cl, chunks).len()) as nat;
            lemma_split(bits, p1 as int, rle_bits(cl, chunks), rle_bits(cl, rest));
            assert forall|q: int| 0 <= q < rest.len() implies cl[#[trigger] rest[q].0 as int] >= 1 by {
                assert(rle(s, i)[q + 1 + chunks.len()] == rest[q]);
            }
            lemma_lens_back(bits, p2, cl, s, i + 1 + u);
        }
    }
}


/// A symbol's bits are the same under lengths with their trailing zeros
/// cut off, and those lengths still give it a code.
proof fn lemma_sym_bits_trim(lit: Seq<u8>, dist: Seq<u8>, lt: nat, dt: nat, s: Sym)
    requires
        lt <= lit.len(),
        dt <= dist.len(),
        forall|i: int| lt <= i < lit.len() ==> #[trigger] lit[i] == 0,
        forall|i: int| dt <= i < dist.len() ==> #[trigger] dist[i] == 0,
        plan_covers(lit, dist, s),
    ensures
        sym_bits(lit, dist, s) == sym_bits(lit.take(lt as int), dist.take(dt as int), s),
        covers(lit.take(lt as int), dist.take(dt as int), s),
{
    let ls = lit_symbol(s);
    assert(ls < lt) by {
        if ls >= lt {
            assert(lit[ls] == 0);
        }
    }
    lemma_canonical_trailing(lit, lt as int, ls);
    if let Sym::Match { len, dist: d } = s {
        let dc = dist_code(d);
        assert(dc < dt) by {
            if dc >= dt {
                assert(dist[dc] == 0);
            }
        }
        lemma_canonical_trailing(dist, dt as int, dc);
    }
}

proof fn lemma_syms_bits_trim(lit: Seq<u8>, dist: Seq<u8>, lt: nat, dt: nat, ss: Seq<Sym>)
    requires
        lt <= lit.len(),
        dt <= dist.len(),
        forall|i: int| lt <= i < lit.len() ==> #[trigger] lit[i] == 0,
        forall|i: int| dt <= i < dist.len() ==> #[trigger] dist[i] == 0,
        forall|q: int| 0 <= q < ss.len() ==> plan_covers(lit, dist, #[trigger] ss[q]),
    ensures
        syms_bits(lit, dist, ss) == syms_bits(lit.take(lt as int), dist.take(dt as int), ss),
        forall|q: int| 0 <= q < ss.len() ==> covers(lit.take(lt as int), dist.take(dt as int), #[trigger] ss[q]),
    decreases ss.len(),
{
    if ss.len() > 0 {
        lemma_syms_bits_trim(lit, dist, lt, dt, ss.drop_last());
        assert(plan_covers(lit, dist, ss[ss.len() - 1]));
        lemma_sym_bits_trim(lit, dist, lt, dt, ss.last());
        assert forall|q: int| 0 <= q < ss.len() implies covers(
            lit.take(lt as int),
            dist.take(dt as int),
            #[trigger] ss[q],
        ) by {
            if q < ss.len() - 1 {
                assert(ss.drop_last()[q] == ss[q]);
            } else {
                lemma_sym_bits_trim(lit, dist, lt, dt, ss[q]);
            }
        }
    }
}

/// A dynamic block body read back: the decoder's dynamic-block reading at
/// `p` over the header and symbols that were written gives the output of
/// phrases `a..b`.
pub proof fn lemma_dyn_back(
    bits: Seq<bool>,
    p: nat,
    ps: Seq<Phrase>,
    a: int,
    b: int,
    lit: Seq<u8>,
    dist: Seq<u8>,
    lt: nat,
    dt: nat,
    cl: Seq<u8>,
    n_clen: nat,
    pairs: Seq<(u32, u32)>,
)
    requires
        lit.len() == 286,
        dist.len() == 30,
        forall|i: int| 0 <= i < 286 ==> #[trigger] lit[i] <= 15,
        forall|i: int| 0 <= i < 30 ==> #[trigger] dist[i] <= 15,
        257 <= lt <= 286,
        1 <= dt <= 30,
        forall|i: int| lt <= i < 286 ==> #[trigger] lit[i] == 0,
        forall|i: int| dt <= i < 30 ==> #[trigger] dist[i] == 0,
        prefix_ok(lit.take(lt as int)),
        prefix_ok(dist.take(dt as int)),
        pairs == rle(lit.take(lt as int) + dist.take(dt as int), 0),
        cl_ok(cl),
        forall|i: int| 0 <= i < 19 ==> #[trigger] cl[i] <= 7,
        4 <= n_clen <= 19,
        forall|j: int| n_clen <= j < 19 ==> cl[#[trigger] CODE_LENGTH_ORDER[j] as int] == 0,
        forall|q: int| 0 <= q < pairs.len() ==> cl[#[trigger] pairs[q].0 as int] >= 1,
        phrases_ok(ps),
        0 <= a <= b <= ps.len(),
        forall|k: int| a <= k < b ==> phrase_fits(#[trigger] ps[k]),
        forall|q: int|
            0 <= q < block_syms(ps, a, b).len() ==> plan_covers(lit, dist, #[trigger] block_syms(ps, a, b)[q]),
        p + dynamic_header(lt, dt, n_clen, cl, pairs).len() + syms_bits(lit, dist, block_syms(ps, a, b)).len()
            <= bits.len(),
        bits.subrange(
            p as int,
            (p + dynamic_header(lt, dt, n_clen, cl, pairs).len() + syms_bits(
                lit,
                dist,
                block_syms(ps, a, b),
            ).len()) as int,
        ) == dynamic_header(lt, dt, n_clen, cl, pairs) + syms_bits(lit, dist, block_syms(ps, a, b)),
    ensures
        dyn_block(bits, p, expand(ps.take(a))) == Ok::<(nat, Seq<u8>), InflateError>(
            (
                (p + dynamic_header(lt, dt, n_clen, cl, pairs).len() + syms_bits(
                    lit,
                    dist,
                    block_syms(ps, a, b),
                ).len()) as nat,
                expand(ps.take(b)),
            ),
        ),
{
    let lit_t = lit.take(lt as int);
    let dist_t = dist.take(dt as int);
    let bs = block_syms(ps, a, b);
    let h1 = lsb_bits((lt - 257) as u64, 5);
    let h2 = lsb_bits((dt - 1) as u64, 5);
    let h3 = lsb_bits((n_clen - 4) as u64, 4);
    let e = cl_entries_bits(cl, n_clen);
    let rb = rle_bits(cl, pairs);
    let sb = syms_bits(lit, dist, bs);
    let pi = p as int;
    lemma_split(bits, pi, h1 + h2 + h3 + e + rb, sb);
    lemma_split(bits, pi, h1 + h2 + h3 + e, rb);
    lemma_split(bits, pi, h1 + h2 + h3, e);
    lemma_split(bits, pi, h1 + h2, h3);
    lemma_split(bits, pi, h1, h2);
    vstd::arithmetic::power2::lemma2_to64();
    lemma_read_back(bits, p, (lt - 257) as u64, 5);
    lemma_read_back(bits, p + 5, (dt - 1) as u64, 5);
    lemma_read_back(bits, p + 10, (n_clen - 4) as u64, 4);
    lemma_cl_entries_len(cl, n_clen);
    lemma_cl_read_back(bits, p + 14, cl, n_clen, 0);
    assert(cl_partial(cl, 0) =~= Seq::new(19, |i: int| 0u8));
    lemma_order_inverse();
    assert(cl_partial(cl, n_clen as int) =~= cl) by {
        assert forall|idx: int| 0 <= idx < 19 implies #[trigger] cl_partial(cl, n_clen as int)[idx]
            == cl[idx] by {
            let j = order_pos(idx);
            assert(CODE_LENGTH_ORDER[j] == idx);
            if j >= n_clen {
                assert(cl[CODE_LENGTH_ORDER[j] as int] == 0);
            }
        }
    }
    let s = lit_t + dist_t;
    assert(s.take(0) =~= Seq::<u8>::empty());
    assert forall|j: int| 0 <= j < s.len() implies #[trigger] s[j] <= 15 by {
        if j < lt {
            assert(s[j] == lit[j]);
        } else {
            assert(s[j] == dist[j - lt]);
        }
    }
    let p1 = (p + 14 + 3 * n_clen) as nat;
    lemma_lens_back(bits, p1, cl, s, 0);
    assert(s.take(lt as int) =~= lit_t);
    assert(s.skip(lt as int) =~= dist_t);
    let p2 = (p1 + rb.len()) as nat;
    lemma_syms_bits_trim(lit, dist, lt, dt, bs);
    assert(lens_ok(lit_t)) by {
        assert forall|j: int| 0 <= j < lit_t.len() implies #[trigger] lit_t[j] <= 15 by {
            assert(lit_t[j] == lit[j]);
        }
    }
    assert(lens_ok(dist_t)) by {
        assert forall|j: int| 0 <= j < dist_t.len() implies #[trigger] dist_t[j] <= 15 by {
            assert(dist_t[j] == dist[j]);
        }
    }
    lemma_block_loop(bits, p2, ps, a, b, lit_t, dist_t);
}

/// The decoder reads a block header back.
proof fn lemma_header_back(bits: Seq<bool>, p: nat, bfinal: u64, btype: u64, rest: Seq<bool>)
    requires
        bfinal <= 1,
        btype <= 3,
        p + 3 + rest.len() <= bits.len(),
        bits.subrange(p as int, (p + 3 + rest.len()) as int) == block_header(bfinal, btype) + rest,
    ensures
        read_lsb(bits, p, 1) == Some(bfinal),
        read_lsb(bits, p + 1, 2) == Some(btype),
        bits.subrange((p + 3) as int, (p + 3 + rest.len()) as int) == rest,
{
    let x = lsb_bits(bfinal, 1);
    let y = lsb_bits(btype, 2);
    lemma_split(bits, p as int, x + y, rest);
    lemma_split(bits, p as int, x, y);
    vstd::arithmetic::power2::lemma2_to64();
    lemma_read_back(bits, p, bfinal, 1);
    lemma_read_back(bits, p + 1, btype, 2);
}

/// Block `seg`, written at stream position `pos`, reads back: in every byte
/// string whose stream holds `seg` at `pos`, the decoder's block at `pos`,
/// after output `out`, has the given BFINAL, ends right after `seg`, and
/// leaves output `out2`.
pub open spec fn block_decodes(seg: Seq<bool>, pos: nat, bfinal: u64, out: Seq<u8>, out2: Seq<u8>) -> bool {
    forall|data: Seq<u8>|
        #![trigger one_block(data, pos, out)]
        pos + seg.len() <= bytes_bits(data).len() && bytes_bits(data).subrange(
            pos as int,
            (pos + seg.len()) as int,
        ) == seg ==> one_block(data, pos, out) == Ok::<(u64, nat, Seq<u8>), InflateError>(
            (bfinal, (pos + seg.len()) as nat, out2),
        )
}

/// A stored block reads back.
pub proof fn lemma_stored_decodes(pos: nat, bfinal: u64, out: Seq<u8>, bytes: Seq<u8>)
    requires
        bfinal <= 1,
        bytes.len() <= 65535,
    ensures
        block_decodes(
            block_header(bfinal, 0) + stored_body(pos + 3, bytes),
            pos,
            bfinal,
            out,
            out + bytes,
        ),
{
    let seg = block_header(bfinal, 0) + stored_body(pos + 3, bytes);
    assert forall|data: Seq<u8>|
        pos + seg.len() <= bytes_bits(data).len() && bytes_bits(data).subrange(
            pos as int,
            (pos + seg.len()) as int,
        ) == seg implies #[trigger] one_block(data, pos, out) == Ok::<
        (u64, nat, Seq<u8>),
        InflateError,
    >((bfinal, (pos + seg.len()) as nat, out + bytes)) by {
        lemma_header_back(bytes_bits(data), pos, bfinal, 0, stored_body(pos + 3, bytes));
        lemma_stored_back(data, pos + 3, out, bytes);
    }
}

/// A fixed-code block reads back.
pub proof fn lemma_fixed_decodes(pos: nat, bfinal: u64, ps: Seq<Phrase>, a: int, b: int)
    requires
        bfinal <= 1,
        phrases_ok(ps),
        0 <= a <= b <= ps.len(),
        forall|k: int| a <= k < b ==> phrase_fits(#[trigger] ps[k]),
    ensures
        block_decodes(
            block_header(bfinal, 1) + syms_bits(fixed_lit_seq(), fixed_dist_seq(), block_syms(ps, a, b)),
            pos,
            bfinal,
            expand(ps.take(a)),
            expand(ps.take(b)),
        ),
{
    let lit = fixed_lit_seq();
    let dist = fixed_dist_seq();
    let bs = block_syms(ps, a, b);
    let sb = syms_bits(lit, dist, bs);
    let seg = block_header(bfinal, 1) + sb;
    lemma_fixed_prefix_ok();
    assert forall|q: int| 0 <= q < bs.len() implies covers(lit, dist, #[trigger] bs[q]) by {
        let s = bs[q];
        if q < b - a {
            assert(s == phrase_sym(ps[a + q]));
            assert(phrase_fits(ps[a + q]));
        }
        if let Sym::Match { len, dist: d } = s {
            crate::deflate::lemma_code_ranges(len, d);
        }
    }
    assert forall|data: Seq<u8>|
        pos + seg.len() <= bytes_bits(data).len() && bytes_bits(data).subrange(
            pos as int,
            (pos + seg.len()) as int,
        ) == seg implies #[trigger] one_block(data, pos, expand(ps.take(a))) == Ok::<
        (u64, nat, Seq<u8>),
        InflateError,
    >((bfinal, (pos + seg.len()) as nat, expand(ps.take(b)))) by {
        let bits = bytes_bits(data);
        lemma_header_back(bits, pos, bfinal, 1, sb);
        lemma_block_loop(bits, pos + 3, ps, a, b, lit, dist);
    }
}


/// A dynamic block reads back.
pub proof fn lemma_dynamic_decodes(
    pos: nat,
    bfinal: u64,
    ps: Seq<Phrase>,
    a: int,
    b: int,
    lit: Seq<u8>,
    dist: Seq<u8>,
    lt: nat,
    dt: nat,
    cl: Seq<u8>,
    n_clen: nat,
    pairs: Seq<(u32, u32)>,
)
    requires
        bfinal <= 1,
        lit.len() == 286,
        dist.len() == 30,
        forall|i: int| 0 <= i < 286 ==> #[trigger] lit[i] <= 15,
        forall|i: int| 0 <= i < 30 ==> #[trigger] dist[i] <= 15,
        257 <= lt <= 286,
        1 <= dt <= 30,
        forall|i: int| lt <= i < 286 ==> #[trigger] lit[i] == 0,
        forall|i: int| dt <= i < 30 ==> #[trigger] dist[i] == 0,
        prefix_ok(lit.take(lt as int)),
        prefix_ok(dist.take(dt as int)),
        pairs == rle(lit.take(lt as int) + dist.take(dt as int), 0),
        cl_ok(cl),
        forall|i: int| 0 <= i < 19 ==> #[trigger] cl[i] <= 7,
        4 <= n_clen <= 19,
        forall|j: int| n_clen <= j < 19 ==> cl[#[trigger] CODE_LENGTH_ORDER[j] as int] == 0,
        forall|q: int| 0 <= q < pairs.len() ==> cl[#[trigger] pairs[q].0 as int] >= 1,
        phrases_ok(ps),
        0 <= a <= b <= ps.len(),
        forall|k: int| a <= k < b ==> phrase_fits(#[trigger] ps[k]),
        forall|q: int|
            0 <= q < block_syms(ps, a, b).len() ==> plan_covers(lit, dist, #[trigger] block_syms(ps, a, b)[q]),
    ensures
        block_decodes(
            block_header(bfinal, 2) + dynamic_header(lt, dt, n_clen, cl, pairs) + syms_bits(
                lit,
                dist,
                block_syms(ps, a, b),
            ),
            pos,
            bfinal,
            expand(ps.take(a)),
            expand(ps.take(b)),
        ),
{
    let h = dynamic_header(lt, dt, n_clen, cl, pairs);
    let sb = syms_bits(lit, dist, block_syms(ps, a, b));
    let seg = block_header(bfinal, 2) + h + sb;
    assert(seg =~= block_header(bfinal, 2) + (h + sb));
    assert forall|data: Seq<u8>|
        pos + seg.len() <= bytes_bits(data).len() && bytes_bits(data).subrange(
            pos as int,
            (pos + seg.len()) as int,
        ) == seg implies #[trigger] one_block(data, pos, expand(ps.take(a))) == Ok::<
        (u64, nat, Seq<u8>),
        InflateError,
    >((bfinal, (pos + seg.len()) as nat, expand(ps.take(b)))) by {
        let bits = bytes_bits(data);
        lemma_header_back(bits, pos, bfinal, 2, h + sb);
        lemma_dyn_back(bits, pos + 3, ps, a, b, lit, dist, lt, dt, cl, n_clen, pairs);
    }
}


/// A chain of blocks reads back: when each block `j` of the stream of
/// `data`, between positions `poss[j]` and `poss[j + 1]`, reads back from
/// output `outs[j]` to `outs[j + 1]`, and only the last is final, the
/// decoder's block loop from block `k` ends with `outs[n]`.
pub proof fn lemma_blocks_chain(
    data: Seq<u8>,
    poss: Seq<nat>,
    outs: Seq<Seq<u8>>,
    k: nat,
    fuel: nat,
)
    requires
        poss.len() >= 2,
        outs.len() == poss.len(),
        k < poss.len() - 1,
        fuel >= poss.len() - 1 - k,
        forall|j: int| 0 <= j < poss.len() - 1 ==> #[trigger] poss[j] <= poss[j + 1],
        poss[poss.len() - 1] <= bytes_bits(data).len(),
        forall|j: int|
            0 <= j < poss.len() - 1 ==> block_decodes(
                bytes_bits(data).subrange(#[trigger] poss[j] as int, poss[j + 1] as int),
                poss[j],
                if j == poss.len() - 2 {
                    1u64
                } else {
                    0u64
                },
                outs[j],
                outs[j + 1],
            ),
    ensures
        blocks(data, poss[k as int], outs[k as int], fuel) == Ok::<Seq<u8>, InflateError>(
            outs[poss.len() - 1],
        ),
    decreases poss.len() - 1 - k,
{
    let n = poss.len() - 1;
    let ki = k as int;
    lemma_poss_bound(poss, ki + 1);
    let seg = bytes_bits(data).subrange(poss[ki] as int, poss[ki + 1] as int);
    assert(block_decodes(seg, poss[ki], if ki == n - 1 {
        1u64
    } else {
        0u64
    }, outs[ki], outs[ki + 1]));
    assert(poss[ki] + seg.len() == poss[ki + 1]);
    assert(bytes_bits(data).subrange(poss[ki] as int, (poss[ki] + seg.len()) as int) == seg);
    assert(one_block(data, poss[ki], outs[ki]) == Ok::<(u64, nat, Seq<u8>), InflateError>(
        (if ki == n - 1 {
            1u64
        } else {
            0u64
        }, poss[ki + 1], outs[ki + 1]),
    ));
    if ki < n - 1 {
        lemma_blocks_chain(data, poss, outs, k + 1, (fuel - 1) as nat);
    }
}

proof fn lemma_poss_bound(poss: Seq<nat>, j: int)
    requires
        poss.len() >= 1,
        0 <= j < poss.len(),
        forall|i: int| 0 <= i < poss.len() - 1 ==> #[trigger] poss[i] <= poss[i + 1],
    ensures
        poss[j] <= poss[poss.len() - 1],
    decreases poss.len() - 1 - j,
{
    if j < poss.len() - 1 {
        lemma_poss_bound(poss, j + 1);
    }
}

/// The first 40 bits of a stream opening with a final stored block header
/// byte `01`, LEN bytes `lo hi` and NLEN bytes `nlo nhi`: BFINAL = 1,
/// BTYPE = 00, five padding bits, LEN, NLEN (least significant bit first).
proof fn lemma_stored_head_bits(data: Seq<u8>)
    requires
        data.len() >= 5,
        data[0] == 1,
    ensures
        bytes_bits(data).subrange(0, 40) == block_header(1, 0) + zero_bits(5) + lsb_bits(
            (data[1] + 256 * data[2]) as u64,
            16,
        ) + lsb_bits((data[3] + 256 * data[4]) as u64, 16),
{
    let bb = bytes_bits(data);
    let len = (data[1] + 256 * data[2]) as u64;
    let nlen = (data[3] + 256 * data[4]) as u64;
    let h = block_header(1, 0);
    let w = h + zero_bits(5) + lsb_bits(len, 16) + lsb_bits(nlen, 16);
    lemma_bytes_bits_len(data);
    crate::kats::lemma_bits_1();
    assert forall|i: int| 0 <= i < 40 implies #[trigger] bb[i] == w[i] by {
        let j = i / 8;
        let t = i % 8;
        lemma_bytes_bits_index(data, j, t);
        if i < 8 {
            crate::bits::lemma_bit_of_value(0, 0);
            crate::bits::lemma_bit_of_value(0, 1);
            vstd::arithmetic::power2::lemma2_to64();
            assert(h[0] == bit_of(1, 0) && h[1] == bit_of(0, 0) && h[2] == bit_of(0, 1));
            if i < 3 {
                assert(w[i] == h[i]);
            }
            if i == 0 {} else if i == 1 {} else if i == 2 {} else if i == 3 {} else if i == 4 {}
            else if i == 5 {} else if i == 6 {} else {}
        } else if i < 24 {
            crate::kats::lemma_bit_of_u16(len, data[1], data[2], (i - 8) as nat);
            assert(w[i] == lsb_bits(len, 16)[i - 8]);
        } else {
            crate::kats::lemma_bit_of_u16(nlen, data[3], data[4], (i - 24) as nat);
            assert(w[i] == lsb_bits(nlen, 16)[i - 24]);
        }
    }
    assert(bb.subrange(0, 40) =~= w);
}

/// A final stored block carries its bytes verbatim: a stream of the header
/// byte `01`, LEN, NLEN = ~LEN and the `LEN` bytes decodes to those bytes.
pub proof fn law_stored_block_decodes(lo: u8, hi: u8, bytes: Seq<u8>)
    requires
        bytes.len() == lo + 256 * hi,
    ensures
        crate::inflate::spec_inflate(seq![0x01u8, lo, hi, (255 - lo) as u8, (255 - hi) as u8] + bytes)
            == Ok::<Seq<u8>, InflateError>(bytes),
{
    let data = seq![0x01u8, lo, hi, (255 - lo) as u8, (255 - hi) as u8] + bytes;
    let len = bytes.len() as u64;
    crate::bits::lemma_complement16(len, 0);
    assert(data[1] + 256 * data[2] == len);
    assert(data[3] + 256 * data[4] == 65535 - len);
    lemma_stored_head_bits(data);
    let seg = block_header(1, 0) + stored_body(3, bytes);
    assert(pad_len(3) == 5);
    let bb = bytes_bits(data);
    lemma_bytes_bits_len(data);
    lemma_bytes_bits_len(bytes);
    assert(seg =~= block_header(1, 0) + zero_bits(5) + lsb_bits(len, 16) + lsb_bits(
        (65535 - len) as u64,
        16,
    ) + bytes_bits(bytes));
    assert forall|i: int| 40 <= i < bb.len() implies #[trigger] bb[i] == seg[i] by {
        let j = i / 8;
        let t = i % 8;
        lemma_bytes_bits_index(data, j, t);
        lemma_bytes_bits_index(bytes, j - 5, t);
        assert(data[j] == bytes[j - 5]);
        assert(seg[i] == bytes_bits(bytes)[i - 40]);
    }
    assert forall|i: int| 0 <= i < 40 implies #[trigger] bb[i] == seg[i] by {
        assert(bb[i] == bb.subrange(0, 40)[i]);
    }
    assert(bb =~= seg);
    lemma_stored_decodes(0, 1, Seq::empty(), bytes);
    assert(Seq::<u8>::empty() + bytes =~= bytes);
    let poss = seq![0nat, bb.len()];
    let outs = seq![Seq::<u8>::empty(), bytes];
    assert(bb.subrange(0, bb.len() as int) =~= seg);
    lemma_blocks_chain(data, poss, outs, 0, 8 * data.len() + 1);
}

/// A stored block whose NLEN is not the complement of its LEN is refused
/// as malformed, whatever follows.
pub proof fn law_stored_nlen_checked(lo: u8, hi: u8, nlo: u8, nhi: u8, rest: Seq<u8>)
    requires
        (lo + 256 * hi) + (nlo + 256 * nhi) != 65535,
    ensures
        crate::inflate::spec_inflate(seq![0x01u8, lo, hi, nlo, nhi] + rest) == Err::<
            Seq<u8>,
            InflateError,
        >(InflateError::BadFormat),
{
    let data = seq![0x01u8, lo, hi, nlo, nhi] + rest;
    let len = (lo + 256 * hi) as u64;
    let nlen = (nlo + 256 * nhi) as u64;
    assert(data[1] + 256 * data[2] == len);
    assert(data[3] + 256 * data[4] == nlen);
    lemma_stored_head_bits(data);
    let bb = bytes_bits(data);
    lemma_bytes_bits_len(data);
    let r1 = lsb_bits(len, 16);
    let r2 = lsb_bits(nlen, 16);
    let rest_bits = zero_bits(5) + r1 + r2;
    assert(bb.subrange(0, 40) =~= block_header(1, 0) + rest_bits);
    lemma_header_back(bb, 0, 1, 0, rest_bits);
    assert(pad_len(3) == 5);
    assert(bb.subrange(8, 24) =~= r1) by {
        assert forall|i: int| 0 <= i < 16 implies bb.subrange(8, 24)[i] == r1[i] by {
            assert(bb.subrange(8, 24)[i] == bb.subrange(0, 40)[8 + i]);
        }
    }
    assert(bb.subrange(24, 40) =~= r2) by {
        assert forall|i: int| 0 <= i < 16 implies bb.subrange(24, 40)[i] == r2[i] by {
            assert(bb.subrange(24, 40)[i] == bb.subrange(0, 40)[24 + i]);
        }
    }
    vstd::arithmetic::power2::lemma2_to64();
    lemma_read_back(bb, 8, len, 16);
    lemma_read_back(bb, 24, nlen, 16);
    crate::bits::lemma_complement16(len, nlen);
    assert(stored_block(data, 3, Seq::empty()) == Err::<(nat, Seq<u8>), InflateError>(
        InflateError::BadFormat,
    ));
    assert(one_block(data, 0, Seq::empty()) == Err::<(u64, nat, Seq<u8>), InflateError>(
        InflateError::BadFormat,
    ));
}

/// A block whose BTYPE is 11 (reserved) is refused as malformed: a stream
/// whose first byte has bits 1 and 2 set never decodes.
pub proof fn law_reserved_btype_refused(b0: u8, rest: Seq<u8>)
    requires
        (b0 / 2) % 4 == 3,
    ensures
        crate::inflate::spec_inflate(seq![b0] + rest) == Err::<Seq<u8>, InflateError>(
            InflateError::BadFormat,
        ),
{
    let data = seq![b0] + rest;
    let bb = bytes_bits(data);
    lemma_bytes_bits_len(data);
    lemma_bytes_bits_index(data, 0, 0);
    lemma_bytes_bits_index(data, 0, 1);
    lemma_bytes_bits_index(data, 0, 2);
    vstd::arithmetic::power2::lemma2_to64();
    crate::bits::lemma_bit_of_value(b0 as u64, 0);
    crate::bits::lemma_bit_of_value(b0 as u64, 1);
    crate::bits::lemma_bit_of_value(b0 as u64, 2);
    let v0: u64 = (b0 % 2) as u64;
    assert(bb.subrange(0, 1) =~= lsb_bits(v0, 1)) by {
        crate::bits::lemma_bit_of_value(v0, 0);
    }
    assert(bb.subrange(1, 3) =~= lsb_bits(3, 2)) by {
        crate::bits::lemma_bit_of_value(3, 0);
        crate::bits::lemma_bit_of_value(3, 1);
        assert(((b0 as int) / 4) % 2 == 1) by {
            assert((b0 as int) / 4 == ((b0 as int) / 2) / 2);
        }
    }
    lemma_read_back(bb, 0, v0, 1);
    lemma_read_back(bb, 1, 3, 2);
    assert(one_block(data, 0, Seq::empty()) == Err::<(u64, nat, Seq<u8>), InflateError>(
        InflateError::BadFormat,
    ));
}

/// A stored block promising more bytes than the stream holds is refused as
/// truncated.
pub proof fn law_stored_truncated(lo: u8, hi: u8, rest: Seq<u8>)
    requires
        rest.len() < lo + 256 * hi,
    ensures
        crate::inflate::spec_inflate(seq![0x01u8, lo, hi, (255 - lo) as u8, (255 - hi) as u8] + rest)
            == Err::<Seq<u8>, InflateError>(InflateError::Truncated),
{
    let data = seq![0x01u8, lo, hi, (255 - lo) as u8, (255 - hi) as u8] + rest;
    let len = (lo + 256 * hi) as u64;
    let nlen = (65535 - len) as u64;
    assert(data[1] + 256 * data[2] == len);
    assert(data[3] + 256 * data[4] == nlen);
    lemma_stored_head_bits(data);
    let bb = bytes_bits(data);
    lemma_bytes_bits_len(data);
    let r1 = lsb_bits(len, 16);
    let r2 = lsb_bits(nlen, 16);
    let rest_bits = zero_bits(5) + r1 + r2;
    assert(bb.subrange(0, 40) =~= block_header(1, 0) + rest_bits);
    lemma_header_back(bb, 0, 1, 0, rest_bits);
    assert(pad_len(3) == 5);
    assert(bb.subrange(8, 24) =~= r1) by {
        assert forall|i: int| 0 <= i < 16 implies bb.subrange(8, 24)[i] == r1[i] by {
            assert(bb.subrange(8, 24)[i] == bb.subrange(0, 40)[8 + i]);
        }
    }
    assert(bb.subrange(24, 40) =~= r2) by {
        assert forall|i: int| 0 <= i < 16 implies bb.subrange(24, 40)[i] == r2[i] by {
            assert(bb.subrange(24, 40)[i] == bb.subrange(0, 40)[24 + i]);
        }
    }
    vstd::arithmetic::power2::lemma2_to64();
    lemma_read_back(bb, 8, len, 16);
    lemma_read_back(bb, 24, nlen, 16);
    crate::bits::lemma_complement16(len, nlen);
    assert(stored_block(data, 3, Seq::empty()) == Err::<(nat, Seq<u8>), InflateError>(
        InflateError::Truncated,
    ));
    assert(one_block(data, 0, Seq::empty()) == Err::<(u64, nat, Seq<u8>), InflateError>(
        InflateError::Truncated,
    ));
}

/// A dynamic block announcing more than 30 distance codes (HDIST + 1 > 30)
/// is refused as malformed.
pub proof fn law_dynamic_hdist_bound(b0: u8, b1: u8, b2: u8, rest: Seq<u8>)
    requires
        (b0 / 2) % 4 == 2,
        b1 % 32 >= 30,
    ensures
        crate::inflate::spec_inflate(seq![b0, b1, b2] + rest) == Err::<Seq<u8>, InflateError>(
            InflateError::BadFormat,
        ),
{
    let data = seq![b0, b1, b2] + rest;
    let bb = bytes_bits(data);
    lemma_bytes_bits_len(data);
    vstd::arithmetic::power2::lemma2_to64();
    lemma_bytes_bits_index(data, 0, 0);
    lemma_bytes_bits_index(data, 0, 1);
    lemma_bytes_bits_index(data, 0, 2);
    crate::bits::lemma_bit_of_value(b0 as u64, 0);
    crate::bits::lemma_bit_of_value(b0 as u64, 1);
    crate::bits::lemma_bit_of_value(b0 as u64, 2);
    let v0: u64 = (b0 % 2) as u64;
    assert(bb.subrange(0, 1) =~= lsb_bits(v0, 1)) by {
        crate::bits::lemma_bit_of_value(v0, 0);
    }
    assert(bb.subrange(1, 3) =~= lsb_bits(2, 2)) by {
        crate::bits::lemma_bit_of_value(2, 0);
        crate::bits::lemma_bit_of_value(2, 1);
        assert((b0 as int) / 4 == ((b0 as int) / 2) / 2);
    }
    lemma_read_back(bb, 0, v0, 1);
    lemma_read_back(bb, 1, 2, 2);
    let hd: u64 = (b1 % 32) as u64;
    assert(bb.subrange(8, 13) =~= lsb_bits(hd, 5)) by {
        assert forall|t: int| 0 <= t < 5 implies bb.subrange(8, 13)[t] == lsb_bits(hd, 5)[t] by {
            lemma_bytes_bits_index(data, 1, t);
            crate::bits::lemma_bit_of_value(b1 as u64, t as nat);
            crate::bits::lemma_bit_of_value(hd, t as nat);
            let b = b1 as int;
            if t == 0 {
            } else if t == 1 {
                assert((b % 32) / 2 % 2 == (b / 2) % 2) by (nonlinear_arith)
                    requires
                        0 <= b < 256,
                ;
            } else if t == 2 {
                assert((b % 32) / 4 % 2 == (b / 4) % 2) by (nonlinear_arith)
                    requires
                        0 <= b < 256,
                ;
            } else if t == 3 {
                assert((b % 32) / 8 % 2 == (b / 8) % 2) by (nonlinear_arith)
                    requires
                        0 <= b < 256,
                ;
            } else {
                assert((b % 32) / 16 % 2 == (b / 16) % 2) by (nonlinear_arith)
                    requires
                        0 <= b < 256,
                ;
            }
        }
    }
    lemma_read_back(bb, 8, hd, 5);
    assert(read_lsb(bb, 3, 5) is Some);
    assert(read_lsb(bb, 13, 4) is Some);
    assert(dyn_block(bb, 3, Seq::empty()) == Err::<(nat, Seq<u8>), InflateError>(
        InflateError::BadFormat,
    ));
    assert(one_block(data, 0, Seq::empty()) == Err::<(u64, nat, Seq<u8>), InflateError>(
        InflateError::BadFormat,
    ));
}

} // verus!
