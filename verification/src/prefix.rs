//! Canonical prefix codes (RFC 1951 §3.2.2): when code lengths satisfy the
//! Kraft inequality, the canonical code of each symbol is the only code its
//! bits begin with, so the decoder reads back exactly the symbol that was
//! written.
use vstd::prelude::*;
use vstd::arithmetic::power2::{pow2, lemma_pow2_unfold, lemma_pow2_adds, lemma_pow2_pos};
use crate::bits::{low_mask, msb_bits, msb_value, lemma_msb_value_bits};
use crate::huff::{
    count_len, code_start, canonical_code, seq_max, lookup_prefix, lemma_lookup_found,
};
use crate::inflate::{kraft_sum, prefix_ok, lemma_seq_max_ge, decode_sym, sym_scan, fixed_lit_seq, fixed_dist_seq};

verus! {

/// `Σ_{k=1}^{l} count(k) · 2^(m - k)`: the Kraft weight of the codes of
/// length at most `l` among the first `n` symbols, in units of `2^-m`.
pub open spec fn weight(lens: Seq<u8>, m: nat, l: nat, n: int) -> nat
    decreases l,
{
    if l == 0 {
        0
    } else {
        weight(lens, m, (l - 1) as nat, n) + count_len(lens, l as int, n) * pow2((m - l) as nat)
    }
}

proof fn lemma_weight_step_n(lens: Seq<u8>, m: nat, l: nat, n: int)
    requires
        1 <= n <= lens.len(),
        l <= m,
    ensures
        weight(lens, m, l, n) == weight(lens, m, l, n - 1) + (if 1 <= lens[n - 1] <= l {
            pow2((m - lens[n - 1]) as nat)
        } else {
            0
        }),
    decreases l,
{
    if l > 0 {
        lemma_weight_step_n(lens, m, (l - 1) as nat, n);
        let c1 = count_len(lens, l as int, n - 1);
        let pw = pow2((m - l) as nat);
        if lens[n - 1] == l {
            assert(count_len(lens, l as int, n) == c1 + 1);
            assert((c1 + 1) * pw == c1 * pw + pw) by (nonlinear_arith);
        } else {
            assert(count_len(lens, l as int, n) == c1);
        }
    }
}

/// The Kraft sum of a prefix is its weight over all lengths.
proof fn lemma_kraft_weight(lens: Seq<u8>, m: nat, n: int)
    requires
        0 <= n <= lens.len(),
        forall|j: int| 0 <= j < n ==> #[trigger] lens[j] <= m,
    ensures
        kraft_sum(lens.take(n), m) == weight(lens, m, m, n),
    decreases n,
{
    if n == 0 {
        lemma_weight_zero(lens, m, m);
    } else {
        lemma_kraft_weight(lens, m, n - 1);
        assert(lens.take(n).drop_last() =~= lens.take(n - 1));
        lemma_weight_step_n(lens, m, m, n);
    }
}

proof fn lemma_weight_zero(lens: Seq<u8>, m: nat, l: nat)
    ensures
        weight(lens, m, l, 0) == 0,
    decreases l,
{
    if l > 0 {
        lemma_weight_zero(lens, m, (l - 1) as nat);
        assert(count_len(lens, l as int, 0) == 0);
        assert(0 * pow2((m - l) as nat) == 0);
    }
}

proof fn lemma_weight_double(lens: Seq<u8>, m: nat, l: nat, n: int)
    requires
        l <= m,
    ensures
        weight(lens, m + 1, l, n) == 2 * weight(lens, m, l, n),
    decreases l,
{
    if l > 0 {
        lemma_weight_double(lens, m, (l - 1) as nat, n);
        lemma_pow2_unfold((m + 1 - l) as nat);
        let c = count_len(lens, l as int, n);
        let pw = pow2((m - l) as nat);
        assert(c * (2 * pw) == 2 * (c * pw)) by (nonlinear_arith);
    }
}

proof fn lemma_weight_scale(lens: Seq<u8>, m: nat, l: nat, n: int)
    requires
        l <= m,
    ensures
        weight(lens, m, l, n) == pow2((m - l) as nat) * weight(lens, l, l, n),
    decreases m - l,
{
    let w = weight(lens, l, l, n);
    if m == l {
        vstd::arithmetic::power2::lemma2_to64();
        assert(pow2(0) == 1);
        assert(1 * w == w);
    } else {
        lemma_weight_scale(lens, (m - 1) as nat, l, n);
        lemma_weight_double(lens, (m - 1) as nat, l, n);
        lemma_pow2_unfold((m - l) as nat);
        let a = pow2((m - 1 - l) as nat);
        assert(pow2((m - l) as nat) == 2 * a);
        assert(weight(lens, (m - 1) as nat, l, n) == a * w);
        assert(weight(lens, m, l, n) == 2 * (a * w));
        assert(2 * (a * w) == (2 * a) * w) by (nonlinear_arith);
    }
}

proof fn lemma_weight_mono(lens: Seq<u8>, m: nat, l1: nat, l2: nat, n: int)
    requires
        l1 <= l2,
    ensures
        weight(lens, m, l1, n) <= weight(lens, m, l2, n),
    decreases l2,
{
    if l2 > l1 {
        lemma_weight_mono(lens, m, l1, (l2 - 1) as nat, n);
    }
}

/// The first code of length `b` is the weight of the shorter codes.
proof fn lemma_code_start_weight(lens: Seq<u8>, b: nat)
    requires
        b >= 1,
    ensures
        code_start(lens, b as int) == weight(lens, b, (b - 1) as nat, lens.len() as int),
    decreases b,
{
    if b > 1 {
        let n = lens.len() as int;
        let b1 = (b - 1) as nat;
        lemma_code_start_weight(lens, b1);
        lemma_weight_double(lens, b1, b1, n);
        vstd::arithmetic::power2::lemma2_to64();
        let c = count_len(lens, b1 as int, n);
        assert(weight(lens, b1, b1, n) == weight(lens, b1, (b1 - 1) as nat, n) + c * pow2(0));
        assert(c * pow2(0) == c);
        assert(code_start(lens, b as int) == 2 * (code_start(lens, b1 as int) + c));
    } else {
        assert(weight(lens, b, 0, lens.len() as int) == 0);
    }
}

/// The codes of length at most `l` fit in `l` bits: the first code of length
/// `l` plus the number of codes of that length is at most `2^l`.
pub proof fn lemma_kraft_level(lens: Seq<u8>, l: nat)
    requires
        prefix_ok(lens),
        1 <= l <= seq_max(lens),
    ensures
        code_start(lens, l as int) + count_len(lens, l as int, lens.len() as int) <= pow2(l),
{
    let n = lens.len() as int;
    let m = seq_max(lens);
    lemma_code_start_weight(lens, l);
    vstd::arithmetic::power2::lemma2_to64();
    let c = count_len(lens, l as int, n);
    assert(weight(lens, l, l, n) == weight(lens, l, (l - 1) as nat, n) + c * pow2(0));
    assert(c * pow2(0) == c);
    assert(weight(lens, l, l, n) == code_start(lens, l as int) + count_len(lens, l as int, n));
    assert forall|j: int| 0 <= j < n implies #[trigger] lens[j] <= m by {
        lemma_seq_max_ge(lens, j);
    }
    lemma_kraft_weight(lens, m, n);
    assert(lens.take(n) =~= lens);
    lemma_weight_mono(lens, m, l, m, n);
    lemma_weight_scale(lens, m, l, n);
    lemma_pow2_adds((m - l) as nat, l);
    lemma_pow2_pos((m - l) as nat);
    let a = pow2((m - l) as nat);
    let k = weight(lens, l, l, n);
    let b = pow2(l);
    assert(a * k <= a * b);
    assert(k <= b) by (nonlinear_arith)
        requires
            a * k <= a * b,
            a > 0,
    ;
}

/// A code of length `big` starts at or above every code of length `l <
/// big`, shifted up by the length difference.
pub proof fn lemma_code_start_gap(lens: Seq<u8>, l: nat, big: nat)
    requires
        1 <= l < big,
    ensures
        code_start(lens, big as int) >= pow2((big - l) as nat) * (code_start(lens, l as int)
            + count_len(lens, l as int, lens.len() as int)),
{
    let n = lens.len() as int;
    lemma_code_start_weight(lens, big);
    lemma_code_start_weight(lens, l);
    vstd::arithmetic::power2::lemma2_to64();
    let c = count_len(lens, l as int, n);
    assert(weight(lens, l, l, n) == weight(lens, l, (l - 1) as nat, n) + c * pow2(0));
    assert(c * pow2(0) == c);
    lemma_weight_mono(lens, big, l, (big - 1) as nat, n);
    lemma_weight_scale(lens, big, l, n);
}


/// The bits of the code of symbol `i` under the canonical code of `lens`,
/// first bit first.
pub open spec fn code_bits(lens: Seq<u8>, i: int) -> Seq<bool> {
    msb_bits(canonical_code(lens, 15, i) as u32, lens[i] as nat)
}

proof fn lemma_count_len_mono(lens: Seq<u8>, l: int, a: int, b: int)
    requires
        0 <= a <= b <= lens.len(),
    ensures
        count_len(lens, l, a) <= count_len(lens, l, b),
    decreases b - a,
{
    if b > a {
        lemma_count_len_mono(lens, l, a, b - 1);
    }
}

/// The canonical code of a used symbol is the first code of its length plus
/// its rank, and fits in its length.
pub proof fn lemma_code_fits(lens: Seq<u8>, i: int)
    requires
        prefix_ok(lens),
        0 <= i < lens.len(),
        1 <= lens[i] <= 15,
    ensures
        canonical_code(lens, 15, i) == code_start(lens, lens[i] as int) + count_len(
            lens,
            lens[i] as int,
            i,
        ),
        count_len(lens, lens[i] as int, i) < count_len(lens, lens[i] as int, lens.len() as int),
        canonical_code(lens, 15, i) < pow2(lens[i] as nat),
{
    let big = lens[i] as int;
    lemma_seq_max_ge(lens, i);
    lemma_count_len_mono(lens, big, i + 1, lens.len() as int);
    lemma_kraft_level(lens, big as nat);
}

/// No symbol of length `l` has a code at or above the first code past the
/// codes of length `l`.
proof fn lemma_lookup_none(lens: Seq<u8>, q: nat, l: nat, n: int)
    requires
        1 <= l <= 15,
        0 <= n <= lens.len(),
        q >= code_start(lens, l as int) + count_len(lens, l as int, lens.len() as int),
    ensures
        lookup_prefix(lens, q, l, n) is None,
    decreases n,
{
    if n > 0 {
        lemma_lookup_none(lens, q, l, n - 1);
        if lens[n - 1] == l {
            lemma_count_len_mono(lens, l as int, n, lens.len() as int);
            assert(canonical_code(lens, 15, n - 1) == code_start(lens, l as int) + count_len(
                lens,
                l as int,
                n - 1,
            ));
        }
    }
}

/// No earlier symbol of the same length shares a symbol's code.
proof fn lemma_lookup_before(lens: Seq<u8>, i: int, n: int)
    requires
        0 <= n <= i < lens.len(),
        1 <= lens[i] <= 15,
    ensures
        lookup_prefix(lens, canonical_code(lens, 15, i), lens[i] as nat, n) is None,
    decreases n,
{
    if n > 0 {
        lemma_lookup_before(lens, i, n - 1);
        if lens[n - 1] == lens[i] {
            lemma_count_len_mono(lens, lens[i] as int, n, i);
        }
    }
}

/// The first `l` bits of a `big`-bit code, read back, are the code shifted
/// down by `big - l`.
pub proof fn lemma_msb_prefix(c: u32, big: nat, l: nat)
    requires
        1 <= l <= big <= 32,
        (c as nat) < pow2(big),
    ensures
        msb_value(msb_bits(c, big).take(l as int)) as nat == (c as nat) / pow2((big - l) as nat),
{
    let s = (big - l) as u32;
    let x = c >> s;
    assert forall|t: int| 0 <= t < l implies #[trigger] msb_bits(c, big).take(l as int)[t]
        == msb_bits(x, l)[t] by {
        let j = (l - 1 - t) as u64;
        let s64 = s as u64;
        assert(((c as u64) >> ((j + s64) as u64)) & 1 == (((c >> s) as u64) >> j) & 1)
            by (bit_vector)
            requires
                j + s64 < 32,
                s64 == s as u64,
        ;
        assert((big - 1 - t) as nat == (j + s64) as nat);
    }
    assert(msb_bits(c, big).take(l as int) =~= msb_bits(x, l));
    lemma_msb_value_bits(x, l);
    vstd::bits::lemma_u32_shr_is_div(c, s);
    lemma_pow2_adds(s as nat, l);
    lemma_pow2_pos(s as nat);
    let a = pow2(s as nat);
    let b = pow2(l);
    assert((c as nat) / a < b) by (nonlinear_arith)
        requires
            (c as nat) < a * b,
            a > 0,
    ;
    vstd::bits::lemma_u64_pow2_no_overflow(l);
    vstd::bits::lemma_u64_shl_is_mul(1, l as u64);
    let l64 = l as u64;
    assert(x & (low_mask(l64) as u32) == x) by (bit_vector)
        requires
            l64 <= 32,
            (x as u64) < (1u64 << l64),
    ;
}

/// Reading a canonical code back: when the stream holds the code of symbol
/// `i` at `p`, decoding at `p` gives `i` and moves past the code.
pub proof fn lemma_decode_code(bits: Seq<bool>, p: nat, lens: Seq<u8>, i: int)
    requires
        prefix_ok(lens),
        forall|j: int| 0 <= j < lens.len() ==> #[trigger] lens[j] <= 15,
        0 <= i < lens.len(),
        lens[i] >= 1,
        p + lens[i] <= bits.len(),
        bits.subrange(p as int, p + lens[i]) == code_bits(lens, i),
    ensures
        decode_sym(bits, p, lens) == Ok::<(nat, nat), crate::inflate::InflateError>((i as nat, (p + lens[i]) as nat)),
{
    lemma_seq_max_ge(lens, i);
    lemma_code_fits(lens, i);
    lemma_scan(bits, p, lens, i, 1);
}

proof fn lemma_scan(bits: Seq<bool>, p: nat, lens: Seq<u8>, i: int, l: nat)
    requires
        prefix_ok(lens),
        forall|j: int| 0 <= j < lens.len() ==> #[trigger] lens[j] <= 15,
        0 <= i < lens.len(),
        1 <= l <= lens[i],
        lens[i] <= seq_max(lens),
        p + lens[i] <= bits.len(),
        bits.subrange(p as int, p + lens[i]) == code_bits(lens, i),
    ensures
        sym_scan(bits, p, lens, l) == Ok::<(nat, nat), crate::inflate::InflateError>((i as nat, (p + lens[i]) as nat)),
    decreases lens[i] - l,
{
    let big = lens[i] as nat;
    let c = canonical_code(lens, 15, i);
    lemma_code_fits(lens, i);
    vstd::arithmetic::power2::lemma2_to64();
    vstd::arithmetic::power2::lemma_pow2_strictly_increases(big, 32);
    assert(bits.subrange(p as int, (p + l) as int) =~= code_bits(lens, i).take(l as int));
    lemma_msb_prefix(c as u32, big, l);
    let q = msb_value(bits.subrange(p as int, (p + l) as int)) as nat;
    assert(q == c / pow2((big - l) as nat));
    if l < big {
        lemma_kraft_level(lens, l);
        lemma_code_start_gap(lens, l, big);
        let a = pow2((big - l) as nat);
        let k = code_start(lens, l as int) + count_len(lens, l as int, lens.len() as int);
        lemma_pow2_pos((big - l) as nat);
        assert(c / a >= k) by (nonlinear_arith)
            requires
                c >= a * k,
                a > 0,
        ;
        lemma_lookup_none(lens, q, l, lens.len() as int);
        lemma_scan(bits, p, lens, i, l + 1);
    } else {
        assert((big - l) as nat == 0);
        assert(pow2(0) == 1);
        assert(c / 1 == c);
        assert(q == c);
        lemma_lookup_before(lens, i, i);
        lemma_lookup_found(lens, c, big, i, lens.len() as int);
    }
}


/// Counting over a run of equal lengths.
proof fn lemma_count_segment(lens: Seq<u8>, l: int, a: int, b: int, v: u8)
    requires
        0 <= a <= b <= lens.len(),
        forall|j: int| a <= j < b ==> #[trigger] lens[j] == v,
    ensures
        count_len(lens, l, b) == count_len(lens, l, a) + if v == l {
            b - a
        } else {
            0
        },
    decreases b - a,
{
    if b > a {
        lemma_count_segment(lens, l, a, b - 1, v);
    }
}

/// No length exceeds a common bound, so neither does the longest.
pub proof fn lemma_seq_max_le(lens: Seq<u8>, m: nat)
    requires
        forall|j: int| 0 <= j < lens.len() ==> #[trigger] lens[j] <= m,
    ensures
        seq_max(lens) <= m,
    decreases lens.len(),
{
    if lens.len() > 0 {
        lemma_seq_max_le(lens.drop_last(), m);
    }
}

/// The fixed codes (RFC 1951 §3.2.6) are prefix codes of at most 9 bits.
pub proof fn lemma_fixed_prefix_ok()
    ensures
        prefix_ok(fixed_lit_seq()),
        prefix_ok(fixed_dist_seq()),
        forall|j: int| 0 <= j < fixed_lit_seq().len() ==> #[trigger] fixed_lit_seq()[j] <= 9,
        forall|j: int| 0 <= j < fixed_dist_seq().len() ==> #[trigger] fixed_dist_seq()[j] == 5,
{
    vstd::arithmetic::power2::lemma2_to64();
    let f = fixed_lit_seq();
    assert forall|j: int| 0 <= j < f.len() implies #[trigger] f[j] <= 9 by {}
    lemma_seq_max_le(f, 9);
    lemma_seq_max_ge(f, 144);
    assert(seq_max(f) == 9);
    assert forall|l: int| 1 <= l <= 9 implies #[trigger] count_len(f, l, 288) == if l == 7 {
        24nat
    } else if l == 8 {
        152nat
    } else if l == 9 {
        112nat
    } else {
        0nat
    } by {
        assert(count_len(f, l, 0) == 0);
        lemma_count_segment(f, l, 0, 144, 8);
        lemma_count_segment(f, l, 144, 256, 9);
        lemma_count_segment(f, l, 256, 280, 7);
        lemma_count_segment(f, l, 280, 288, 8);
    }
    assert(count_len(f, 1, 288) == 0);
    assert(count_len(f, 2, 288) == 0);
    assert(count_len(f, 3, 288) == 0);
    assert(count_len(f, 4, 288) == 0);
    assert(count_len(f, 5, 288) == 0);
    assert(count_len(f, 6, 288) == 0);
    assert(count_len(f, 7, 288) == 24);
    assert(count_len(f, 8, 288) == 152);
    assert(count_len(f, 9, 288) == 112);
    assert(weight(f, 9, 0, 288) == 0);
    assert(weight(f, 9, 1, 288) == 0);
    assert(weight(f, 9, 2, 288) == 0);
    assert(weight(f, 9, 3, 288) == 0);
    assert(weight(f, 9, 4, 288) == 0);
    assert(weight(f, 9, 5, 288) == 0);
    assert(weight(f, 9, 6, 288) == 0);
    assert(weight(f, 9, 7, 288) == 24 * 4);
    assert(weight(f, 9, 8, 288) == 24 * 4 + 152 * 2);
    assert(weight(f, 9, 9, 288) == 512);
    lemma_kraft_weight(f, 9, 288);
    assert(f.take(288) =~= f);
    let d = fixed_dist_seq();
    assert forall|j: int| 0 <= j < d.len() implies #[trigger] d[j] <= 5 by {}
    lemma_seq_max_le(d, 5);
    lemma_seq_max_ge(d, 0);
    assert(seq_max(d) == 5);
    assert forall|l: int| 1 <= l <= 5 implies #[trigger] count_len(d, l, 30) == if l == 5 {
        30nat
    } else {
        0nat
    } by {
        assert(count_len(d, l, 0) == 0);
        lemma_count_segment(d, l, 0, 30, 5);
    }
    assert(weight(d, 5, 0, 30) == 0);
    assert(weight(d, 5, 1, 30) == 0);
    assert(weight(d, 5, 2, 30) == 0);
    assert(weight(d, 5, 3, 30) == 0);
    assert(weight(d, 5, 4, 30) == 0);
    assert(weight(d, 5, 5, 30) == 30);
    lemma_kraft_weight(d, 5, 30);
    assert(d.take(30) =~= d);
}


proof fn lemma_count_take(lens: Seq<u8>, n: int, l: int, m: int)
    requires
        0 <= m <= n <= lens.len(),
    ensures
        count_len(lens.take(n), l, m) == count_len(lens, l, m),
    decreases m,
{
    if m > 0 {
        lemma_count_take(lens, n, l, m - 1);
    }
}

/// Zero lengths after the last symbol change no code: the canonical code of
/// a symbol is the same with the trailing zeros cut off.
pub proof fn lemma_canonical_trailing(lens: Seq<u8>, n: int, i: int)
    requires
        0 <= i < n <= lens.len(),
        forall|j: int| n <= j < lens.len() ==> #[trigger] lens[j] == 0,
    ensures
        canonical_code(lens.take(n), 15, i) == canonical_code(lens, 15, i),
        lens.take(n)[i] == lens[i],
{
    lemma_count_take(lens, n, lens[i] as int, i);
    if 1 <= lens[i] <= 15 {
        lemma_code_start_trailing(lens, n, lens[i] as int);
    }
}

proof fn lemma_code_start_trailing(lens: Seq<u8>, n: int, b: int)
    requires
        0 <= n <= lens.len(),
        forall|j: int| n <= j < lens.len() ==> #[trigger] lens[j] == 0,
        b >= 1,
    ensures
        code_start(lens.take(n), b) == code_start(lens, b),
    decreases b,
{
    if b > 1 {
        lemma_code_start_trailing(lens, n, b - 1);
        lemma_count_take(lens, n, b - 1, n);
        lemma_count_segment(lens, b - 1, n, lens.len() as int, 0);
        assert(lens.take(n).len() == n);
    }
}


/// Doubling the unit of the Kraft sum doubles it.
pub proof fn lemma_kraft_double(lens: Seq<u8>, m: nat)
    requires
        forall|j: int| 0 <= j < lens.len() ==> #[trigger] lens[j] <= m,
    ensures
        kraft_sum(lens, m + 1) == 2 * kraft_sum(lens, m),
    decreases lens.len(),
{
    if lens.len() > 0 {
        assert forall|j: int| 0 <= j < lens.drop_last().len() implies #[trigger] lens.drop_last()[j]
            <= m by {
            assert(lens.drop_last()[j] == lens[j]);
        }
        lemma_kraft_double(lens.drop_last(), m);
        if lens.last() > 0 {
            assert(lens.last() == lens[lens.len() - 1]);
            lemma_pow2_unfold((m + 1 - lens.last()) as nat);
        }
    }
}

/// The Kraft sum in units of `2^-big` is `2^(big - m)` times the sum in
/// units of `2^-m`.
pub proof fn lemma_kraft_scale(lens: Seq<u8>, m: nat, big: nat)
    requires
        m <= big,
        forall|j: int| 0 <= j < lens.len() ==> #[trigger] lens[j] <= m,
    ensures
        kraft_sum(lens, big) == pow2((big - m) as nat) * kraft_sum(lens, m),
    decreases big - m,
{
    let k = kraft_sum(lens, m);
    if big == m {
        vstd::arithmetic::power2::lemma2_to64();
        assert(pow2(0) == 1);
        assert(1 * k == k);
    } else {
        assert forall|j: int| 0 <= j < lens.len() implies #[trigger] lens[j] <= (big - 1) as nat by {}
        lemma_kraft_scale(lens, m, (big - 1) as nat);
        lemma_kraft_double(lens, (big - 1) as nat);
        lemma_pow2_unfold((big - m) as nat);
        let a = pow2((big - 1 - m) as nat);
        assert(2 * (a * k) == (2 * a) * k) by (nonlinear_arith);
    }
}

/// A complete code (Kraft sum exactly one in units of `2^-big`) has Kraft
/// sum one in units of its longest length.
pub proof fn lemma_kraft_complete(lens: Seq<u8>, big: nat)
    requires
        seq_max(lens) <= big,
        kraft_sum(lens, big) == pow2(big),
    ensures
        kraft_sum(lens, seq_max(lens)) == pow2(seq_max(lens)),
        prefix_ok(lens),
{
    let m = seq_max(lens);
    assert forall|j: int| 0 <= j < lens.len() implies #[trigger] lens[j] <= m by {
        lemma_seq_max_ge(lens, j);
    }
    lemma_kraft_scale(lens, m, big);
    lemma_pow2_adds((big - m) as nat, m);
    lemma_pow2_pos((big - m) as nat);
    let a = pow2((big - m) as nat);
    let k = kraft_sum(lens, m);
    let b = pow2(m);
    assert(a * k == a * b);
    assert(k == b) by (nonlinear_arith)
        requires
            a * k == a * b,
            a > 0,
    ;
}

} // verus!
