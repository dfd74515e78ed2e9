//! Adler-32 (RFC 1950 §3.2): `a = 1 + sum of bytes (mod 65521)`,
//! `b = sum of running a's (mod 65521)`, result `(b << 16) | a`.
//!
//! The chunking follows zlib's `update_adler32` (`BASE = 5552`), with `u64`
//! accumulators, so the chunk-end reduction is exact even in the worst case
//! (all-0xFF data, maximum carry-in state).
use vstd::prelude::*;

verus! {

/// The Adler-32 modulus (prime).
pub const MOD: u32 = 65521;

/// zlib's chunk size: at most 5552 bytes between reductions.
pub const NMAX: usize = 5552;

/// The sum of the bytes of `s`.
pub open spec fn byte_sum(s: Seq<u8>) -> nat
    decreases s.len(),
{
    if s.len() == 0 {
        0
    } else {
        byte_sum(s.drop_last()) + s.last() as nat
    }
}

/// The sum, over every non-empty prefix `p` of `s`, of `a0 + byte_sum(p)`:
/// the unreduced second Adler accumulator for a first accumulator `a0`.
pub open spec fn running_sum(a0: nat, s: Seq<u8>) -> nat
    decreases s.len(),
{
    if s.len() == 0 {
        0
    } else {
        running_sum(a0, s.drop_last()) + a0 + byte_sum(s)
    }
}

/// The first Adler accumulator after `s`, from the state `init`.
pub open spec fn adler_a(init: u32, s: Seq<u8>) -> nat {
    ((init % 65536) as nat + byte_sum(s)) % 65521
}

/// The second Adler accumulator after `s`, from the state `init`.
pub open spec fn adler_b(init: u32, s: Seq<u8>) -> nat {
    ((init / 65536) as nat + running_sum((init % 65536) as nat, s)) % 65521
}

/// Adler-32 of `s` continued from the state `init` (laid out `(b << 16) | a`).
pub open spec fn spec_adler32(init: u32, s: Seq<u8>) -> u32 {
    (adler_b(init, s) * 65536 + adler_a(init, s)) as u32
}

proof fn lemma_sums_push(a0: nat, s: Seq<u8>, x: u8)
    ensures
        byte_sum(s.push(x)) == byte_sum(s) + x,
        running_sum(a0, s.push(x)) == running_sum(a0, s) + a0 + byte_sum(s) + x,
{
    assert(s.push(x).drop_last() =~= s);
}

proof fn lemma_byte_sum_concat(s: Seq<u8>, t: Seq<u8>)
    ensures
        byte_sum(s + t) == byte_sum(s) + byte_sum(t),
    decreases t.len(),
{
    if t.len() == 0 {
        assert(s + t =~= s);
    } else {
        assert((s + t).drop_last() =~= s + t.drop_last());
        lemma_byte_sum_concat(s, t.drop_last());
    }
}

proof fn lemma_running_sum_concat(a0: nat, s: Seq<u8>, t: Seq<u8>)
    ensures
        running_sum(a0, s + t) == running_sum(a0, s) + running_sum(a0 + byte_sum(s), t),
    decreases t.len(),
{
    if t.len() == 0 {
        assert(s + t =~= s);
    } else {
        assert((s + t).drop_last() =~= s + t.drop_last());
        lemma_running_sum_concat(a0, s, t.drop_last());
        lemma_byte_sum_concat(s, t);
    }
}

proof fn lemma_running_sum_shift(a0: nat, d: nat, s: Seq<u8>)
    ensures
        running_sum(a0 + d, s) == running_sum(a0, s) + s.len() * d,
    decreases s.len(),
{
    if s.len() > 0 {
        lemma_running_sum_shift(a0, d, s.drop_last());
        assert(s.len() * d == (s.len() - 1) * d + d) by (nonlinear_arith)
            requires
                s.len() >= 1,
        ;
    }
}

/// Adler-32 continues across a split: hashing `x` and then continuing from
/// that state over `y` equals hashing `x + y` in one go.
pub proof fn law_adler32_concat(init: u32, x: Seq<u8>, y: Seq<u8>)
    ensures
        spec_adler32(spec_adler32(init, x), y) == spec_adler32(init, x + y),
{
    let a0 = (init % 65536) as nat;
    let b0 = (init / 65536) as nat;
    let a1 = adler_a(init, x);
    let b1 = adler_b(init, x);
    let mid = spec_adler32(init, x);
    assert(mid == b1 * 65536 + a1);
    assert(mid % 65536 == a1 && mid / 65536 == b1);
    lemma_byte_sum_concat(x, y);
    lemma_running_sum_concat(a0, x, y);
    let full = a0 + byte_sum(x);
    let q = full / 65521;
    assert(full == a1 + q * 65521);
    lemma_mod_shift(q as int, (a1 + byte_sum(y)) as int);
    assert(adler_a(mid, y) == adler_a(init, x + y));
    lemma_running_sum_shift(a1, q * 65521, y);
    let k = y.len() * q;
    assert(y.len() * (q * 65521) == k * 65521) by (nonlinear_arith)
        requires
            k == y.len() * q,
    ;
    let big_x = (b0 + running_sum(a0, x)) as int;
    let r = running_sum(a1, y) as int;
    assert(running_sum(full, y) == r + k * 65521);
    lemma_mod_shift(k as int, big_x + r);
    lemma_mod_absorb(big_x, r);
    assert(adler_b(mid, y) == adler_b(init, x + y));
}

proof fn lemma_mod_shift(k: int, v: int)
    ensures
        (k * 65521 + v) % 65521 == v % 65521,
{
    vstd::arithmetic::div_mod::lemma_mod_multiples_vanish(k, v, 65521);
    assert(65521 * k == k * 65521) by (nonlinear_arith);
}

proof fn lemma_step_mod(a: int, b: int, x: int, sa: int, rb: int)
    requires
        a % 65521 == sa % 65521,
        b % 65521 == rb % 65521,
    ensures
        (a + x) % 65521 == (sa + x) % 65521,
        (b + (a + x)) % 65521 == (rb + (sa + x)) % 65521,
{
    vstd::arithmetic::div_mod::lemma_add_mod_noop(a, x, 65521);
    vstd::arithmetic::div_mod::lemma_add_mod_noop(sa, x, 65521);
    vstd::arithmetic::div_mod::lemma_add_mod_noop(b, a + x, 65521);
    vstd::arithmetic::div_mod::lemma_add_mod_noop(rb, sa + x, 65521);
}

proof fn lemma_mod_absorb(x: int, r: int)
    ensures
        (x % 65521 + r) % 65521 == (x + r) % 65521,
{
    vstd::arithmetic::div_mod::lemma_add_mod_noop(x, r, 65521);
    vstd::arithmetic::div_mod::lemma_add_mod_noop(x % 65521, r, 65521);
    vstd::arithmetic::div_mod::lemma_mod_twice(x, 65521);
}

/// Adler-32 with an explicit initial state.
///
/// The state is laid out `(b << 16) | a`; `adler32(1, data)` is the standard
/// Adler-32 (zlib's canonical fresh value is 1, meaning `a = 1`, `b = 0`).
pub fn adler32(initial: u32, data: &[u8]) -> (r: u32)
    ensures
        r == spec_adler32(initial, data@),
{
    let ghost a0 = (initial % 65536) as nat;
    let ghost b0 = (initial / 65536) as nat;
    let mut a: u64 = (initial & 0xFFFF) as u64;
    let mut b: u64 = (initial >> 16) as u64;
    assert(a == (initial % 65536) as u64 && b == (initial / 65536) as u64) by (bit_vector)
        requires
            a == (initial & 0xFFFF) as u64,
            b == (initial >> 16) as u64,
    ;
    let n = data.len();
    let mut pos: usize = 0;
    proof {
        assert(data@.take(0) =~= Seq::<u8>::empty());
    }
    while n - pos >= NMAX
        invariant
            n == data@.len(),
            pos <= n,
            a <= 65535,
            b <= 65535,
            a % 65521 == (a0 + byte_sum(data@.take(pos as int))) % 65521,
            b % 65521 == (b0 + running_sum(a0, data@.take(pos as int))) % 65521,
        decreases n - pos,
    {
        let end = pos + NMAX;
        let mut j = pos;
        let ghost a_start = a;
        let ghost b_start = b;
        while j < end
            invariant
                n == data@.len(),
                pos <= j <= end <= n,
                end == pos + NMAX,
                a_start <= 65535,
                b_start <= 65535,
                a <= a_start + 255 * (j - pos),
                b <= b_start + 1481295 * (j - pos),
                a_start % 65521 == (a0 + byte_sum(data@.take(pos as int))) % 65521,
                a % 65521 == (a0 + byte_sum(data@.take(j as int))) % 65521,
                b % 65521 == (b0 + running_sum(a0, data@.take(j as int))) % 65521,
            decreases end - j,
        {
            proof {
                let pre = data@.take(j as int);
                assert(data@.take(j + 1) =~= pre.push(data@[j as int]));
                lemma_sums_push(a0, pre, data@[j as int]);
                lemma_step_mod(
                    a as int,
                    b as int,
                    data@[j as int] as int,
                    (a0 + byte_sum(pre)) as int,
                    (b0 + running_sum(a0, pre)) as int,
                );
            }
            a = a + data[j] as u64;
            b = b + a;
            j = j + 1;
        }
        a = a % 65521;
        b = b % 65521;
        pos = end;
    }
    let mut j = pos;
    let ghost a_start = a;
    let ghost b_start = b;
    while j < n
        invariant
            n == data@.len(),
            pos <= j <= n,
            n - pos < NMAX,
            a_start <= 65535,
            b_start <= 65535,
            a <= a_start + 255 * (j - pos),
            b <= b_start + 1481295 * (j - pos),
            a % 65521 == (a0 + byte_sum(data@.take(j as int))) % 65521,
            b % 65521 == (b0 + running_sum(a0, data@.take(j as int))) % 65521,
        decreases n - j,
    {
        proof {
            let pre = data@.take(j as int);
            assert(data@.take(j + 1) =~= pre.push(data@[j as int]));
            lemma_sums_push(a0, pre, data@[j as int]);
            lemma_step_mod(
                a as int,
                b as int,
                data@[j as int] as int,
                (a0 + byte_sum(pre)) as int,
                (b0 + running_sum(a0, pre)) as int,
            );
        }
        a = a + data[j] as u64;
        b = b + a;
        j = j + 1;
    }
    a = a % 65521;
    b = b % 65521;
    proof {
        assert(data@.take(n as int) =~= data@);
    }
    let r = ((b << 16) | a) as u32;
    assert(r == (b * 65536 + a) as u32) by (bit_vector)
        requires
            a < 65521,
            b < 65521,
            r == ((b << 16) | a) as u32,
    ;
    r
}

/// Standard Adler-32 (fresh state 1) of `data`.
pub fn adler32_fresh(data: &[u8]) -> (r: u32)
    ensures
        r == spec_adler32(1, data@),
{
    adler32(1, data)
}

} // verus!
