//! The integer side of the entropy ledger: the 256-bin byte histogram, the
//! symbols it ranks first, and the fixed-point comparisons of achieved bits
//! against the entropy bound (bits scaled by `2^FRACTION`).
use vstd::prelude::*;

verus! {

/// Fixed-point fraction bits: entropy and bit counts are stored as
/// `value * 2^FRACTION`.
pub const FRACTION: u32 = 40;

/// `2^FRACTION` as a `u128`.
pub const SCALE: u128 = 0x100_0000_0000;

/// The number of occurrences of byte `b` in `s`.
pub open spec fn count_byte(s: Seq<u8>, b: u8) -> nat
    decreases s.len(),
{
    if s.len() == 0 {
        0
    } else {
        count_byte(s.drop_last(), b) + if s.last() == b {
            1nat
        } else {
            0nat
        }
    }
}

proof fn lemma_count_byte_bound(s: Seq<u8>, b: u8)
    ensures
        count_byte(s, b) <= s.len(),
    decreases s.len(),
{
    if s.len() > 0 {
        lemma_count_byte_bound(s.drop_last(), b);
    }
}

/// Count bytes into a 256-bin histogram: bin `b` holds the number of
/// occurrences of `b` in `data`.
pub fn histogram(data: &[u8]) -> (h: [u64; 256])
    ensures
        forall|b: u8| #[trigger] h@[b as int] == count_byte(data@, b),
{
    let mut h = [0u64; 256];
    let n = data.len();
    let mut i: usize = 0;
    proof {
        assert(data@.take(0) =~= Seq::<u8>::empty());
    }
    while i < n
        invariant
            n == data@.len(),
            i <= n,
            forall|b: u8| #[trigger] h@[b as int] == count_byte(data@.take(i as int), b),
        decreases data@.len() - i,
    {
        let x = data[i];
        let ghost pre = data@.take(i as int);
        proof {
            assert(data@.take(i + 1).drop_last() =~= pre);
            lemma_count_byte_bound(pre, x);
        }
        let c = h[x as usize];
        h[x as usize] = c + 1;
        i = i + 1;
        proof {
            assert forall|b: u8| #[trigger] h@[b as int] == count_byte(data@.take(i as int), b) by {
                assert(data@.take(i as int).last() == x);
            }
        }
    }
    proof {
        assert(data@.take(i as int) =~= data@);
    }
    h
}

/// The number of bins of `h` among the first `n` that are non-zero.
pub open spec fn nonzero_bins(h: Seq<u64>, n: int) -> nat
    decreases n,
{
    if n <= 0 {
        0
    } else {
        nonzero_bins(h, n - 1) + if h[n - 1] > 0 {
            1nat
        } else {
            0nat
        }
    }
}

/// The number of distinct byte values counted in `h`.
pub fn distinct_symbols(h: &[u64; 256]) -> (r: usize)
    ensures
        r == nonzero_bins(h@, 256),
{
    let mut r: usize = 0;
    let mut b: usize = 0;
    while b < 256
        invariant
            b <= 256,
            r == nonzero_bins(h@, b as int),
            r <= b,
        decreases 256 - b,
    {
        if h[b] > 0 {
            r = r + 1;
        }
        b = b + 1;
    }
    r
}

/// Byte `a` with count `ca` ranks before byte `b` with count `cb`: a higher
/// count first, and among equal counts the smaller byte.
pub open spec fn ranks_before(a: u8, ca: u64, b: u8, cb: u64) -> bool {
    ca > cb || (ca == cb && a < b)
}

/// The (at most eight) most frequent bytes of `h` with their counts, in rank
/// order (higher count first, then smaller byte); unused slots are `(0, 0)`.
pub fn top_symbols(h: &[u64; 256]) -> (top: [(u8, u64); 8])
    ensures
        forall|k: int| 0 <= k < 8 && (#[trigger] top@[k]).1 > 0 ==> h@[top@[k].0 as int] == top@[k].1,
        forall|j: int, k: int|
            0 <= j < k < 8 && (#[trigger] top@[j]).1 == 0 ==> #[trigger] top@[k] == (0u8, 0u64),
        forall|k: int| 0 <= k < 8 && (#[trigger] top@[k]).1 == 0 ==> top@[k].0 == 0,
        forall|j: int, k: int|
            0 <= j < k < 8 && (#[trigger] top@[k]).1 > 0 ==> ranks_before(
                (#[trigger] top@[j]).0,
                top@[j].1,
                top@[k].0,
                top@[k].1,
            ),
        forall|b: u8|
            #![trigger h@[b as int]]
            h@[b as int] > 0 && (forall|k: int| 0 <= k < 8 ==> top@[k].0 != b || top@[k].1 == 0)
                ==> top@[7].1 > 0 && ranks_before(top@[7].0, top@[7].1, b, h@[b as int]),
{
    let mut top: [(u8, u64); 8] = [(0u8, 0u64); 8];
    let mut taken: [bool; 256] = [false; 256];
    let mut i: usize = 0;
    let mut done = false;
    while i < 8 && !done
        invariant
            i <= 8,
            forall|b: int|
                0 <= b < 256 ==> (#[trigger] taken@[b] <==> exists|k: int|
                    0 <= k < i && top@[k].0 == b),
            forall|k: int| 0 <= k < i ==> (#[trigger] top@[k]).1 > 0 && h@[top@[k].0 as int] == top@[k].1,
            forall|k: int| i <= k < 8 ==> #[trigger] top@[k] == (0u8, 0u64),
            forall|j: int, k: int|
                0 <= j < k < i ==> ranks_before(
                    (#[trigger] top@[j]).0,
                    top@[j].1,
                    (#[trigger] top@[k]).0,
                    top@[k].1,
                ),
            i > 0 ==> forall|b: u8|
                #![trigger h@[b as int]]
                h@[b as int] > 0 && !taken@[b as int] ==> ranks_before(
                    top@[i - 1].0,
                    top@[i - 1].1,
                    b,
                    h@[b as int],
                ),
            done ==> forall|b: u8| #![trigger h@[b as int]] h@[b as int] > 0 ==> taken@[b as int],
        decreases 8 - i + if done {
            0int
        } else {
            1int
        },
    {
        let mut found = false;
        let mut bb: u8 = 0;
        let mut bc: u64 = 0;
        let mut b: usize = 0;
        while b < 256
            invariant
                b <= 256,
                found ==> bb < b && !taken@[bb as int] && h@[bb as int] == bc && bc > 0,
                found ==> forall|c: u8|
                    #![trigger h@[c as int]]
                    c < b && h@[c as int] > 0 && !taken@[c as int] && c != bb ==> ranks_before(
                        bb,
                        bc,
                        c,
                        h@[c as int],
                    ),
                !found ==> forall|c: u8| #![trigger h@[c as int]] c < b && h@[c as int] > 0 ==> taken@[c as int],
            decreases 256 - b,
        {
            if !taken[b] && h[b] > 0 && (!found || h[b] > bc) {
                found = true;
                bb = b as u8;
                bc = h[b];
            }
            b = b + 1;
        }
        if found {
            let ghost t0 = top@;
            top[i] = (bb, bc);
            taken[bb as usize] = true;
            proof {
                assert forall|x: int| 0 <= x < 256 implies (#[trigger] taken@[x] <==> exists|k: int|
                    0 <= k < i + 1 && top@[k].0 == x) by {
                    if x == bb as int {
                        assert(top@[i as int].0 == x);
                    } else if taken@[x] {
                        let k = choose|k: int| 0 <= k < i && t0[k].0 == x;
                        assert(top@[k].0 == x);
                    }
                }
            }
            i = i + 1;
        } else {
            done = true;
        }
    }
    proof {
        assert forall|b: u8|
            #![trigger h@[b as int]]
            h@[b as int] > 0 && (forall|k: int| 0 <= k < 8 ==> top@[k].0 != b || top@[k].1 == 0)
                implies top@[7].1 > 0 && ranks_before(top@[7].0, top@[7].1, b, h@[b as int]) by {
            if taken@[b as int] {
                let k = choose|k: int| 0 <= k < i && top@[k].0 == b;
                assert(top@[k].0 != b || top@[k].1 == 0);
            }
        }
    }
    top
}

/// The fixed-point "wasted bits" gap: `achieved_bits` (a logical DEFLATE bit
/// count) minus the entropy bound `entropy_bits_fp` (bits scaled by
/// `SCALE`), clamped at zero; a smaller gap is better.
pub fn wasted_bits_fp(achieved_bits: u64, entropy_bits_fp: u128) -> (r: u128)
    ensures
        r == if achieved_bits * SCALE >= entropy_bits_fp {
            achieved_bits * SCALE - entropy_bits_fp
        } else {
            0
        },
{
    assert(achieved_bits * SCALE <= u128::MAX) by (nonlinear_arith)
        requires
            achieved_bits <= u64::MAX,
            SCALE == 0x100_0000_0000,
    ;
    let achieved_fp = (achieved_bits as u128) * SCALE;
    if achieved_fp >= entropy_bits_fp {
        achieved_fp - entropy_bits_fp
    } else {
        0
    }
}

/// The fixed-point "efficiency": the entropy bound over the achieved bits,
/// scaled by `SCALE` (`SCALE` is 100% of the bound; no bits achieved counts
/// as 100%).
pub fn efficiency_fp(achieved_bits: u64, entropy_bits_fp: u128) -> (r: u128)
    requires
        entropy_bits_fp * SCALE <= u128::MAX,
    ensures
        r == if achieved_bits == 0 {
            SCALE as int
        } else {
            (entropy_bits_fp * SCALE) / (achieved_bits * SCALE)
        },
{
    if achieved_bits == 0 {
        return SCALE;
    }
    assert(0 < achieved_bits * SCALE <= u128::MAX) by (nonlinear_arith)
        requires
            0 < achieved_bits <= u64::MAX,
            SCALE == 0x100_0000_0000,
    ;
    let achieved_fp = (achieved_bits as u128) * SCALE;
    entropy_bits_fp * SCALE / achieved_fp
}

} // verus!
