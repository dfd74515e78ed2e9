//! The integer side of the entropy ledger: the histogram, the ranked
//! symbols, and the wasted/efficiency relations. The entropy bound itself
//! is a float; the tests compute it here the way the ledger does.

use bitfold::entropy::{
    distinct_symbols, efficiency_fp, histogram, top_symbols, wasted_bits_fp, SCALE,
};

/// Shannon entropy in bits/byte of `data`.
fn entropy_bits_per_byte(data: &[u8]) -> f64 {
    let h = histogram(data);
    let n = h.iter().sum::<u64>() as f64;
    if n == 0.0 {
        return 0.0;
    }
    let mut e = 0.0f64;
    for &c in h.iter() {
        if c > 0 {
            let p = c as f64 / n;
            e -= p * p.log2();
        }
    }
    e
}

/// The fixed-point entropy bound of `data` in bits (`bits * SCALE`).
fn entropy_bits_fp(data: &[u8]) -> u128 {
    let e = entropy_bits_per_byte(data);
    ((e * data.len() as f64) * (SCALE as f64)) as u128
}

/// 9999 'q' + one 'r': tiny but strictly positive entropy, so the
/// wasted/efficiency relations are exercised away from the degenerate
/// zero-entropy case.
fn near_constant() -> Vec<u8> {
    let mut d = vec![b'q'; 9999];
    d.push(b'r');
    d
}

#[test]
fn wasted_bits_clamps_below_bound() {
    let d = near_constant();
    assert!(entropy_bits_per_byte(&d) > 0.0);
    let bound = entropy_bits_fp(&d);
    // Far above the bound: the gap is the fixed-point difference.
    let big = 5000u64;
    let wasted = wasted_bits_fp(big, bound);
    let expect = (big as u128) * SCALE - bound;
    assert_eq!(wasted, expect, "wasted must be the exact fp gap");
    // Below the bound: clamps to zero (the LZ77 beat-the-memoryless case).
    assert_eq!(wasted_bits_fp(1, bound), 0);
}

#[test]
fn efficiency_relations() {
    let d = near_constant();
    let base = entropy_bits_fp(&d);
    // Zero achieved bits is defined as exactly 100% (no data, no waste).
    assert_eq!(efficiency_fp(0, base), SCALE);
    // Exact identities via synthetic integer-multiple bounds.
    let x = 3u64;
    assert_eq!(efficiency_fp(x, x as u128 * SCALE), SCALE);
    assert_eq!(efficiency_fp(x, 2 * x as u128 * SCALE), 2 * SCALE);
    assert_eq!(efficiency_fp(2, 3 * SCALE), 3 * SCALE / 2);
    // A below-bound achievement must read above 100%.
    assert!(efficiency_fp(x, x as u128 * SCALE + SCALE / 4) > SCALE);
}

#[test]
fn top_symbols_sorted_desc() {
    let mut d = vec![b'z'; 100];
    d.extend(b"abcabc");
    let top = top_symbols(&histogram(&d));
    assert_eq!(top[0].0, b'z');
    for i in 0..top.len() - 1 {
        assert!(top[i].1 >= top[i + 1].1);
    }
    assert_eq!(top[0].1, 100);
}

#[test]
fn top_symbols_exact_ranking() {
    let mut d = vec![b'z'; 100];
    d.extend(b"abcabc");
    d.extend(b"yyyyxxq");
    let top = top_symbols(&histogram(&d));
    assert_eq!(
        top,
        [(b'z', 100), (b'y', 4), (b'a', 2), (b'b', 2), (b'c', 2), (b'x', 2), (b'q', 1), (0, 0)]
    );
    assert_eq!(distinct_symbols(&histogram(&d)), 7);
}

#[test]
fn top_symbols_keeps_best_eight_of_many() {
    // Every byte once, then 10 more of 200..=209: those lead, by byte.
    let mut d: Vec<u8> = (0u8..=255).collect();
    for b in 200u8..210 {
        d.extend(std::iter::repeat(b).take(10));
    }
    let h = histogram(&d);
    let top = top_symbols(&h);
    let want: Vec<(u8, u64)> = (200u8..208).map(|b| (b, 11)).collect();
    assert_eq!(top.to_vec(), want);
    assert_eq!(distinct_symbols(&h), 256);
    assert_eq!(top_symbols(&[0u64; 256]), [(0, 0); 8]);
    assert_eq!(distinct_symbols(&[0u64; 256]), 0);
}

#[test]
fn constant_stream_counts() {
    let d: Vec<u8> = vec![b'x'; 10_000];
    let h = histogram(&d);
    assert_eq!(h[b'x' as usize], 10_000);
    assert_eq!(distinct_symbols(&h), 1);
    assert_eq!(top_symbols(&h)[0], (b'x', 10_000));
    assert_eq!(entropy_bits_fp(&d), 0);
}
