//! The DEFLATE encoder (RFC 1951) and the zlib container (RFC 1950 §2.2).
//!
//! Pipeline: `lzw77` phrases -> 64 KiB input blocks -> per-block choice of
//! BTYPE 00 (stored) / 01 (fixed) / 10 (dynamic) by measured bit cost ->
//! LSB-first bit stream -> zlib wrapper (`0x78 0x9c`, DEFLATE, big-endian
//! Adler-32 trailer).
//!
//! Huffman lengths are built by the plain two-smallest heap algorithm
//! (deterministic tie-break: insertion order). If the resulting maximum length
//! exceeds the format's cap (15 for data trees, 7 for the 19-symbol
//! code-length tree), that option is unavailable for the block and the cheaper
//! of the remaining legal options is used.
use vstd::prelude::*;
use vstd::arithmetic::power2::pow2;
use crate::bits::{lsb_bits, zero_bits, pad_len, bytes_bits, BitWriter};
use crate::huff::{
    seq_max, canonical_code, canonical_codes, fixed_lit_length, fixed_lit_lengths, rle,
    encode_code_lengths, lemma_rle_props,
    length_code, distance_code, len_index_from, dist_index_from, lemma_len_extra_bound,
    lemma_dist_extra_bound, CODE_LENGTH_ORDER, DIST_BASE, DIST_EXTRA, FIXED_DIST_LENGTHS, LEN_BASE,
    LEN_EXTRA, CodeTable,
};
use crate::inflate::{
    kraft_sum, lemma_seq_max_ge, fixed_lit_seq, fixed_dist_seq, prefix_ok, spec_inflate, spec_inflate_zlib, InflateError,
};
use crate::prefix::code_bits;
use crate::roundtrip::{block_decodes, lemma_stored_decodes, lemma_fixed_decodes, lemma_dynamic_decodes};
use crate::lzw77::{
    copy_back, expand, phrases_ok, phrase_len, phrase_bytes, count_literals, lengths_encodable,
    lemma_copy_back_len, lemma_phrases_ok_prefix, lemma_expand_len, lemma_expand_prefix,
    lemma_phrase_ok_at, Phrase,
};
use crate::adler::{adler32_fresh, spec_adler32};
use crate::crc32::{crc32_fresh, spec_crc32};
use crate::inflate::be32;

verus! {

/// Maximum input bytes per block (the LEN field of a stored block is
/// 16-bit).
pub const MAX_BLOCK: usize = 65_535;

/// The number of nonzero entries of `freq`.
pub open spec fn count_nonzero(freq: Seq<u64>) -> nat
    decreases freq.len(),
{
    if freq.len() == 0 {
        0
    } else {
        count_nonzero(freq.drop_last()) + if freq.last() > 0 {
            1nat
        } else {
            0nat
        }
    }
}

/// The sum of the entries of `freq`.
pub open spec fn freq_sum(freq: Seq<u64>) -> nat
    decreases freq.len(),
{
    if freq.len() == 0 {
        0
    } else {
        freq_sum(freq.drop_last()) + freq.last() as nat
    }
}

/// A node of the Huffman tree under construction.
#[derive(Clone, Copy)]
struct HuffNode {
    freq: u64,
    seq: u64,
    left: i32,
    right: i32,
}

/// The depth of node `x` below its root, following parent links (`-1` for a
/// root).
spec fn rdepth(par: Seq<int>, x: int) -> nat
    decreases par.len() - x,
{
    if 0 <= x < par.len() && x < par[x] < par.len() {
        1 + rdepth(par, par[x])
    } else {
        0
    }
}

/// Parents come after their children, so a node's depth is at most the
/// number of nodes after it.
proof fn lemma_rdepth_bound(par: Seq<int>, x: int)
    requires
        0 <= x < par.len(),
    ensures
        rdepth(par, x) + x < par.len(),
    decreases par.len() - x,
{
    if x < par[x] < par.len() {
        lemma_rdepth_bound(par, par[x]);
    }
}

/// The root above node `x`, following parent links.
spec fn root_of(par: Seq<int>, x: int) -> int
    decreases par.len() - x,
{
    if 0 <= x < par.len() && x < par[x] < par.len() {
        root_of(par, par[x])
    } else {
        x
    }
}

/// Parent links only point to later nodes.
spec fn links_up(par: Seq<int>) -> bool {
    forall|x: int| 0 <= x < par.len() && #[trigger] par[x] != -1 ==> x < par[x] < par.len()
}

/// `Σ 2^(big - depth)` over the leaves `x < m` whose root is `r`: the Kraft
/// weight of the tree under `r`, in units of `2^-big`.
spec fn leaf_sum(par: Seq<int>, r: int, m: int, big: nat) -> nat
    decreases m,
{
    if m <= 0 {
        0
    } else {
        leaf_sum(par, r, m - 1, big) + if root_of(par, m - 1) == r {
            pow2((big - rdepth(par, m - 1)) as nat)
        } else {
            0
        }
    }
}

/// A node's root is a root.
proof fn lemma_root_is_root(par: Seq<int>, x: int)
    requires
        links_up(par),
        0 <= x < par.len(),
        forall|y: int| 0 <= y < par.len() ==> #[trigger] par[y] >= -1,
    ensures
        0 <= root_of(par, x) < par.len(),
        par[root_of(par, x)] == -1,
    decreases par.len() - x,
{
    if par[x] != -1 {
        lemma_root_is_root(par, par[x]);
    }
}

/// Hanging roots `a` and `b` under a new node `c` moves every node under
/// them one level down and under `c`; nothing else changes.
proof fn lemma_merge_roots(par: Seq<int>, a: int, b: int, x: int)
    requires
        links_up(par),
        forall|y: int| 0 <= y < par.len() ==> #[trigger] par[y] >= -1,
        0 <= a < par.len(),
        0 <= b < par.len(),
        a != b,
        par[a] == -1,
        par[b] == -1,
        0 <= x < par.len(),
    ensures
        root_of(par.update(a, par.len() as int).update(b, par.len() as int).push(-1), x) == if root_of(
            par,
            x,
        ) == a || root_of(par, x) == b {
            par.len() as int
        } else {
            root_of(par, x)
        },
        rdepth(par.update(a, par.len() as int).update(b, par.len() as int).push(-1), x) == rdepth(
            par,
            x,
        ) + if root_of(par, x) == a || root_of(par, x) == b {
            1nat
        } else {
            0nat
        },
    decreases par.len() - x,
{
    let c = par.len() as int;
    let q = par.update(a, c).update(b, c).push(-1);
    assert(q[c] == -1);
    assert(root_of(q, c) == c);
    assert(rdepth(q, c) == 0);
    if par[x] == -1 {
        if x == a || x == b {
            assert(q[x] == c);
        } else {
            assert(q[x] == -1);
        }
    } else {
        assert(x != a && x != b);
        assert(q[x] == par[x]);
        lemma_merge_roots(par, a, b, par[x]);
    }
}

/// Leaf sums after hanging roots `a` and `b` under a new node.
proof fn lemma_merge_sums(par: Seq<int>, a: int, b: int, r: int, m: int, big: nat)
    requires
        links_up(par),
        forall|y: int| 0 <= y < par.len() ==> #[trigger] par[y] >= -1,
        0 <= a < par.len(),
        0 <= b < par.len(),
        a != b,
        par[a] == -1,
        par[b] == -1,
        0 <= m <= par.len(),
        forall|y: int| 0 <= y < par.len() ==> #[trigger] rdepth(par, y) + 1 <= big,
    ensures
        r != a && r != b && r != par.len() ==> leaf_sum(
            par.update(a, par.len() as int).update(b, par.len() as int).push(-1),
            r,
            m,
            big,
        ) == leaf_sum(par, r, m, big),
        2 * leaf_sum(
            par.update(a, par.len() as int).update(b, par.len() as int).push(-1),
            par.len() as int,
            m,
            big,
        ) == leaf_sum(par, a, m, big) + leaf_sum(par, b, m, big),
    decreases m,
{
    if m > 0 {
        let c = par.len() as int;
        let q = par.update(a, c).update(b, c).push(-1);
        lemma_merge_sums(par, a, b, r, m - 1, big);
        lemma_merge_roots(par, a, b, m - 1);
        lemma_root_is_root(par, m - 1);
        let d = rdepth(par, m - 1);
        if root_of(par, m - 1) == a || root_of(par, m - 1) == b {
            vstd::arithmetic::power2::lemma_pow2_unfold((big - d) as nat);
            assert((big - (d + 1)) as nat + 1 == (big - d) as nat);
        }
    }
}

/// Separate leaves are separate trees of Kraft weight one.
proof fn lemma_leaf_sums_init(n0: nat, r: int, m: int, big: nat)
    requires
        0 <= m <= n0,
    ensures
        leaf_sum(Seq::new(n0, |i: int| -1int), r, m, big) == if 0 <= r < m {
            pow2(big)
        } else {
            0
        },
    decreases m,
{
    if m > 0 {
        lemma_leaf_sums_init(n0, r, m - 1, big);
        let par = Seq::new(n0, |i: int| -1int);
        assert(root_of(par, m - 1) == m - 1);
        assert(rdepth(par, m - 1) == 0);
    }
}

/// `Σ 2^(big - depth[x])` over the first `m` nodes.
spec fn depth_sum(depth: Seq<u32>, m: int, big: nat) -> nat
    decreases m,
{
    if m <= 0 {
        0
    } else {
        depth_sum(depth, m - 1, big) + pow2((big - depth[m - 1]) as nat)
    }
}

/// When every leaf hangs under `r`, the leaf sum of `r` is the sum over the
/// leaves' depths.
proof fn lemma_leaf_sum_all(par: Seq<int>, r: int, depth: Seq<u32>, m: int, big: nat)
    requires
        0 <= m <= par.len(),
        m <= depth.len(),
        forall|x: int| 0 <= x < m ==> #[trigger] root_of(par, x) == r,
        forall|x: int| 0 <= x < m ==> #[trigger] depth[x] == rdepth(par, x),
    ensures
        leaf_sum(par, r, m, big) == depth_sum(depth, m, big),
    decreases m,
{
    if m > 0 {
        lemma_leaf_sum_all(par, r, depth, m - 1, big);
    }
}

/// All-zero lengths have no codes.
proof fn lemma_kraft_zeros(lens: Seq<u8>, m: nat)
    requires
        forall|j: int| 0 <= j < lens.len() ==> #[trigger] lens[j] == 0,
    ensures
        kraft_sum(lens, m) == 0,
        seq_max(lens) == 0,
        prefix_ok(lens),
    decreases lens.len(),
{
    if lens.len() > 0 {
        assert forall|j: int| 0 <= j < lens.drop_last().len() implies #[trigger] lens.drop_last()[j]
            == 0 by {
            assert(lens.drop_last()[j] == lens[j]);
        }
        lemma_kraft_zeros(lens.drop_last(), m);
        assert(lens.last() == lens[lens.len() - 1]);
        lemma_kraft_zeros(lens.drop_last(), 0);
    }
    vstd::arithmetic::power2::lemma2_to64();
}

/// A positive Kraft sum has a used code.
proof fn lemma_kraft_pos(lens: Seq<u8>, m: nat) -> (j: int)
    requires
        kraft_sum(lens, m) > 0,
    ensures
        0 <= j < lens.len(),
        lens[j] > 0,
    decreases lens.len(),
{
    if lens.len() > 0 && lens.last() > 0 {
        lens.len() - 1
    } else {
        let j = lemma_kraft_pos(lens.drop_last(), m);
        assert(lens.drop_last()[j] == lens[j]);
        j
    }
}

/// The nonzero entries of a prefix are at most those of the whole.
proof fn lemma_count_nonzero_prefix(freq: Seq<u64>, k: int)
    requires
        0 <= k <= freq.len(),
    ensures
        count_nonzero(freq.take(k)) <= count_nonzero(freq),
    decreases freq.len() - k,
{
    if k < freq.len() {
        assert(freq.drop_last().take(k) =~= freq.take(k));
        lemma_count_nonzero_prefix(freq.drop_last(), k);
    } else {
        assert(freq.take(k) =~= freq);
    }
}

/// Cutting off zero lengths keeps a prefix code a prefix code.
proof fn lemma_prefix_ok_trim(lens: Seq<u8>, n: int)
    requires
        prefix_ok(lens),
        0 <= n <= lens.len(),
        forall|j: int| n <= j < lens.len() ==> #[trigger] lens[j] == 0,
    ensures
        prefix_ok(lens.take(n)),
    decreases lens.len() - n,
{
    if n == lens.len() {
        assert(lens.take(n) =~= lens);
    } else {
        let d = lens.drop_last();
        assert(lens.last() == lens[lens.len() - 1]);
        assert(seq_max(lens) == seq_max(d));
        assert(kraft_sum(lens, seq_max(lens)) == kraft_sum(d, seq_max(d)));
        assert(d.take(n) =~= lens.take(n));
        assert forall|j: int| n <= j < d.len() implies #[trigger] d[j] == 0 by {
            assert(d[j] == lens[j]);
        }
        lemma_prefix_ok_trim(d, n);
    }
}

/// The total frequency of the nodes a heap holds.
spec fn heap_weight(nodes: Seq<HuffNode>, heap: Seq<i32>) -> nat
    decreases heap.len(),
{
    if heap.len() == 0 {
        0
    } else {
        heap_weight(nodes, heap.drop_last()) + nodes[heap.last() as int].freq as nat
    }
}

/// Every heap entry names a node.
spec fn heap_valid(nodes: Seq<HuffNode>, heap: Seq<i32>) -> bool {
    forall|k: int| 0 <= k < heap.len() ==> 0 <= #[trigger] heap[k] < nodes.len()
}

/// Every internal node's children were created before it.
spec fn tree_ordered(nodes: Seq<HuffNode>) -> bool {
    forall|i: int|
        0 <= i < nodes.len() ==> (#[trigger] nodes[i].left >= 0 ==> nodes[i].left < i && 0
            <= nodes[i].right < i)
}

proof fn lemma_weight_update(nodes: Seq<HuffNode>, heap: Seq<i32>, i: int, x: i32)
    requires
        0 <= i < heap.len(),
    ensures
        heap_weight(nodes, heap.update(i, x)) + nodes[heap[i] as int].freq == heap_weight(
            nodes,
            heap,
        ) + nodes[x as int].freq,
    decreases heap.len(),
{
    let h2 = heap.update(i, x);
    if i == heap.len() - 1 {
        assert(h2.drop_last() =~= heap.drop_last());
    } else {
        assert(h2.drop_last() =~= heap.drop_last().update(i, x));
        lemma_weight_update(nodes, heap.drop_last(), i, x);
    }
}

proof fn lemma_weight_ge(nodes: Seq<HuffNode>, heap: Seq<i32>, i: int)
    requires
        0 <= i < heap.len(),
    ensures
        heap_weight(nodes, heap) >= nodes[heap[i] as int].freq,
    decreases heap.len(),
{
    if i < heap.len() - 1 {
        lemma_weight_ge(nodes, heap.drop_last(), i);
    }
}

proof fn lemma_weight_nodes_push(nodes: Seq<HuffNode>, heap: Seq<i32>, n: HuffNode)
    requires
        heap_valid(nodes, heap),
    ensures
        heap_weight(nodes.push(n), heap) == heap_weight(nodes, heap),
    decreases heap.len(),
{
    if heap.len() > 0 {
        lemma_weight_nodes_push(nodes, heap.drop_last(), n);
    }
}

/// `x` is an entry of the heap.
spec fn heap_has(h: Seq<i32>, x: int) -> bool {
    exists|k: int| 0 <= k < h.len() && h[k] == x
}

/// No node is in the heap twice.
spec fn heap_distinct(h: Seq<i32>) -> bool {
    forall|i: int, j: int| 0 <= i < h.len() && 0 <= j < h.len() && i != j ==> h[i] != h[j]
}

/// Swapping two entries keeps the heap's nodes.
proof fn lemma_swap_has(h: Seq<i32>, c: int, m: int)
    requires
        0 <= c < h.len(),
        0 <= m < h.len(),
    ensures
        forall|x: int|
            #[trigger] heap_has(h.update(c, h[m]).update(m, h[c]), x) == heap_has(h, x),
        heap_distinct(h) ==> heap_distinct(h.update(c, h[m]).update(m, h[c])),
{
    let t = h.update(c, h[m]).update(m, h[c]);
    assert forall|x: int| #[trigger] heap_has(t, x) == heap_has(h, x) by {
        if heap_has(t, x) {
            let k = choose|k: int| 0 <= k < t.len() && t[k] == x;
            if k == m {
                assert(h[c] == x);
            } else if k == c {
                assert(h[m] == x);
            } else {
                assert(h[k] == x);
            }
        }
        if heap_has(h, x) {
            let k = choose|k: int| 0 <= k < h.len() && h[k] == x;
            if k == m {
                assert(t[c] == x || t[m] == x);
            } else if k == c {
                assert(t[m] == x);
            } else {
                assert(t[k] == x);
            }
        }
    }
}

/// Putting the last entry at the root removes the root's node.
proof fn lemma_pop_has(h: Seq<i32>)
    requires
        h.len() > 0,
        heap_distinct(h),
    ensures
        h.len() > 1 ==> forall|x: int|
            #[trigger] heap_has(h.drop_last().update(0, h.last()), x) == (heap_has(h, x) && x != h[0]),
        h.len() > 1 ==> heap_distinct(h.drop_last().update(0, h.last())),
        h.len() == 1 ==> forall|x: int| !#[trigger] heap_has(h.drop_last(), x),
{
    if h.len() > 1 {
        let t = h.drop_last().update(0, h.last());
        assert forall|x: int| #[trigger] heap_has(t, x) == (heap_has(h, x) && x != h[0]) by {
            if heap_has(t, x) {
                let k = choose|k: int| 0 <= k < t.len() && t[k] == x;
                if k == 0 {
                    assert(h[h.len() - 1] == x);
                } else {
                    assert(h[k] == x);
                }
            }
            if heap_has(h, x) && x != h[0] {
                let k = choose|k: int| 0 <= k < h.len() && h[k] == x;
                if k == h.len() - 1 {
                    assert(t[0] == x);
                } else {
                    assert(t[k] == x);
                }
            }
        }
    }
}

/// Node `a` comes before node `b`: a smaller frequency, or an equal one and
/// an earlier insertion.
spec fn node_before(nodes: Seq<HuffNode>, a: i32, b: i32) -> bool {
    nodes[a as int].freq < nodes[b as int].freq || (nodes[a as int].freq == nodes[b as int].freq
        && nodes[a as int].seq < nodes[b as int].seq)
}

/// The entry at heap position `ch` does not come before its parent's.
spec fn pair_ok(nodes: Seq<HuffNode>, h: Seq<i32>, ch: int) -> bool {
    !node_before(nodes, h[ch], h[(ch - 1) / 2])
}

/// Heap position `i` lies in the subtree rooted at position `r`.
spec fn in_subtree(r: int, i: int) -> bool
    decreases i,
{
    if i <= r {
        i == r
    } else {
        i > 0 && in_subtree(r, (i - 1) / 2)
    }
}

/// Every parent-child pair below position `c` is in order, except those
/// whose parent is at `skip`.
spec fn ordered_below(nodes: Seq<HuffNode>, h: Seq<i32>, c: int, skip: int) -> bool {
    forall|ch: int|
        1 <= ch < h.len() && in_subtree(c, (ch - 1) / 2) && (ch - 1) / 2 != skip ==> #[trigger] pair_ok(
            nodes,
            h,
            ch,
        )
}

/// The tie-broken order of two nodes: frequency, then insertion order.
fn less_node(a: i32, b: i32, nodes: &[HuffNode]) -> (r: bool)
    requires
        0 <= a < nodes@.len(),
        0 <= b < nodes@.len(),
    ensures
        r == node_before(nodes@, a, b),
{
    let na = nodes[a as usize];
    let nb = nodes[b as usize];
    na.freq < nb.freq || (na.freq == nb.freq && na.seq < nb.seq)
}

/// Restore the heap order below position `c` (entries are only swapped):
/// when every parent-child pair of the subtree at `c` is in order except
/// those at `c` itself, afterwards all of them are, and entries outside
/// the subtree stay where they are.
fn sift_down(heap: &mut Vec<i32>, c: usize, nodes: &[HuffNode])
    requires
        heap_valid(nodes@, old(heap)@),
    ensures
        final(heap)@.len() == old(heap)@.len(),
        heap_valid(nodes@, final(heap)@),
        heap_weight(nodes@, final(heap)@) == heap_weight(nodes@, old(heap)@),
        forall|x: int| #[trigger] heap_has(final(heap)@, x) == heap_has(old(heap)@, x),
        heap_distinct(old(heap)@) ==> heap_distinct(final(heap)@),
        ordered_below(nodes@, old(heap)@, c as int, c as int) ==> ordered_below(
            nodes@,
            final(heap)@,
            c as int,
            -1,
        ),
        forall|i: int|
            0 <= i < old(heap)@.len() && !in_subtree(c as int, i) ==> #[trigger] final(heap)@[i]
                == old(heap)@[i],
{
    let ghost c0 = c as int;
    let ghost pre = ordered_below(nodes@, old(heap)@, c0, c0);
    let mut c = c;
    proof {
        assert(in_subtree(c0, c0));
    }
    loop
        invariant
            heap@.len() == old(heap)@.len(),
            heap_valid(nodes@, heap@),
            heap_weight(nodes@, heap@) == heap_weight(nodes@, old(heap)@),
            forall|x: int| #[trigger] heap_has(heap@, x) == heap_has(old(heap)@, x),
            heap_distinct(old(heap)@) ==> heap_distinct(heap@),
            c0 <= c,
            in_subtree(c0, c as int),
            pre == ordered_below(nodes@, old(heap)@, c0, c0),
            pre ==> ordered_below(nodes@, heap@, c0, c as int),
            pre && c0 < c ==> forall|ch: int|
                1 <= ch < heap@.len() && (ch - 1) / 2 == c ==> !node_before(
                    nodes@,
                    #[trigger] heap@[ch],
                    heap@[(c - 1) / 2],
                ),
            forall|i: int|
                0 <= i < old(heap)@.len() && !in_subtree(c0, i) ==> #[trigger] heap@[i]
                    == old(heap)@[i],
        ensures
            pre ==> ordered_below(nodes@, heap@, c0, -1),
        decreases heap@.len() - c,
    {
        if c >= heap.len() || heap.len() - c <= c + 1 {
            proof {
                if pre {
                    assert forall|ch: int|
                        1 <= ch < heap@.len() && in_subtree(c0, (ch - 1) / 2) && (ch - 1) / 2 != -1
                        implies #[trigger] pair_ok(nodes@, heap@, ch) by {
                        if (ch - 1) / 2 == c {
                            assert(false);
                        }
                    }
                }
            }
            break;
        }
        let r = 2 * c + 1;
        let mut m = r;
        let rr = r + 1;
        if rr < heap.len() && less_node(heap[rr], heap[r], nodes) {
            m = rr;
        }
        proof {
            assert((r as int - 1) / 2 == c as int);
            assert((rr as int - 1) / 2 == c as int);
            assert(in_subtree(c0, r as int));
            assert(in_subtree(c0, rr as int));
        }
        if less_node(heap[m], heap[c], nodes) {
            let hc = heap[c];
            let hm = heap[m];
            let ghost h0 = heap@;
            proof {
                lemma_weight_update(nodes@, heap@, c as int, hm);
                lemma_weight_update(nodes@, heap@.update(c as int, hm), m as int, hc);
                lemma_swap_has(heap@, c as int, m as int);
            }
            heap.set(c, hm);
            heap.set(m, hc);
            proof {
                assert(heap@ == h0.update(c as int, h0[m as int]).update(m as int, h0[c as int]));
                assert forall|x: int| #[trigger] heap_has(heap@, x) == heap_has(old(heap)@, x) by {
                    assert(heap_has(heap@, x) == heap_has(h0, x));
                }
                assert forall|i: int|
                    0 <= i < old(heap)@.len() && !in_subtree(c0, i) implies #[trigger] heap@[i]
                        == old(heap)@[i] by {
                    assert(i != c && i != m);
                }
                if pre {
                    assert forall|ch: int|
                        1 <= ch < heap@.len() && in_subtree(c0, (ch - 1) / 2) && (ch - 1) / 2 != m
                        implies #[trigger] pair_ok(nodes@, heap@, ch) by {
                        let q = (ch - 1) / 2;
                        if q == c {
                        } else if ch == c {
                            assert(!node_before(nodes@, h0[m as int], h0[(c - 1) / 2]));
                        } else {
                            assert(pair_ok(nodes@, h0, ch));
                        }
                    }
                    assert forall|ch: int|
                        1 <= ch < heap@.len() && (ch - 1) / 2 == m implies !node_before(
                            nodes@,
                            #[trigger] heap@[ch],
                            heap@[(m - 1) / 2],
                        ) by {
                        assert(ch != c && ch != m);
                        assert(in_subtree(c0, m as int));
                        assert(pair_ok(nodes@, h0, ch));
                    }
                }
            }
            c = m;
        } else {
            proof {
                if pre {
                    assert forall|ch: int|
                        1 <= ch < heap@.len() && in_subtree(c0, (ch - 1) / 2) && (ch - 1) / 2 != -1
                        implies #[trigger] pair_ok(nodes@, heap@, ch) by {
                        if (ch - 1) / 2 == c {
                            assert(ch == r || ch == rr);
                        }
                    }
                }
            }
            break;
        }
    }
}

/// Remove the heap's root: the last entry takes its place and sinks.
fn pop_root(heap: &mut Vec<i32>, nodes: &[HuffNode])
    requires
        heap_valid(nodes@, old(heap)@),
        old(heap)@.len() > 0,
    ensures
        final(heap)@.len() == old(heap)@.len() - 1,
        heap_valid(nodes@, final(heap)@),
        heap_weight(nodes@, final(heap)@) + nodes@[old(heap)@[0] as int].freq == heap_weight(
            nodes@,
            old(heap)@,
        ),
        heap_distinct(old(heap)@) ==> heap_distinct(final(heap)@) && forall|x: int|
            #[trigger] heap_has(final(heap)@, x) == (heap_has(old(heap)@, x) && x != old(heap)@[0]),
{
    let ghost h0 = heap@;
    let last = heap.pop().unwrap();
    proof {
        assert(h0.drop_last() =~= heap@);
        if heap_distinct(h0) {
            lemma_pop_has(h0);
        }
    }
    if heap.len() > 0 {
        proof {
            lemma_weight_update(nodes@, heap@, 0, last);
        }
        heap.set(0, last);
        sift_down(heap, 0, nodes);
    }
}

proof fn lemma_count_nonzero_bound(freq: Seq<u64>)
    ensures
        count_nonzero(freq) <= freq.len(),
    decreases freq.len(),
{
    if freq.len() > 0 {
        lemma_count_nonzero_bound(freq.drop_last());
    }
}

/// An entry that is nonzero in `f` is nonzero in `g`: `f` has no more
/// nonzero entries than `g`.
proof fn lemma_count_nonzero_mono(f: Seq<u64>, g: Seq<u64>)
    requires
        f.len() == g.len(),
        forall|x: int| 0 <= x < f.len() && #[trigger] f[x] > 0 ==> g[x] > 0,
    ensures
        count_nonzero(f) <= count_nonzero(g),
    decreases f.len(),
{
    if f.len() > 0 {
        lemma_count_nonzero_mono(f.drop_last(), g.drop_last());
    }
}

/// A zero stretch `[a, b)` leaves at most `len - (b - a)` nonzero entries.
proof fn lemma_count_nonzero_gap(f: Seq<u64>, a: int, b: int)
    requires
        0 <= a <= b <= f.len(),
        forall|x: int| a <= x < b ==> #[trigger] f[x] == 0,
    ensures
        count_nonzero(f) + (b - a) <= f.len(),
    decreases f.len(),
{
    if f.len() > 0 {
        let l = f.len() - 1;
        if l >= b {
            lemma_count_nonzero_gap(f.drop_last(), a, b);
        } else if l >= a {
            lemma_count_nonzero_gap(f.drop_last(), a, l);
        } else {
            lemma_count_nonzero_bound(f);
        }
    }
}

/// Build Huffman code lengths from symbol frequencies (two-smallest heap
/// algorithm). `None` if the maximum length exceeds `max_len`; a tree over
/// `n` symbols is at most `n - 1` deep, so with at most `max_len + 1`
/// symbols in use (and at most 256) there is always a result. Symbols with
/// frequency 0 get length 0; a single-symbol alphabet gets length 1.
///
/// Ties are broken by insertion order, so the result is a pure function of
/// the frequencies.
#[verifier::spinoff_prover]
pub fn huffman_lengths(freq: &[u64], max_len: u32) -> (r: Option<Vec<u8>>)
    requires
        freq_sum(freq@) <= u64::MAX,
        freq@.len() <= 0x4000_0000,
    ensures
        match r {
            None => count_nonzero(freq@) >= 2,
            Some(v) => {
                &&& v@.len() == freq@.len()
                &&& forall|i: int| 0 <= i < v@.len() ==> #[trigger] v@[i] <= max_len || v@[i] <= 1
                &&& count_nonzero(freq@) >= 2 ==> forall|i: int|
                    0 <= i < v@.len() ==> #[trigger] v@[i] <= max_len
                &&& forall|i: int| 0 <= i < v@.len() && freq@[i] == 0 ==> #[trigger] v@[i] == 0
                &&& forall|i: int| 0 <= i < v@.len() && freq@[i] > 0 ==> #[trigger] v@[i] >= 1
                &&& prefix_ok(v@)
                &&& count_nonzero(freq@) >= 2 ==> kraft_sum(v@, seq_max(v@)) == pow2(seq_max(v@))
                &&& count_nonzero(freq@) == 1 ==> forall|i: int|
                    0 <= i < v@.len() && freq@[i] > 0 ==> #[trigger] v@[i] == 1
                &&& forall|i: int|
                    0 <= i < v@.len() ==> #[trigger] v@[i] <= 1 || v@[i] < count_nonzero(freq@)
            },
        },
        count_nonzero(freq@) <= max_len + 1 && count_nonzero(freq@) <= 256 ==> r is Some,
{
    let n = freq.len();
    let mut nodes: Vec<HuffNode> = Vec::new();
    let mut heap: Vec<i32> = Vec::new();
    let mut leaf_of: Vec<i32> = Vec::new();
    let mut i: usize = 0;
    proof {
        assert(freq@.take(0) =~= Seq::<u64>::empty());
    }
    while i < n
        invariant
            n == freq@.len(),
            n <= 0x4000_0000,
            i <= n,
            freq_sum(freq@) <= u64::MAX,
            nodes@.len() == heap@.len(),
            nodes@.len() == count_nonzero(freq@.take(i as int)),
            nodes@.len() <= i,
            leaf_of@.len() == i,
            heap_valid(nodes@, heap@),
            forall|k: int| 0 <= k < heap@.len() ==> #[trigger] heap@[k] == k,
            forall|k: int| 0 <= k < nodes@.len() ==> #[trigger] nodes@[k].left == -1,
            forall|k: int| 0 <= k < nodes@.len() ==> #[trigger] nodes@[k].right == -1,
            forall|j: int| 0 <= j < i ==> #[trigger] leaf_of@[j] >= -1,
            forall|j: int|
                0 <= j < i && freq@[j] > 0 ==> #[trigger] leaf_of@[j] == count_nonzero(freq@.take(j)),
            tree_ordered(nodes@),
            forall|j: int|
                0 <= j < i ==> (#[trigger] leaf_of@[j] == -1) == (freq@[j] == 0),
            forall|j: int|
                0 <= j < i && leaf_of@[j] >= 0 ==> #[trigger] leaf_of@[j] < nodes@.len(),
            heap_weight(nodes@, heap@) == freq_sum(freq@.take(i as int)),
            freq_sum(freq@.take(i as int)) <= freq_sum(freq@),
        decreases n - i,
    {
        let f = freq[i];
        proof {
            assert(freq@.take(i + 1).drop_last() =~= freq@.take(i as int));
            lemma_freq_sum_prefix(freq@, i + 1);
        }
        if f > 0 {
            let k = nodes.len();
            let node = HuffNode { freq: f, seq: i as u64, left: -1, right: -1 };
            let ghost h_old = heap@;
            proof {
                lemma_weight_nodes_push(nodes@, heap@, node);
            }
            nodes.push(node);
            heap.push(k as i32);
            leaf_of.push(k as i32);
            proof {
                assert(heap@.drop_last() =~= h_old);
                assert(heap_weight(nodes@, heap@) == heap_weight(nodes@, h_old) + f);
            }
        } else {
            leaf_of.push(-1);
        }
        i = i + 1;
    }
    proof {
        assert(freq@.take(n as int) =~= freq@);
        lemma_count_nonzero_bound(freq@);
    }
    let ghost cnt = count_nonzero(freq@);
    assert(heap@.len() == cnt);
    if heap.len() == 0 {
        proof {
            assert forall|q: int| 0 <= q < n implies #[trigger] freq@[q] == 0 by {
                assert(leaf_of@[q] >= -1);
                if leaf_of@[q] >= 0 {
                    assert(leaf_of@[q] < nodes@.len());
                }
            }
        }
        let mut out: Vec<u8> = Vec::new();
        let mut j: usize = 0;
        while j < n
            invariant
                j <= n,
                n == freq@.len(),
                out@.len() == j,
                forall|k: int| 0 <= k < j ==> #[trigger] out@[k] == 0,
            decreases n - j,
        {
            out.push(0);
            j = j + 1;
        }
        proof {
            lemma_kraft_zeros(out@, 0);
        }
        return Some(out);
    }
    if heap.len() == 1 {
        let mut out: Vec<u8> = Vec::new();
        let mut j: usize = 0;
        while j < n
            invariant
                j <= n,
                n == freq@.len(),
                leaf_of@.len() == n,
                forall|q: int|
                    0 <= q < n ==> (#[trigger] leaf_of@[q] == -1) == (freq@[q] == 0),
                out@.len() == j,
                forall|k: int| 0 <= k < j ==> #[trigger] out@[k] == (if leaf_of@[k] == -1 {
                    0u8
                } else {
                    1u8
                }),
                kraft_sum(out@, 1) == count_nonzero(freq@.take(j as int)),
            decreases n - j,
        {
            let ghost o = out@;
            proof {
                assert(freq@.take(j + 1).drop_last() =~= freq@.take(j as int));
                vstd::arithmetic::power2::lemma2_to64();
            }
            if leaf_of[j] == -1 {
                out.push(0);
            } else {
                out.push(1);
            }
            proof {
                assert(out@.drop_last() =~= o);
            }
            j = j + 1;
        }
        proof {
            assert(freq@.take(n as int) =~= freq@);
            let q = lemma_kraft_pos(out@, 1);
            lemma_seq_max_ge(out@, q);
            assert forall|k: int| 0 <= k < out@.len() implies #[trigger] out@[k] <= 1 by {}
            crate::prefix::lemma_seq_max_le(out@, 1);
            vstd::arithmetic::power2::lemma2_to64();
        }
        return Some(out);
    }
    let n0 = heap.len();
    proof {
        assert(heap_distinct(heap@));
        assert forall|x: int| 0 <= x < n0 implies #[trigger] heap_has(heap@, x) by {
            assert(heap@[x] == x);
        }
        assert forall|x: int| #[trigger] heap_has(heap@, x) implies 0 <= x < n0 by {
            let k = choose|k: int| 0 <= k < heap@.len() && heap@[k] == x;
            assert(heap@[k] == k);
        }
    }
    let mut h = n0 / 2;
    while h > 0
        invariant
            h <= n0 / 2,
            heap@.len() == n0,
            heap_valid(nodes@, heap@),
            heap_weight(nodes@, heap@) == freq_sum(freq@),
            heap_distinct(heap@),
            forall|x: int| #[trigger] heap_has(heap@, x) == (0 <= x < n0),
            nodes@.len() == n0,
            forall|k: int| 0 <= k < nodes@.len() ==> #[trigger] nodes@[k].left == -1,
            forall|k: int| 0 <= k < nodes@.len() ==> #[trigger] nodes@[k].right == -1,
            forall|j: int| 0 <= j < n && freq@[j] > 0 ==> #[trigger] leaf_of@[j] == count_nonzero(freq@.take(j)),
        decreases h,
    {
        h = h - 1;
        sift_down(&mut heap, h, nodes.as_slice());
    }
    let ghost mut par: Seq<int> = Seq::new(n0 as nat, |i: int| -1int);
    let ghost big: nat = (2 * n0) as nat;
    proof {
        assert forall|r: int| 0 <= r < nodes@.len() && #[trigger] par[r] == -1 implies leaf_sum(
            par,
            r,
            n0 as int,
            big,
        ) == pow2(big) by {
            lemma_leaf_sums_init(n0 as nat, r, n0 as int, big);
        }
    }
    let mut next_seq: u64 = n0 as u64;
    while heap.len() > 1
        invariant
            n0 >= 2,
            n0 <= n,
            n <= 0x4000_0000,
            nodes@.len() + heap@.len() == 2 * n0,
            heap@.len() >= 1,
            next_seq == nodes@.len(),
            heap_valid(nodes@, heap@),
            tree_ordered(nodes@),
            heap_weight(nodes@, heap@) == freq_sum(freq@),
            freq_sum(freq@) <= u64::MAX,
            leaf_of@.len() == n,
            forall|j: int|
                0 <= j < n ==> (#[trigger] leaf_of@[j] == -1) == (freq@[j] == 0),
            forall|j: int|
                0 <= j < n && leaf_of@[j] >= 0 ==> #[trigger] leaf_of@[j] < n0,
            nodes@.len() >= n0,
            forall|x: int| 0 <= x < n0 ==> #[trigger] nodes@[x].left == -1,
            heap_distinct(heap@),
            par.len() == nodes@.len(),
            forall|x: int| 0 <= x < nodes@.len() ==> (#[trigger] par[x] == -1) == heap_has(heap@, x),
            forall|x: int|
                0 <= x < nodes@.len() && #[trigger] par[x] != -1 ==> x < par[x] < nodes@.len() && (
                nodes@[par[x]].left == x || nodes@[par[x]].right == x),
            forall|c: int|
                0 <= c < nodes@.len() && #[trigger] nodes@[c].left >= 0 ==> par[nodes@[c].left as int]
                    == c && par[nodes@[c].right as int] == c,
            forall|c: int|
                0 <= c < nodes@.len() ==> (#[trigger] nodes@[c].left >= 0) == (nodes@[c].right >= 0),
            forall|j: int| 0 <= j < n ==> #[trigger] leaf_of@[j] >= -1,
            forall|j: int| 0 <= j < n && freq@[j] > 0 ==> #[trigger] leaf_of@[j] == count_nonzero(freq@.take(j)),
            big == 2 * n0,
            forall|y: int| 0 <= y < par.len() ==> #[trigger] par[y] >= -1,
            forall|r: int|
                0 <= r < nodes@.len() && #[trigger] par[r] == -1 ==> leaf_sum(par, r, n0 as int, big)
                    == pow2(big),
        decreases heap@.len(),
    {
        let a = heap[0];
        let ghost h0 = heap@;
        proof {
            lemma_weight_ge(nodes@, heap@, 0);
        }
        pop_root(&mut heap, nodes.as_slice());
        let b = heap[0];
        let ghost h1 = heap@;
        proof {
            lemma_weight_ge(nodes@, heap@, 0);
            assert(heap_has(h1, b as int));
            assert(b != a);
        }
        pop_root(&mut heap, nodes.as_slice());
        let fa = nodes[a as usize].freq;
        let fb = nodes[b as usize].freq;
        let k = nodes.len();
        let node = HuffNode { freq: fa + fb, seq: next_seq, left: a, right: b };
        proof {
            lemma_weight_nodes_push(nodes@, heap@, node);
        }
        let ghost old_nodes = nodes@;
        nodes.push(node);
        next_seq = next_seq + 1;
        proof {
            assert(heap@.push(k as i32).drop_last() =~= heap@);
        }
        let ghost h2 = heap@;
        heap.push(k as i32);
        proof {
            assert(heap_distinct(heap@)) by {
                assert forall|i: int, j: int|
                    0 <= i < heap@.len() && 0 <= j < heap@.len() && i != j implies heap@[i] != heap@[j] by {
                    if i == h2.len() {
                        assert(h2[j] < k);
                    } else if j == h2.len() {
                        assert(h2[i] < k);
                    }
                }
            }
            assert forall|x: int| #[trigger] heap_has(heap@, x) == (heap_has(h2, x) || x == k) by {
                if heap_has(heap@, x) {
                    let q = choose|q: int| 0 <= q < heap@.len() && heap@[q] == x;
                    if q < h2.len() {
                        assert(h2[q] == x);
                    }
                }
                if heap_has(h2, x) {
                    let q = choose|q: int| 0 <= q < h2.len() && h2[q] == x;
                    assert(heap@[q] == x);
                }
                if x == k {
                    assert(heap@[h2.len() as int] == x);
                }
            }
        }
        sift_down(&mut heap, 0, nodes.as_slice());
        proof {
            assert(par[a as int] == -1);
            assert(par[b as int] == -1);
            assert(links_up(par));
            assert forall|y: int| 0 <= y < par.len() implies #[trigger] rdepth(par, y) + 1 <= big by {
                lemma_rdepth_bound(par, y);
            }
            let np = par.update(a as int, k as int).update(b as int, k as int).push(-1int);
            lemma_merge_sums(par, a as int, b as int, 0, n0 as int, big);
            assert forall|r: int| 0 <= r < np.len() && #[trigger] np[r] == -1 implies leaf_sum(
                np,
                r,
                n0 as int,
                big,
            ) == pow2(big) by {
                lemma_merge_sums(par, a as int, b as int, r, n0 as int, big);
                if r != k {
                    assert(par[r] == -1);
                }
            }
            par = np;
            assert forall|x: int| 0 <= x < nodes@.len() implies (#[trigger] par[x] == -1) == heap_has(
                heap@,
                x,
            ) by {
                if x < k {
                    assert(nodes@[x] == old_nodes[x]);
                }
            }
        }
    }
    let nn = nodes.len();
    proof {
        assert(heap@.len() == 1);
        assert forall|x: int| 0 <= x < nn - 1 implies #[trigger] par[x] != -1 by {
            if par[nn - 1] != -1 {
                assert(false);
            }
            assert(heap_has(heap@, nn - 1));
            let q = choose|q: int| 0 <= q < heap@.len() && heap@[q] == nn - 1;
            if par[x] == -1 {
                let q2 = choose|q2: int| 0 <= q2 < heap@.len() && heap@[q2] == x;
                assert(q2 == 0 && q == 0);
            }
        }
        assert(par[nn - 1] == -1) by {
            if par[nn - 1] != -1 {
                assert(false);
            }
        }
        assert(links_up(par));
        assert forall|x: int| 0 <= x < n0 implies #[trigger] root_of(par, x) == nn - 1 by {
            lemma_root_is_root(par, x);
            if root_of(par, x) != nn - 1 {
                assert(par[root_of(par, x)] != -1);
            }
        }
    }
    let mut depth: Vec<u32> = Vec::new();
    let mut z: usize = 0;
    while z < nn
        invariant
            z <= nn,
            depth@.len() == z,
            forall|j: int| 0 <= j < z ==> #[trigger] depth@[j] == 0,
        decreases nn - z,
    {
        depth.push(0);
        z = z + 1;
    }
    let mut t = nn;
    while t > 0
        invariant
            t <= nn,
            nn == nodes@.len(),
            nn <= 2 * 0x4000_0000,
            depth@.len() == nn,
            tree_ordered(nodes@),
            forall|j: int| 0 <= j < nn ==> #[trigger] depth@[j] + j < nn,
            par.len() == nn,
            forall|x: int|
                0 <= x < nn && #[trigger] par[x] != -1 ==> x < par[x] < nn && (nodes@[par[x]].left
                    == x || nodes@[par[x]].right == x),
            forall|c: int|
                0 <= c < nn && #[trigger] nodes@[c].left >= 0 ==> par[nodes@[c].left as int] == c
                    && par[nodes@[c].right as int] == c,
            forall|c: int| 0 <= c < nn ==> (#[trigger] nodes@[c].left >= 0) == (nodes@[c].right >= 0),
            forall|x: int|
                0 <= x < nn && (par[x] == -1 || par[x] >= t) ==> #[trigger] depth@[x] == rdepth(
                    par,
                    x,
                ),
        decreases t,
    {
        t = t - 1;
        let node = nodes[t];
        proof {
            lemma_rdepth_bound(par, t as int);
        }
        if node.left >= 0 {
            let d = depth[t] + 1;
            proof {
                lemma_rdepth_bound(par, node.left as int);
                lemma_rdepth_bound(par, node.right as int);
            }
            depth.set(node.left as usize, d);
            depth.set(node.right as usize, d);
        }
    }
    proof {
        assert forall|x: int| 0 <= x < n0 implies #[trigger] depth@[x] >= 1 by {
            assert(par[x] != -1);
            assert(depth@[x] == rdepth(par, x));
        }
        assert forall|x: int| 0 <= x < n0 implies #[trigger] depth@[x] + 1 <= n0 by {
            assert(par[x] != -1);
            let p = par[x];
            assert(nodes@[p].left >= 0);
            assert(p >= n0);
            lemma_rdepth_bound(par, p);
        }
        assert forall|x: int| 0 <= x < n0 implies #[trigger] depth@[x] == rdepth(par, x) by {}
        lemma_leaf_sum_all(par, nn - 1, depth@, n0 as int, big);
    }
    // The longest code among the symbols in use.
    let mut m: u32 = 0;
    let mut j: usize = 0;
    while j < n
        invariant
            j <= n,
            n == freq@.len(),
            leaf_of@.len() == n,
            depth@.len() == nn,
            forall|q: int| 0 <= q < n && leaf_of@[q] >= 0 ==> #[trigger] leaf_of@[q] < nn,
            forall|q: int|
                0 <= q < j && leaf_of@[q] >= 0 ==> depth@[#[trigger] leaf_of@[q] as int] <= m,
            forall|x: int| 0 <= x < nn ==> #[trigger] depth@[x] + x < nn,
            m < nn,
            forall|q: int| 0 <= q < n && leaf_of@[q] >= 0 ==> #[trigger] leaf_of@[q] < n0,
            forall|x: int| 0 <= x < n0 ==> #[trigger] depth@[x] + 1 <= n0,
            m + 1 <= n0,
        decreases n - j,
    {
        let leaf = leaf_of[j];
        if leaf >= 0 && depth[leaf as usize] > m {
            m = depth[leaf as usize];
        }
        j = j + 1;
    }
    // Lengths are bytes. A code longer than 255 bits would need a total
    // frequency beyond `u64::MAX`, so the second test never decides.
    if m > max_len || m > 255 {
        proof {
            assert(count_nonzero(freq@) == n0);
        }
        return None;
    }
    let mut out: Vec<u8> = Vec::new();
    let mut j: usize = 0;
    while j < n
        invariant
            j <= n,
            n == freq@.len(),
            leaf_of@.len() == n,
            depth@.len() == nn,
            m <= max_len,
            m <= 255,
            forall|q: int| 0 <= q < n && leaf_of@[q] >= 0 ==> #[trigger] leaf_of@[q] < nn,
            forall|q: int|
                0 <= q < n && leaf_of@[q] >= 0 ==> depth@[#[trigger] leaf_of@[q] as int] <= m,
            forall|q: int|
                0 <= q < n ==> (#[trigger] leaf_of@[q] == -1) == (freq@[q] == 0),
            out@.len() == j,
            forall|q: int| 0 <= q < j ==> #[trigger] out@[q] <= m,
            m + 1 <= n0,
            forall|q: int| 0 <= q < j && freq@[q] == 0 ==> #[trigger] out@[q] == 0,
            forall|q: int| 0 <= q < n && leaf_of@[q] >= 0 ==> #[trigger] leaf_of@[q] < n0,
            forall|x: int| 0 <= x < n0 ==> #[trigger] depth@[x] >= 1,
            forall|q: int| 0 <= q < n ==> #[trigger] leaf_of@[q] >= -1,
            forall|q: int| 0 <= q < j && freq@[q] > 0 ==> #[trigger] out@[q] >= 1,
            forall|j: int| 0 <= j < n && freq@[j] > 0 ==> #[trigger] leaf_of@[j] == count_nonzero(freq@.take(j)),
            kraft_sum(out@, big) == depth_sum(depth@, count_nonzero(freq@.take(j as int)) as int, big),
            count_nonzero(freq@.take(j as int)) <= n0,
            count_nonzero(freq@) == n0,
            big == 2 * n0,
            m < nn,
            nn < big,
        decreases n - j,
    {
        let leaf = leaf_of[j];
        let ghost o = out@;
        proof {
            assert(freq@.take(j + 1).drop_last() =~= freq@.take(j as int));
            lemma_count_nonzero_prefix(freq@, j + 1);
        }
        let l: u8 = if leaf >= 0 {
            depth[leaf as usize] as u8
        } else {
            0
        };
        out.push(l);
        proof {
            assert(out@.drop_last() =~= o);
        }
        j = j + 1;
    }
    proof {
        assert(freq@.take(n as int) =~= freq@);
        assert forall|q: int| 0 <= q < out@.len() implies #[trigger] out@[q] <= big by {}
        crate::prefix::lemma_seq_max_le(out@, big);
        crate::prefix::lemma_kraft_complete(out@, big);
    }
    Some(out)
}

proof fn lemma_freq_sum_prefix(freq: Seq<u64>, k: int)
    requires
        0 <= k <= freq.len(),
    ensures
        freq_sum(freq.take(k)) <= freq_sum(freq),
    decreases freq.len() - k,
{
    if k < freq.len() {
        assert(freq.drop_last().take(k) =~= freq.take(k));
        lemma_freq_sum_prefix(freq.drop_last(), k);
    } else {
        assert(freq.take(k) =~= freq);
    }
}

/// One symbol to encode: a literal, a (length, distance) match, or the
/// end-of-block marker (literal/length value 256).
#[derive(Debug, Clone, Copy, PartialEq, Eq, Structural)]
pub enum Sym {
    Lit(u8),
    Match { len: u32, dist: u32 },
    Eob,
}

/// A symbol the format can carry: a match length in 3..=258 and a distance in
/// 1..=32768.
pub open spec fn sym_ok(s: Sym) -> bool {
    match s {
        Sym::Match { len, dist } => 3 <= len <= 258 && 1 <= dist <= 32768,
        _ => true,
    }
}

/// The length code (0..=28) of a match length.
pub open spec fn len_code(len: u32) -> int {
    len_index_from(len, 0) as int
}

/// The distance code (0..=29) of a match distance.
pub open spec fn dist_code(dist: u32) -> int {
    dist_index_from(dist, 0) as int
}

/// The literal/length alphabet symbol (0..=285) that encodes `s`.
pub open spec fn lit_symbol(s: Sym) -> int {
    match s {
        Sym::Lit(b) => b as int,
        Sym::Eob => 256,
        Sym::Match { len, dist } => 257 + len_code(len),
    }
}

/// The bits that encode `s` with literal/length lengths `lit` and distance
/// lengths `dist` (RFC 1951 §3.2.5): the symbol's code, then for a match the
/// length extra bits, the distance code and the distance extra bits.
pub open spec fn sym_bits(lit: Seq<u8>, dist: Seq<u8>, s: Sym) -> Seq<bool> {
    match s {
        Sym::Match { len, dist: d } => {
            let lc = len_code(len);
            let dc = dist_code(d);
            code_bits(lit, 257 + lc) + lsb_bits((len - LEN_BASE[lc]) as u64, LEN_EXTRA[lc] as nat)
                + code_bits(dist, dc) + lsb_bits((d - DIST_BASE[dc]) as u64, DIST_EXTRA[dc] as nat)
        },
        _ => code_bits(lit, lit_symbol(s)),
    }
}

/// The bits that encode a symbol sequence.
pub open spec fn syms_bits(lit: Seq<u8>, dist: Seq<u8>, ss: Seq<Sym>) -> Seq<bool>
    decreases ss.len(),
{
    if ss.len() == 0 {
        Seq::empty()
    } else {
        syms_bits(lit, dist, ss.drop_last()) + sym_bits(lit, dist, ss.last())
    }
}

/// The number of bits that encode `s`.
pub open spec fn sym_cost(lit: Seq<u8>, dist: Seq<u8>, s: Sym) -> nat {
    match s {
        Sym::Match { len, dist: d } => {
            let lc = len_code(len);
            let dc = dist_code(d);
            (lit[257 + lc] + LEN_EXTRA[lc] + dist[dc] + DIST_EXTRA[dc]) as nat
        },
        _ => lit[lit_symbol(s)] as nat,
    }
}

/// The number of bits that encode a symbol sequence.
pub open spec fn syms_cost(lit: Seq<u8>, dist: Seq<u8>, ss: Seq<Sym>) -> nat
    decreases ss.len(),
{
    if ss.len() == 0 {
        0
    } else {
        syms_cost(lit, dist, ss.drop_last()) + sym_cost(lit, dist, ss.last())
    }
}

/// The length and distance codes are in range.
pub proof fn lemma_code_ranges(len: u32, dist: u32)
    ensures
        0 <= len_code(len) <= 28,
        0 <= dist_code(dist) <= 29,
{
    lemma_len_index_range(len, 0);
    lemma_dist_index_range(dist, 0);
}

proof fn lemma_len_index_range(len: u32, i: nat)
    requires
        i <= 28,
    ensures
        i <= len_index_from(len, i) <= 28,
    decreases 28 - i,
{
    if i < 28 && LEN_BASE[(i + 1) as int] <= len {
        lemma_len_index_range(len, i + 1);
    }
}

proof fn lemma_dist_index_range(dist: u32, i: nat)
    requires
        i <= 29,
    ensures
        i <= dist_index_from(dist, i) <= 29,
    decreases 29 - i,
{
    if i < 29 && DIST_BASE[(i + 1) as int] <= dist {
        lemma_dist_index_range(dist, i + 1);
    }
}

/// With code lengths of at most 15, a symbol costs at most 48 bits.
proof fn lemma_sym_cost_bound(lit: Seq<u8>, dist: Seq<u8>, s: Sym)
    requires
        lit.len() >= 286,
        dist.len() >= 30,
        forall|i: int| 0 <= i < lit.len() ==> #[trigger] lit[i] <= 15,
        forall|i: int| 0 <= i < dist.len() ==> #[trigger] dist[i] <= 15,
    ensures
        sym_cost(lit, dist, s) <= 48,
{
    if let Sym::Match { len, dist: d } = s {
        lemma_code_ranges(len, d);
        lemma_len_extra_bound(len_code(len));
        lemma_dist_extra_bound(dist_code(d));
        assert(lit[257 + len_code(len)] <= 15);
        assert(dist[dist_code(d)] <= 15);
    } else {
        assert(lit[lit_symbol(s)] <= 15);
    }
}

/// Codes of lengths up to `mb` are the same whether lengths above `mb` are
/// processed or not.
proof fn lemma_canonical_mb(lens: Seq<u8>, mb: int, i: int)
    requires
        0 <= i < lens.len(),
        lens[i] <= mb <= 15,
    ensures
        canonical_code(lens, mb, i) == canonical_code(lens, 15, i),
{
}

/// Fixed-code length of length code `lc` (257 + lc in the literal/length
/// alphabet): 7 bits up to code 279, 8 bits above.
fn fixed_lit_len(lc: u32) -> (r: u32)
    requires
        lc <= 28,
    ensures
        r == fixed_lit_length(257 + lc),
{
    if lc < 23 {
        7
    } else {
        8
    }
}

/// The fixed-code bit cost of one symbol.
fn fixed_bits(s: &Sym) -> (r: u32)
    requires
        sym_ok(*s),
    ensures
        r == sym_cost(fixed_lit_seq(), fixed_dist_seq(), *s),
        r <= 31,
{
    match s {
        Sym::Lit(b) => {
            if *b < 144 {
                8
            } else {
                9
            }
        },
        Sym::Eob => 7,
        Sym::Match { len, dist } => {
            let (lc, _extra_l) = length_code(*len);
            let (dc, _extra_d) = distance_code(*dist);
            proof {
                lemma_len_extra_bound(lc as int);
                lemma_dist_extra_bound(dc as int);
            }
            fixed_lit_len(lc) + LEN_EXTRA[lc as usize] + 5 + DIST_EXTRA[dc as usize]
        },
    }
}

/// The length of `lengths` trimmed after its last nonzero entry, kept to at
/// least `min_len` and at most the whole sequence.
pub open spec fn trimmed_len(lengths: Seq<u8>, min_len: nat) -> nat {
    let last = last_nonzero(lengths, lengths.len() as int);
    let k = if last > min_len {
        last
    } else {
        min_len
    };
    if k < lengths.len() {
        k
    } else {
        lengths.len()
    }
}

/// One past the last nonzero entry among the first `n` (0 if none).
pub open spec fn last_nonzero(lengths: Seq<u8>, n: int) -> nat
    decreases n,
{
    if n <= 0 {
        0
    } else if lengths[n - 1] != 0 {
        n as nat
    } else {
        last_nonzero(lengths, n - 1)
    }
}

proof fn lemma_last_nonzero(lengths: Seq<u8>, n: int)
    requires
        0 <= n <= lengths.len(),
    ensures
        last_nonzero(lengths, n) <= n,
        forall|i: int| last_nonzero(lengths, n) <= i < n ==> #[trigger] lengths[i] == 0,
    decreases n,
{
    if n > 0 && lengths[n - 1] == 0 {
        lemma_last_nonzero(lengths, n - 1);
    }
}

/// Trim a length vector at its last non-zero entry (at least `min_len`).
fn trim_lengths(lengths: &[u8], min_len: usize) -> (r: Vec<u8>)
    ensures
        r@ == lengths@.take(trimmed_len(lengths@, min_len as nat) as int),
        forall|i: int|
            trimmed_len(lengths@, min_len as nat) <= i < lengths@.len() ==> #[trigger] lengths@[i]
                == 0,
{
    let mut last: usize = 0;
    let mut i: usize = 0;
    while i < lengths.len()
        invariant
            i <= lengths@.len(),
            last == last_nonzero(lengths@, i as int),
        decreases lengths@.len() - i,
    {
        if lengths[i] != 0 {
            last = i + 1;
        }
        i = i + 1;
    }
    proof {
        lemma_last_nonzero(lengths@, lengths@.len() as int);
    }
    let k = if last > min_len {
        last
    } else {
        min_len
    };
    let n = if k < lengths.len() {
        k
    } else {
        lengths.len()
    };
    let mut r: Vec<u8> = Vec::new();
    let mut j: usize = 0;
    while j < n
        invariant
            j <= n <= lengths@.len(),
            r@ == lengths@.take(j as int),
        decreases n - j,
    {
        r.push(lengths[j]);
        j = j + 1;
        proof {
            assert(r@ =~= lengths@.take(j as int));
        }
    }
    r
}

/// The header of a block: BFINAL, then the two BTYPE bits.
pub open spec fn block_header(bfinal: u64, btype: u64) -> Seq<bool> {
    lsb_bits(bfinal, 1) + lsb_bits(btype, 2)
}

/// The body of a stored block whose header ends at stream position `pos`:
/// padding to the byte boundary, LEN, NLEN and the bytes themselves.
pub open spec fn stored_body(pos: nat, bytes: Seq<u8>) -> Seq<bool> {
    zero_bits(pad_len(pos)) + lsb_bits(bytes.len() as u64, 16) + lsb_bits(
        (bytes.len() as u64) ^ 0xFFFF,
        16,
    ) + bytes_bits(bytes)
}

/// Write a stored block (BTYPE 00) holding the `n` input bytes at `off`.
fn write_stored(w: &mut BitWriter, data: &[u8], off: usize, n: usize, bfinal: u64)
    requires
        old(w).wf(),
        n <= MAX_BLOCK,
        off + n <= data@.len(),
        bfinal <= 1,
        old(w).logical() + 35 + 8 * n <= u64::MAX,
    ensures
        final(w).wf(),
        final(w).bits() == old(w).bits() + block_header(bfinal, 0) + stored_body(
            old(w).bits().len() + 3,
            data@.subrange(off as int, off + n),
        ),
        final(w).logical() == old(w).logical() + 35 + 8 * n,
        final(w).bits().len() == old(w).bits().len() + 35 + pad_len((old(w).bits().len() + 3) as nat)
            + 8 * n,
{
    let ghost bytes = data@.subrange(off as int, off + n);
    let ghost b0 = w.bits();
    w.push_lsb(bfinal, 1);
    w.push_lsb(0b00, 2);
    let ghost b1 = w.bits();
    w.align_to_byte();
    w.push_lsb(n as u64, 16);
    w.push_lsb((n as u64) ^ 0xFFFF, 16);
    let ghost b2 = w.bits();
    let dl = data.len();
    let mut i: usize = 0;
    proof {
        assert(bytes.take(0) =~= Seq::<u8>::empty());
        assert(b2 + bytes_bits(bytes.take(0)) =~= b2);
    }
    while i < n
        invariant
            w.wf(),
            i <= n <= MAX_BLOCK,
            off + n <= data@.len(),
            dl == data@.len(),
            bytes == data@.subrange(off as int, off + n),
            w.bits() == b2 + bytes_bits(bytes.take(i as int)),
            w.logical() == old(w).logical() + 35 + 8 * i,
            old(w).logical() + 35 + 8 * n <= u64::MAX,
        decreases n - i,
    {
        assert(off + i < data@.len());
        let b = data[off + i];
        w.push_lsb(b as u64, 8);
        proof {
            crate::bits::lemma_bytes_bits_push(bytes.take(i as int), b);
            assert(bytes.take(i + 1) =~= bytes.take(i as int).push(b));
        }
        i = i + 1;
    }
    proof {
        assert(bytes.take(i as int) =~= bytes);
        assert(b1.len() == b0.len() + 3);
        assert(w.bits() =~= b0 + block_header(bfinal, 0) + stored_body(b0.len() + 3, bytes));
        crate::bits::lemma_bytes_bits_len(bytes);
    }
}

/// Write a fixed-code block (BTYPE 01).
#[verifier::spinoff_prover]
fn write_fixed(w: &mut BitWriter, syms: &[Sym], bfinal: u64)
    requires
        old(w).wf(),
        bfinal <= 1,
        forall|k: int| 0 <= k < syms@.len() ==> sym_ok(#[trigger] syms@[k]),
        old(w).logical() + 3 + 48 * syms@.len() <= u64::MAX,
    ensures
        final(w).wf(),
        final(w).bits() == old(w).bits() + block_header(bfinal, 1) + syms_bits(
            fixed_lit_seq(),
            fixed_dist_seq(),
            syms@,
        ),
        final(w).logical() == old(w).logical() + 3 + syms_cost(
            fixed_lit_seq(),
            fixed_dist_seq(),
            syms@,
        ),
        final(w).bits().len() + old(w).logical() == old(w).bits().len() + final(w).logical(),
{
    let ghost lit = fixed_lit_seq();
    let ghost dist = fixed_dist_seq();
    w.push_lsb(bfinal, 1);
    w.push_lsb(0b01, 2);
    let ghost b1 = w.bits();
    let lit_lens = fixed_lit_lengths();
    proof {
        assert(lit_lens@ =~= lit);
        assert(FIXED_DIST_LENGTHS@ =~= dist);
    }
    proof {
        crate::huff::lemma_lengths_fit(lit_lens@);
    }
    let lit_codes = canonical_codes(lit_lens.as_slice(), 9);
    proof {
        crate::huff::lemma_lengths_fit(FIXED_DIST_LENGTHS@);
    }
    let dist_codes = canonical_codes(&FIXED_DIST_LENGTHS, 5);
    let mut i: usize = 0;
    proof {
        assert(syms@.take(0) =~= Seq::<Sym>::empty());
        assert(b1 + syms_bits(lit, dist, syms@.take(0)) =~= b1);
    }
    while i < syms.len()
        invariant
            w.wf(),
            i <= syms@.len(),
            lit == fixed_lit_seq(),
            dist == fixed_dist_seq(),
            lit_lens@ == lit,
            lit_codes@.len() == 288,
            dist_codes@.len() == 30,
            forall|j: int| 0 <= j < 288 ==> #[trigger] lit_codes@[j] == canonical_code(lit, 9, j),
            forall|j: int|
                0 <= j < 30 ==> #[trigger] dist_codes@[j] == canonical_code(FIXED_DIST_LENGTHS@, 5, j),
            FIXED_DIST_LENGTHS@ == dist,
            forall|k: int| 0 <= k < syms@.len() ==> sym_ok(#[trigger] syms@[k]),
            w.bits() == b1 + syms_bits(lit, dist, syms@.take(i as int)),
            w.logical() == old(w).logical() + 3 + syms_cost(lit, dist, syms@.take(i as int)),
            syms_cost(lit, dist, syms@.take(i as int)) <= 48 * i,
            old(w).logical() + 3 + 48 * syms@.len() <= u64::MAX,
            w.bits().len() + old(w).logical() == old(w).bits().len() + w.logical(),
        decreases syms@.len() - i,
    {
        let s = syms[i];
        let ghost pre = syms@.take(i as int);
        proof {
            assert(syms@.take(i + 1).drop_last() =~= pre);
            assert(syms@.take(i + 1).last() == s);
            lemma_sym_cost_bound(lit, dist, s);
        }
        match s {
            Sym::Lit(b) => {
                proof {
                    lemma_canonical_mb(lit, 9, b as int);
                }
                w.push_huff(lit_codes[b as usize], lit_lens[b as usize] as u32);
            },
            Sym::Eob => {
                proof {
                    lemma_canonical_mb(lit, 9, 256);
                }
                w.push_huff(lit_codes[256], lit_lens[256] as u32);
            },
            Sym::Match { len, dist: d } => {
                let (lc, extra_l) = length_code(len);
                let (dc, extra_d) = distance_code(d);
                proof {
                    lemma_canonical_mb(lit, 9, 257 + lc as int);
                    lemma_canonical_mb(dist, 5, dc as int);
                    lemma_len_extra_bound(lc as int);
                    lemma_dist_extra_bound(dc as int);
                }
                let sym_idx = 257 + lc as usize;
                w.push_huff(lit_codes[sym_idx], lit_lens[sym_idx] as u32);
                w.push_lsb(extra_l as u64, LEN_EXTRA[lc as usize]);
                w.push_huff(dist_codes[dc as usize], 5);
                w.push_lsb(extra_d as u64, DIST_EXTRA[dc as usize]);
            },
        }
        i = i + 1;
        proof {
            assert(w.bits() =~= b1 + syms_bits(lit, dist, syms@.take(i as int)));
        }
    }
    proof {
        assert(syms@.take(i as int) =~= syms@);
    }
}

/// The number of repeat-value bits that follow code-length symbol `s`.
pub open spec fn rep_bits(s: u32) -> nat {
    if s == 16 {
        2
    } else if s == 17 {
        3
    } else if s == 18 {
        7
    } else {
        0
    }
}

/// Pairs the code-length symbols with their repeat values.
pub open spec fn zip_pairs(a: Seq<u32>, b: Seq<u32>) -> Seq<(u32, u32)> {
    Seq::new(a.len(), |k: int| (a[k], b[k]))
}

/// The 3-bit code-length code lengths of the first `k` symbols in
/// `CODE_LENGTH_ORDER`.
pub open spec fn cl_entries_bits(cl: Seq<u8>, k: nat) -> Seq<bool>
    decreases k,
{
    if k == 0 {
        Seq::empty()
    } else {
        cl_entries_bits(cl, (k - 1) as nat) + lsb_bits(
            cl[CODE_LENGTH_ORDER[k - 1] as int] as u64,
            3,
        )
    }
}

/// The run-coded code lengths under the code-length code `cl`: each symbol's
/// code, then its repeat value.
pub open spec fn rle_bits(cl: Seq<u8>, pairs: Seq<(u32, u32)>) -> Seq<bool>
    decreases pairs.len(),
{
    if pairs.len() == 0 {
        Seq::empty()
    } else {
        let p = pairs.last();
        rle_bits(cl, pairs.drop_last()) + code_bits(cl, p.0 as int) + lsb_bits(
            p.1 as u64,
            rep_bits(p.0),
        )
    }
}

/// The number of bits the run-coded code lengths take.
pub open spec fn rle_cost(cl: Seq<u8>, pairs: Seq<(u32, u32)>) -> nat
    decreases pairs.len(),
{
    if pairs.len() == 0 {
        0
    } else {
        let p = pairs.last();
        rle_cost(cl, pairs.drop_last()) + cl[p.0 as int] as nat + rep_bits(p.0)
    }
}

/// Everything needed to emit (or cost) one dynamic block, computed once.
struct DynPlan {
    lit_len: Vec<u8>,
    dist_len: Vec<u8>,
    lit_trim: Vec<u8>,
    dist_trim: Vec<u8>,
    code_syms: Vec<u32>,
    code_reps: Vec<u32>,
    cl_len: Vec<u8>,
    /// How many code-length code lengths are transmitted (HCLEN + 4): all
    /// up to the last nonzero one in `CODE_LENGTH_ORDER`, at least 4.
    n_clen: usize,
    header_bits: u32,
    sym_bits: u32,
}

/// The code lengths of a dynamic block for `syms`, and their costs.
spec fn plan_wf(p: DynPlan, syms: Seq<Sym>) -> bool {
    &&& p.lit_len@.len() == 286
    &&& p.dist_len@.len() == 30
    &&& forall|i: int| 0 <= i < 286 ==> #[trigger] p.lit_len@[i] <= 15
    &&& forall|i: int| 0 <= i < 30 ==> #[trigger] p.dist_len@[i] <= 15
    &&& p.lit_trim@ == p.lit_len@.take(trimmed_len(p.lit_len@, 257) as int)
    &&& p.dist_trim@ == p.dist_len@.take(trimmed_len(p.dist_len@, 1) as int)
    &&& 257 <= p.lit_trim@.len() <= 286
    &&& 1 <= p.dist_trim@.len() <= 30
    &&& forall|i: int| p.lit_trim@.len() <= i < 286 ==> #[trigger] p.lit_len@[i] == 0
    &&& forall|i: int| p.dist_trim@.len() <= i < 30 ==> #[trigger] p.dist_len@[i] == 0
    &&& p.code_syms@.len() == p.code_reps@.len()
    &&& zip_pairs(p.code_syms@, p.code_reps@) == rle(p.lit_trim@ + p.dist_trim@, 0)
    &&& p.code_syms@.len() <= 316
    &&& forall|k: int| 0 <= k < p.code_syms@.len() ==> #[trigger] p.code_syms@[k] <= 18
    &&& p.cl_len@.len() == 19
    &&& forall|i: int| 0 <= i < 19 ==> #[trigger] p.cl_len@[i] <= 7
    &&& 4 <= p.n_clen <= 19
    &&& forall|j: int|
        p.n_clen <= j < 19 ==> p.cl_len@[#[trigger] CODE_LENGTH_ORDER[j] as int] == 0
    &&& prefix_ok(p.lit_trim@)
    &&& prefix_ok(p.dist_trim@)
    &&& prefix_ok(p.cl_len@)
    &&& forall|k: int| 0 <= k < p.code_syms@.len() ==> p.cl_len@[#[trigger] p.code_syms@[k] as int] >= 1
    &&& forall|k: int| 0 <= k < syms.len() ==> plan_covers(p.lit_len@, p.dist_len@, #[trigger] syms[k])
    &&& p.header_bits <= 17 + 57 + 14 * 316
    &&& p.sym_bits <= 48 * syms.len()
    &&& p.header_bits == 17 + 3 * p.n_clen + rle_cost(
        p.cl_len@,
        zip_pairs(p.code_syms@, p.code_reps@),
    )
    &&& p.sym_bits == syms_cost(p.lit_len@, p.dist_len@, syms)
}

/// The code lengths give `s` a code: its literal/length symbol, and for a
/// match its distance symbol, have nonzero lengths.
pub open spec fn plan_covers(lit: Seq<u8>, dist: Seq<u8>, s: Sym) -> bool {
    &&& 0 <= lit_symbol(s) < lit.len()
    &&& lit[lit_symbol(s)] >= 1
    &&& (s matches Sym::Match { len, dist: d } ==> 0 <= dist_code(d) < dist.len() && dist[dist_code(
        d,
    )] >= 1)
}

/// The header of a dynamic block after BFINAL and BTYPE: HLIT, HDIST, HCLEN,
/// the code-length code lengths, then the run-coded code lengths.
pub open spec fn dynamic_header(
    lit_n: nat,
    dist_n: nat,
    n_clen: nat,
    cl: Seq<u8>,
    pairs: Seq<(u32, u32)>,
) -> Seq<bool> {
    lsb_bits((lit_n - 257) as u64, 5) + lsb_bits((dist_n - 1) as u64, 5) + lsb_bits(
        (n_clen - 4) as u64,
        4,
    ) + cl_entries_bits(cl, n_clen) + rle_bits(cl, pairs)
}

/// The header of a planned dynamic block.
spec fn dyn_header(p: DynPlan) -> Seq<bool> {
    dynamic_header(
        p.lit_trim@.len(),
        p.dist_trim@.len(),
        p.n_clen as nat,
        p.cl_len@,
        zip_pairs(p.code_syms@, p.code_reps@),
    )
}

proof fn lemma_freq_sum_update(f: Seq<u64>, j: int, v: u64)
    requires
        0 <= j < f.len(),
    ensures
        freq_sum(f.update(j, v)) + f[j] == freq_sum(f) + v,
    decreases f.len(),
{
    let g = f.update(j, v);
    if j == f.len() - 1 {
        assert(g.drop_last() =~= f.drop_last());
    } else {
        assert(g.drop_last() =~= f.drop_last().update(j, v));
        lemma_freq_sum_update(f.drop_last(), j, v);
    }
}

proof fn lemma_freq_sum_zeros(n: nat)
    ensures
        freq_sum(Seq::new(n, |i: int| 0u64)) == 0,
    decreases n,
{
    if n > 0 {
        assert(Seq::new(n, |i: int| 0u64).drop_last() =~= Seq::new((n - 1) as nat, |i: int| 0u64));
        lemma_freq_sum_zeros((n - 1) as nat);
    }
}

/// `n` zero counts.
fn zero_counts(n: usize) -> (v: Vec<u64>)
    ensures
        v@ == Seq::new(n as nat, |i: int| 0u64),
        freq_sum(v@) == 0,
{
    let mut v: Vec<u64> = Vec::new();
    let mut i: usize = 0;
    while i < n
        invariant
            i <= n,
            v@ == Seq::new(i as nat, |j: int| 0u64),
        decreases n - i,
    {
        v.push(0);
        i = i + 1;
        proof {
            assert(v@ =~= Seq::new(i as nat, |j: int| 0u64));
        }
    }
    proof {
        lemma_freq_sum_zeros(n as nat);
    }
    v
}

/// Count one more occurrence of entry `j`.
fn bump(f: &mut Vec<u64>, j: usize)
    requires
        j < old(f)@.len(),
        freq_sum(old(f)@) < u64::MAX,
    ensures
        final(f)@.len() == old(f)@.len(),
        final(f)@[j as int] == old(f)@[j as int] + 1,
        forall|t: int| 0 <= t < old(f)@.len() && t != j ==> #[trigger] final(f)@[t] == old(f)@[t],
        freq_sum(final(f)@) == freq_sum(old(f)@) + 1,
{
    proof {
        lemma_entry_le_sum(f@, j as int);
        lemma_freq_sum_update(f@, j as int, (f@[j as int] + 1) as u64);
    }
    let x = f[j];
    f.set(j, x + 1);
}

/// No entry exceeds the sum.
proof fn lemma_entry_le_sum(f: Seq<u64>, j: int)
    requires
        0 <= j < f.len(),
    ensures
        f[j] <= freq_sum(f),
    decreases f.len(),
{
    if j < f.len() - 1 {
        lemma_entry_le_sum(f.drop_last(), j);
    }
}

/// The distance code of a match (`-1` for other symbols).
spec fn dist_of(s: Sym) -> int {
    match s {
        Sym::Match { len, dist } => dist_code(dist),
        _ => -1,
    }
}

/// Literal/length symbol `x` encodes some symbol of `syms`.
spec fn lit_used(syms: Seq<Sym>, x: int) -> bool {
    exists|q: int| 0 <= q < syms.len() && lit_symbol(#[trigger] syms[q]) == x
}

/// Distance code `x` encodes the distance of some match of `syms`.
spec fn dist_used(syms: Seq<Sym>, x: int) -> bool {
    exists|q: int| 0 <= q < syms.len() && dist_of(#[trigger] syms[q]) == x
}

/// One mark for each literal/length symbol that `syms` uses.
spec fn lit_marks(syms: Seq<Sym>) -> Seq<u64> {
    Seq::new(286, |x: int| if lit_used(syms, x) { 1u64 } else { 0u64 })
}

/// One mark for each distance code that `syms` uses.
spec fn dist_marks(syms: Seq<Sym>) -> Seq<u64> {
    Seq::new(30, |x: int| if dist_used(syms, x) { 1u64 } else { 0u64 })
}

/// Count how often each literal/length symbol and each distance code
/// occurs in `syms`.
fn symbol_counts(syms: &[Sym]) -> (r: (Vec<u64>, Vec<u64>))
    requires
        syms@.len() <= 65536,
        forall|k: int| 0 <= k < syms@.len() ==> sym_ok(#[trigger] syms@[k]),
    ensures
        r.0@.len() == 286,
        r.1@.len() == 30,
        freq_sum(r.0@) <= syms@.len(),
        freq_sum(r.1@) <= syms@.len(),
        forall|q: int|
            0 <= q < syms@.len() ==> 0 <= lit_symbol(#[trigger] syms@[q]) < 286 && r.0@[lit_symbol(
                syms@[q],
            )] > 0,
        forall|q: int|
            0 <= q < syms@.len() ==> (#[trigger] syms@[q] matches Sym::Match { len, dist: d } ==> 0
                <= dist_code(d) < 30 && r.1@[dist_code(d)] > 0),
        forall|x: int| 0 <= x < 286 && #[trigger] r.0@[x] > 0 ==> lit_used(syms@, x),
        forall|x: int| 0 <= x < 30 && #[trigger] r.1@[x] > 0 ==> dist_used(syms@, x),
{
    let mut lit_freq = zero_counts(286);
    let mut dist_freq = zero_counts(30);
    let mut i: usize = 0;
    while i < syms.len()
        invariant
            i <= syms@.len() <= 65536,
            forall|k: int| 0 <= k < syms@.len() ==> sym_ok(#[trigger] syms@[k]),
            lit_freq@.len() == 286,
            dist_freq@.len() == 30,
            freq_sum(lit_freq@) <= i,
            freq_sum(dist_freq@) <= i,
            forall|q: int|
                0 <= q < i ==> 0 <= lit_symbol(#[trigger] syms@[q]) < 286 && lit_freq@[lit_symbol(
                    syms@[q],
                )] > 0,
            forall|q: int|
                0 <= q < i ==> (#[trigger] syms@[q] matches Sym::Match { len, dist: d } ==> 0
                    <= dist_code(d) < 30 && dist_freq@[dist_code(d)] > 0),
            forall|x: int| 0 <= x < 286 && #[trigger] lit_freq@[x] > 0 ==> lit_used(syms@, x),
            forall|x: int| 0 <= x < 30 && #[trigger] dist_freq@[x] > 0 ==> dist_used(syms@, x),
        decreases syms@.len() - i,
    {
        let ghost lf = lit_freq@;
        let ghost df = dist_freq@;
        proof {
            if let Sym::Match { len, dist } = syms@[i as int] {
                lemma_code_ranges(len, dist);
            }
        }
        match syms[i] {
            Sym::Lit(b) => bump(&mut lit_freq, b as usize),
            Sym::Eob => bump(&mut lit_freq, 256),
            Sym::Match { len, dist } => {
                let (lc, _) = length_code(len);
                let (dc, _) = distance_code(dist);
                bump(&mut lit_freq, 257 + lc as usize);
                bump(&mut dist_freq, dc as usize);
            },
        }
        proof {
            assert forall|q: int| 0 <= q < i + 1 implies 0 <= lit_symbol(#[trigger] syms@[q]) < 286
                && lit_freq@[lit_symbol(syms@[q])] > 0 by {
                if let Sym::Match { len, dist } = syms@[q] {
                    lemma_code_ranges(len, dist);
                }
                if q < i {
                    assert(lf[lit_symbol(syms@[q])] > 0);
                }
            }
            assert forall|q: int| 0 <= q < i + 1 implies (#[trigger] syms@[q] matches Sym::Match {
                len,
                dist: d,
            } ==> 0 <= dist_code(d) < 30 && dist_freq@[dist_code(d)] > 0) by {
                if let Sym::Match { len, dist } = syms@[q] {
                    lemma_code_ranges(len, dist);
                    if q < i {
                        assert(df[dist_code(dist)] > 0);
                    }
                }
            }
            let si = syms@[i as int];
            assert forall|x: int| 0 <= x < 286 && #[trigger] lit_freq@[x] > 0 implies lit_used(
                syms@,
                x,
            ) by {
                if x == lit_symbol(si) {
                    assert(lit_symbol(syms@[i as int]) == x);
                } else {
                    assert(lit_freq@[x] == lf[x]);
                }
            }
            assert forall|x: int| 0 <= x < 30 && #[trigger] dist_freq@[x] > 0 implies dist_used(
                syms@,
                x,
            ) by {
                if x == dist_of(si) {
                    assert(dist_of(syms@[i as int]) == x);
                } else {
                    assert(dist_freq@[x] == df[x]);
                }
            }
        }
        i = i + 1;
    }
    (lit_freq, dist_freq)
}

/// Compute the dynamic-block plan (tables and costs). `None` when the
/// two-smallest construction (`huffman_lengths`) gives a literal/length or
/// distance code longer than 15 bits, or a code-length code longer than 7
/// bits; the block is then coded otherwise.
/// With at most 5 literal/length symbols and at most 5 distance codes in
/// use, every code is at most 4 bits long, so the code-length alphabet in
/// use has at most 8 symbols and a plan always exists.
#[verifier::spinoff_prover]
#[verifier::rlimit(40)]
fn dynamic_plan(syms: &[Sym]) -> (r: Option<DynPlan>)
    requires
        syms@.len() <= 65536,
        forall|k: int| 0 <= k < syms@.len() ==> sym_ok(#[trigger] syms@[k]),
    ensures
        r matches Some(p) ==> plan_wf(p, syms@),
        count_nonzero(lit_marks(syms@)) <= 5 && count_nonzero(dist_marks(syms@)) <= 5 ==> r is Some,
{
    let ghost small = count_nonzero(lit_marks(syms@)) <= 5 && count_nonzero(dist_marks(syms@)) <= 5;
    let (lit_freq, dist_freq) = symbol_counts(syms);
    proof {
        lemma_count_nonzero_mono(lit_freq@, lit_marks(syms@));
        lemma_count_nonzero_mono(dist_freq@, dist_marks(syms@));
    }
    let lit_len = match huffman_lengths(lit_freq.as_slice(), 15) {
        Some(v) => v,
        None => {
            return None;
        },
    };
    let dist_len = match huffman_lengths(dist_freq.as_slice(), 15) {
        Some(v) => v,
        None => {
            return None;
        },
    };
    proof {
        assert forall|q: int| 0 <= q < syms@.len() implies plan_covers(
            lit_len@,
            dist_len@,
            #[trigger] syms@[q],
        ) by {
            if let Sym::Match { len, dist } = syms@[q] {
                lemma_code_ranges(len, dist);
            }
        }
    }
    let lit_trim = trim_lengths(lit_len.as_slice(), 257);
    let dist_trim = trim_lengths(dist_len.as_slice(), 1);
    proof {
        lemma_prefix_ok_trim(lit_len@, trimmed_len(lit_len@, 257) as int);
        lemma_prefix_ok_trim(dist_len@, trimmed_len(dist_len@, 1) as int);
    }
    let mut seq: Vec<u8> = Vec::new();
    let mut j: usize = 0;
    while j < lit_trim.len()
        invariant
            j <= lit_trim@.len(),
            seq@ == lit_trim@.take(j as int),
        decreases lit_trim@.len() - j,
    {
        seq.push(lit_trim[j]);
        j = j + 1;
        proof {
            assert(seq@ =~= lit_trim@.take(j as int));
        }
    }
    let mut j: usize = 0;
    while j < dist_trim.len()
        invariant
            j <= dist_trim@.len(),
            seq@ == lit_trim@ + dist_trim@.take(j as int),
        decreases dist_trim@.len() - j,
    {
        seq.push(dist_trim[j]);
        j = j + 1;
        proof {
            assert(seq@ =~= lit_trim@ + dist_trim@.take(j as int));
        }
    }
    proof {
        assert(lit_trim@ =~= lit_trim@.take(lit_trim@.len() as int));
        assert(dist_trim@.take(dist_trim@.len() as int) =~= dist_trim@);
        assert forall|q: int| 0 <= q < seq@.len() implies #[trigger] seq@[q] <= 15 by {
            if q < lit_trim@.len() {
                assert(seq@[q] == lit_len@[q]);
            } else {
                assert(seq@[q] == dist_len@[q - lit_trim@.len()]);
            }
        }
        lemma_rle_props(seq@, 0);
        if small {
            assert forall|q: int| 0 <= q < seq@.len() implies #[trigger] seq@[q] <= 4 by {
                if q < lit_trim@.len() {
                    assert(seq@[q] == lit_len@[q]);
                } else {
                    assert(seq@[q] == dist_len@[q - lit_trim@.len()]);
                }
            }
            crate::huff::lemma_rle_small(seq@, 0, 4);
        }
    }
    let (code_syms, code_reps) = encode_code_lengths(seq.as_slice());
    proof {
        assert(zip_pairs(code_syms@, code_reps@) =~= rle(seq@, 0));
        assert forall|k: int| 0 <= k < code_syms@.len() implies #[trigger] code_syms@[k] <= 18 by {
            assert(rle(seq@, 0)[k].0 == code_syms@[k]);
        }
        assert(small ==> forall|k: int|
            0 <= k < code_syms@.len() ==> #[trigger] code_syms@[k] <= 4 || code_syms@[k] >= 16) by {
            if small {
                assert forall|k: int| 0 <= k < code_syms@.len() implies #[trigger] code_syms@[k] <= 4
                    || code_syms@[k] >= 16 by {
                    assert(rle(seq@, 0)[k].0 == code_syms@[k]);
                }
            }
        }
    }
    let mut cl_freq = zero_counts(19);
    let mut k: usize = 0;
    while k < code_syms.len()
        invariant
            k <= code_syms@.len() <= 316,
            forall|q: int| 0 <= q < code_syms@.len() ==> #[trigger] code_syms@[q] <= 18,
            cl_freq@.len() == 19,
            freq_sum(cl_freq@) <= k,
            forall|q: int| 0 <= q < k ==> cl_freq@[#[trigger] code_syms@[q] as int] > 0,
            small ==> forall|q: int|
                0 <= q < code_syms@.len() ==> #[trigger] code_syms@[q] <= 4 || code_syms@[q] >= 16,
            small ==> forall|x: int| 5 <= x < 16 ==> #[trigger] cl_freq@[x] == 0,
        decreases code_syms@.len() - k,
    {
        let ghost cf = cl_freq@;
        bump(&mut cl_freq, code_syms[k] as usize);
        proof {
            assert forall|q: int| 0 <= q < k + 1 implies cl_freq@[#[trigger] code_syms@[q] as int] > 0 by {
                if q < k {
                    assert(cf[code_syms@[q] as int] > 0);
                }
            }
        }
        k = k + 1;
    }
    proof {
        if small {
            lemma_count_nonzero_gap(cl_freq@, 5, 16);
        }
    }
    let cl_len = match huffman_lengths(cl_freq.as_slice(), 7) {
        Some(v) => v,
        None => {
            return None;
        },
    };

    let mut n_clen: usize = 19;
    while n_clen > 4 && cl_len[CODE_LENGTH_ORDER[n_clen - 1] as usize] == 0
        invariant
            4 <= n_clen <= 19,
            cl_len@.len() == 19,
            forall|t: int| n_clen <= t < 19 ==> cl_len@[#[trigger] CODE_LENGTH_ORDER[t] as int] == 0,
        decreases n_clen,
    {
        proof {
            crate::huff::lemma_order_bound(n_clen - 1);
        }
        n_clen = n_clen - 1;
    }
    let ghost pairs = zip_pairs(code_syms@, code_reps@);
    let mut header_bits: u32 = 17 + 3 * n_clen as u32;
    let mut k: usize = 0;
    while k < code_syms.len()
        invariant
            k <= code_syms@.len() <= 316,
            code_reps@.len() == code_syms@.len(),
            pairs == zip_pairs(code_syms@, code_reps@),
            forall|q: int| 0 <= q < code_syms@.len() ==> #[trigger] code_syms@[q] <= 18,
            cl_len@.len() == 19,
            forall|q: int| 0 <= q < 19 ==> #[trigger] cl_len@[q] <= 7,
            4 <= n_clen <= 19,
            header_bits == 17 + 3 * n_clen + rle_cost(cl_len@, pairs.take(k as int)),
            rle_cost(cl_len@, pairs.take(k as int)) <= 14 * k,
            forall|q: int| 0 <= q < code_syms@.len() ==> cl_len@[#[trigger] code_syms@[q] as int] >= 1,
        decreases code_syms@.len() - k,
    {
        let s = code_syms[k];
        proof {
            assert(pairs.take(k + 1).drop_last() =~= pairs.take(k as int));
        }
        let extra: u32 = if s == 16 {
            2
        } else if s == 17 {
            3
        } else if s == 18 {
            7
        } else {
            0
        };
        header_bits = header_bits + cl_len[s as usize] as u32 + extra;
        k = k + 1;
    }
    proof {
        assert(pairs.take(k as int) =~= pairs);
    }
    let mut sym_bits: u32 = 0;
    let mut i: usize = 0;
    while i < syms.len()
        invariant
            i <= syms@.len() <= 65536,
            forall|k: int| 0 <= k < syms@.len() ==> sym_ok(#[trigger] syms@[k]),
            lit_len@.len() == 286,
            dist_len@.len() == 30,
            forall|q: int| 0 <= q < 286 ==> #[trigger] lit_len@[q] <= 15,
            forall|q: int| 0 <= q < 30 ==> #[trigger] dist_len@[q] <= 15,
            sym_bits == syms_cost(lit_len@, dist_len@, syms@.take(i as int)),
            sym_bits <= 48 * i,
            forall|k: int| 0 <= k < syms@.len() ==> plan_covers(lit_len@, dist_len@, #[trigger] syms@[k]),
        decreases syms@.len() - i,
    {
        let s = syms[i];
        proof {
            assert(syms@.take(i + 1).drop_last() =~= syms@.take(i as int));
            lemma_sym_cost_bound(lit_len@, dist_len@, s);
        }
        let c: u32 = match s {
            Sym::Lit(b) => lit_len[b as usize] as u32,
            Sym::Eob => lit_len[256] as u32,
            Sym::Match { len, dist } => {
                let (lc, _extra_l) = length_code(len);
                let (dc, _extra_d) = distance_code(dist);
                lit_len[257 + lc as usize] as u32 + LEN_EXTRA[lc as usize]
                    + dist_len[dc as usize] as u32 + DIST_EXTRA[dc as usize]
            },
        };
        sym_bits = sym_bits + c;
        i = i + 1;
    }
    proof {
        assert(syms@.take(i as int) =~= syms@);
    }
    Some(
        DynPlan {
            lit_len,
            dist_len,
            lit_trim,
            dist_trim,
            code_syms,
            code_reps,
            cl_len,
            n_clen,
            header_bits,
            sym_bits,
        },
    )
}

/// Write a dynamic-code block (BTYPE 10) from a prepared plan.
#[verifier::spinoff_prover]
fn write_dynamic(w: &mut BitWriter, plan: &DynPlan, syms: &[Sym], bfinal: u64)
    requires
        old(w).wf(),
        bfinal <= 1,
        plan_wf(*plan, syms@),
        forall|k: int| 0 <= k < syms@.len() ==> sym_ok(#[trigger] syms@[k]),
        old(w).logical() + 48 * syms@.len() + 14 * 316 + 128 <= u64::MAX,
    ensures
        final(w).wf(),
        final(w).bits() == old(w).bits() + block_header(bfinal, 2) + dyn_header(*plan) + syms_bits(
            plan.lit_len@,
            plan.dist_len@,
            syms@,
        ),
        final(w).logical() == old(w).logical() + plan.header_bits + plan.sym_bits,
        final(w).bits().len() + old(w).logical() == old(w).bits().len() + final(w).logical(),
{
    let ghost b0 = w.bits();
    w.push_lsb(bfinal, 1);
    w.push_lsb(0b10, 2);
    w.push_lsb((plan.lit_trim.len() - 257) as u64, 5);
    w.push_lsb((plan.dist_trim.len() - 1) as u64, 5);
    w.push_lsb((plan.n_clen - 4) as u64, 4);
    let ghost h1 = w.bits();
    let ghost cl = plan.cl_len@;
    let mut j: usize = 0;
    while j < plan.n_clen
        invariant
            w.wf(),
            j <= plan.n_clen <= 19,
            cl == plan.cl_len@,
            cl.len() == 19,
            w.bits() == h1 + cl_entries_bits(cl, j as nat),
            w.logical() == old(w).logical() + 17 + 3 * j,
            old(w).logical() + 48 * syms@.len() + 14 * 316 + 128 <= u64::MAX,
            w.bits().len() + old(w).logical() == old(w).bits().len() + w.logical(),
        decreases plan.n_clen - j,
    {
        proof {
            crate::huff::lemma_order_bound(j as int);
        }
        w.push_lsb(plan.cl_len[CODE_LENGTH_ORDER[j] as usize] as u64, 3);
        j = j + 1;
    }
    let ghost h2 = w.bits();
    let ghost pairs = zip_pairs(plan.code_syms@, plan.code_reps@);
    proof {
        crate::huff::lemma_lengths_fit(plan.cl_len@);
    }
    let cl_codes = canonical_codes(plan.cl_len.as_slice(), 7);
    let mut k: usize = 0;
    proof {
        assert(pairs.take(0) =~= Seq::<(u32, u32)>::empty());
        assert(h2 + rle_bits(cl, pairs.take(0)) =~= h2);
    }
    while k < plan.code_syms.len()
        invariant
            w.wf(),
            plan_wf(*plan, syms@),
            k <= plan.code_syms@.len(),
            cl == plan.cl_len@,
            pairs == zip_pairs(plan.code_syms@, plan.code_reps@),
            cl_codes@.len() == 19,
            forall|q: int| 0 <= q < 19 ==> #[trigger] cl_codes@[q] == canonical_code(cl, 7, q),
            w.bits() == h2 + rle_bits(cl, pairs.take(k as int)),
            w.logical() == old(w).logical() + 17 + 3 * plan.n_clen + rle_cost(
                cl,
                pairs.take(k as int),
            ),
            rle_cost(cl, pairs.take(k as int)) <= 14 * k,
            old(w).logical() + 48 * syms@.len() + 14 * 316 + 128 <= u64::MAX,
            w.bits().len() + old(w).logical() == old(w).bits().len() + w.logical(),
        decreases plan.code_syms@.len() - k,
    {
        let s = plan.code_syms[k];
        let rep = plan.code_reps[k];
        proof {
            assert(pairs.take(k + 1).drop_last() =~= pairs.take(k as int));
            assert(pairs.take(k + 1).last() == (s, rep));
            lemma_canonical_mb(cl, 7, s as int);
        }
        w.push_huff(cl_codes[s as usize], plan.cl_len[s as usize] as u32);
        if s == 16 {
            w.push_lsb(rep as u64, 2);
        } else if s == 17 {
            w.push_lsb(rep as u64, 3);
        } else if s == 18 {
            w.push_lsb(rep as u64, 7);
        } else {
            proof {
                assert(lsb_bits(rep as u64, 0) =~= Seq::<bool>::empty());
            }
        }
        k = k + 1;
        proof {
            assert(w.bits() =~= h2 + rle_bits(cl, pairs.take(k as int)));
        }
    }
    proof {
        assert(pairs.take(k as int) =~= pairs);
        assert(h2 == b0 + block_header(bfinal, 2) + lsb_bits((plan.lit_trim@.len() - 257) as u64, 5)
            + lsb_bits((plan.dist_trim@.len() - 1) as u64, 5) + lsb_bits((plan.n_clen - 4) as u64, 4)
            + cl_entries_bits(cl, plan.n_clen as nat));
    }
    let ghost b1 = w.bits();
    let ghost lit = plan.lit_len@;
    let ghost dist = plan.dist_len@;
    proof {
        crate::huff::lemma_lengths_fit(plan.lit_len@);
    }
    let lit_codes = canonical_codes(plan.lit_len.as_slice(), 15);
    proof {
        crate::huff::lemma_lengths_fit(plan.dist_len@);
    }
    let dist_codes = canonical_codes(plan.dist_len.as_slice(), 15);
    let mut i: usize = 0;
    proof {
        assert(syms@.take(0) =~= Seq::<Sym>::empty());
        assert(b1 + syms_bits(lit, dist, syms@.take(0)) =~= b1);
    }
    while i < syms.len()
        invariant
            w.wf(),
            i <= syms@.len(),
            plan_wf(*plan, syms@),
            lit == plan.lit_len@,
            dist == plan.dist_len@,
            lit_codes@.len() == 286,
            dist_codes@.len() == 30,
            forall|j: int| 0 <= j < 286 ==> #[trigger] lit_codes@[j] == canonical_code(lit, 15, j),
            forall|j: int| 0 <= j < 30 ==> #[trigger] dist_codes@[j] == canonical_code(dist, 15, j),
            forall|k: int| 0 <= k < syms@.len() ==> sym_ok(#[trigger] syms@[k]),
            w.bits() == b1 + syms_bits(lit, dist, syms@.take(i as int)),
            w.logical() == old(w).logical() + plan.header_bits + syms_cost(
                lit,
                dist,
                syms@.take(i as int),
            ),
            syms_cost(lit, dist, syms@.take(i as int)) <= 48 * i,
            plan.header_bits <= 17 + 57 + 14 * 316,
            old(w).logical() + 48 * syms@.len() + 14 * 316 + 128 <= u64::MAX,
            w.bits().len() + old(w).logical() == old(w).bits().len() + w.logical(),
        decreases syms@.len() - i,
    {
        let s = syms[i];
        let ghost pre = syms@.take(i as int);
        proof {
            assert(syms@.take(i + 1).drop_last() =~= pre);
            assert(syms@.take(i + 1).last() == s);
            lemma_sym_cost_bound(lit, dist, s);
        }
        match s {
            Sym::Lit(b) => {
                w.push_huff(lit_codes[b as usize], plan.lit_len[b as usize] as u32);
            },
            Sym::Eob => {
                w.push_huff(lit_codes[256], plan.lit_len[256] as u32);
            },
            Sym::Match { len, dist: d } => {
                let (lc, extra_l) = length_code(len);
                let (dc, extra_d) = distance_code(d);
                proof {
                    lemma_len_extra_bound(lc as int);
                    lemma_dist_extra_bound(dc as int);
                }
                let sym_idx = 257 + lc as usize;
                w.push_huff(lit_codes[sym_idx], plan.lit_len[sym_idx] as u32);
                w.push_lsb(extra_l as u64, LEN_EXTRA[lc as usize]);
                w.push_huff(dist_codes[dc as usize], plan.dist_len[dc as usize] as u32);
                w.push_lsb(extra_d as u64, DIST_EXTRA[dc as usize]);
            },
        }
        i = i + 1;
        proof {
            assert(w.bits() =~= b1 + syms_bits(lit, dist, syms@.take(i as int)));
        }
    }
    proof {
        assert(syms@.take(i as int) =~= syms@);
        assert(w.bits() =~= b0 + block_header(bfinal, 2) + dyn_header(*plan) + syms_bits(
            lit,
            dist,
            syms@,
        ));
    }
}

/// Expand phrases to the byte sequence they produce (one-byte-at-a-time copy,
/// overlaps legal, identical to what the decoder does).
pub fn phrases_to_bytes(phrases: &[Phrase]) -> (r: Vec<u8>)
    requires
        phrases_ok(phrases@),
    ensures
        r@ == expand(phrases@),
{
    let mut out: Vec<u8> = Vec::new();
    let mut i: usize = 0;
    proof {
        assert(phrases@.take(0) =~= Seq::<Phrase>::empty());
    }
    while i < phrases.len()
        invariant
            i <= phrases@.len(),
            phrases_ok(phrases@),
            out@ == expand(phrases@.take(i as int)),
        decreases phrases@.len() - i,
    {
        let ghost pre = phrases@.take(i as int);
        proof {
            assert(phrases@.take(i + 1).drop_last() =~= pre);
            lemma_phrases_ok_prefix(phrases@, i + 1);
        }
        match phrases[i] {
            Phrase::Literal(b) => {
                out.push(b);
            },
            Phrase::Match { len, dist } => {
                let ghost start = out@;
                let d = dist as usize;
                let mut k: u32 = 0;
                while k < len
                    invariant
                        k <= len,
                        1 <= d <= start.len(),
                        out@ == copy_back(start, d as nat, k as nat),
                    decreases len - k,
                {
                    proof {
                        lemma_copy_back_len(start, d as nat, k as nat);
                    }
                    let b = out[out.len() - d];
                    out.push(b);
                    k = k + 1;
                }
            },
        }
        i = i + 1;
    }
    proof {
        assert(phrases@.take(i as int) =~= phrases@);
    }
    out
}


/// Per-block encoding statistics.
#[derive(Debug, Clone, Copy, PartialEq, Eq, Structural)]
pub struct BlockInfo {
    /// 0 = stored, 1 = fixed, 2 = dynamic.
    pub btype: u32,
    /// Input bytes covered by the block.
    pub n_bytes: usize,
    /// Bits written for this block (header + payload, no padding).
    pub bits: u32,
    /// Literal phrases in the block.
    pub n_lit: u32,
    /// Match phrases in the block.
    pub n_match: u32,
    /// Bytes reproduced by backward copies.
    pub match_bytes: u32,
}

/// Whole-stream encoder statistics.
#[derive(Debug, Clone)]
pub struct CompressStats {
    pub n_blocks: u32,
    pub n_stored: u32,
    pub n_fixed: u32,
    pub n_dynamic: u32,
    pub in_bytes: usize,
    /// Logical bits of the DEFLATE stream (headers + payloads, no byte
    /// padding, no container).
    pub deflate_bits: u64,
    pub n_lit: u64,
    pub n_match: u64,
    pub match_bytes: u64,
    pub blocks: Vec<BlockInfo>,
}

/// The input bytes the blocks cover.
pub open spec fn total_bytes(bs: Seq<BlockInfo>) -> nat
    decreases bs.len(),
{
    if bs.len() == 0 {
        0
    } else {
        total_bytes(bs.drop_last()) + bs.last().n_bytes as nat
    }
}

/// The bits the blocks take.
pub open spec fn total_bits(bs: Seq<BlockInfo>) -> nat
    decreases bs.len(),
{
    if bs.len() == 0 {
        0
    } else {
        total_bits(bs.drop_last()) + bs.last().bits as nat
    }
}

/// The literal phrases of the blocks.
pub open spec fn total_lit(bs: Seq<BlockInfo>) -> nat
    decreases bs.len(),
{
    if bs.len() == 0 {
        0
    } else {
        total_lit(bs.drop_last()) + bs.last().n_lit as nat
    }
}

/// The match phrases of the blocks.
pub open spec fn total_match(bs: Seq<BlockInfo>) -> nat
    decreases bs.len(),
{
    if bs.len() == 0 {
        0
    } else {
        total_match(bs.drop_last()) + bs.last().n_match as nat
    }
}

/// The bytes the blocks' matches reproduce.
pub open spec fn total_match_bytes(bs: Seq<BlockInfo>) -> nat
    decreases bs.len(),
{
    if bs.len() == 0 {
        0
    } else {
        total_match_bytes(bs.drop_last()) + bs.last().match_bytes as nat
    }
}

/// The number of blocks of type `t`.
pub open spec fn count_btype(bs: Seq<BlockInfo>, t: u32) -> nat
    decreases bs.len(),
{
    if bs.len() == 0 {
        0
    } else {
        count_btype(bs.drop_last(), t) + if bs.last().btype == t {
            1nat
        } else {
            0nat
        }
    }
}

/// What every block record holds: a legal type, at most `MAX_BLOCK` bytes,
/// bytes split between literals and matches, a stored block's exact size,
/// and a coded block never larger than a stored block at the worst padding
/// (3 header bits, 7 padding bits, LEN, NLEN and the bytes).
pub open spec fn block_ok(b: BlockInfo) -> bool {
    &&& b.btype <= 2
    &&& b.n_bytes <= MAX_BLOCK
    &&& b.n_lit + b.match_bytes == b.n_bytes
    &&& b.btype == 0 ==> b.bits == 35 + 8 * b.n_bytes
    &&& b.btype != 0 ==> b.bits <= 42 + 8 * b.n_bytes
}

/// A match phrase the format can carry.
pub open spec fn phrase_fits(p: Phrase) -> bool {
    match p {
        Phrase::Match { len, dist } => 3 <= len <= 258 && 1 <= dist <= 32768,
        _ => true,
    }
}

/// The symbol that encodes a phrase.
pub open spec fn phrase_sym(p: Phrase) -> Sym {
    match p {
        Phrase::Literal(b) => Sym::Lit(b),
        Phrase::Match { len, dist } => Sym::Match { len, dist },
    }
}

/// The symbols of a block holding phrases `a..b`: one per phrase, then
/// end-of-block.
pub open spec fn block_syms(ps: Seq<Phrase>, a: int, b: int) -> Seq<Sym> {
    Seq::new((b - a) as nat, |k: int| phrase_sym(ps[a + k])).push(Sym::Eob)
}

/// A run of phrases `start..end` that becomes one block.
struct Span {
    start: usize,
    end: usize,
    n_bytes: usize,
    offset: usize,
}

spec fn span_ok(sp: Span, ps: Seq<Phrase>) -> bool {
    &&& sp.start <= sp.end <= ps.len()
    &&& sp.n_bytes == phrase_bytes(ps.subrange(sp.start as int, sp.end as int))
    &&& sp.offset == phrase_bytes(ps.take(sp.start as int))
    &&& sp.n_bytes <= MAX_BLOCK
}

proof fn lemma_phrase_bytes_split(ps: Seq<Phrase>, a: int, b: int)
    requires
        0 <= a <= b <= ps.len(),
    ensures
        phrase_bytes(ps.take(b)) == phrase_bytes(ps.take(a)) + phrase_bytes(ps.subrange(a, b)),
    decreases b - a,
{
    if b == a {
        assert(ps.subrange(a, b) =~= Seq::<Phrase>::empty());
    } else {
        lemma_phrase_bytes_split(ps, a, b - 1);
        assert(ps.take(b).drop_last() =~= ps.take(b - 1));
        assert(ps.subrange(a, b).drop_last() =~= ps.subrange(a, b - 1));
    }
}

proof fn lemma_phrase_bytes_step(ps: Seq<Phrase>, a: int, i: int)
    requires
        0 <= a <= i < ps.len(),
    ensures
        phrase_bytes(ps.subrange(a, i + 1)) == phrase_bytes(ps.subrange(a, i)) + phrase_len(ps[i]),
{
    assert(ps.subrange(a, i + 1).drop_last() =~= ps.subrange(a, i));
}

/// Group phrases into blocks of at most `MAX_BLOCK` input bytes, greedily: a
/// block is closed when the next phrase would not fit.
#[verifier::spinoff_prover]
fn split_blocks(phrases: &[Phrase]) -> (r: Vec<Span>)
    requires
        lengths_encodable(phrases@),
        phrase_bytes(phrases@) <= usize::MAX,
    ensures
        1 <= r@.len(),
        r@.len() == 1 || r@.len() <= phrases@.len(),
        r@[0].start == 0,
        r@.last().end == phrases@.len(),
        forall|k: int| 0 <= k < r@.len() - 1 ==> (#[trigger] r@[k]).end == r@[k + 1].start,
        forall|k: int| 0 <= k < r@.len() ==> span_ok(#[trigger] r@[k], phrases@),
        forall|k: int| 0 <= k < r@.len() && r@.len() > 1 ==> (#[trigger] r@[k]).start < r@[k].end,
        forall|k: int|
            0 <= k < r@.len() - 1 ==> (#[trigger] r@[k]).n_bytes + phrase_len(phrases@[r@[k].end as int])
                > MAX_BLOCK,
{
    let ghost ps = phrases@;
    let n = phrases.len();
    let mut spans: Vec<Span> = Vec::new();
    let mut cur_start: usize = 0;
    let mut cur_bytes: usize = 0;
    let mut cur_off: usize = 0;
    let mut i: usize = 0;
    while i < n
        invariant
            ps == phrases@,
            n == ps.len(),
            lengths_encodable(ps),
            phrase_bytes(ps) <= usize::MAX,
            cur_start <= i <= n,
            cur_bytes == phrase_bytes(ps.subrange(cur_start as int, i as int)),
            cur_off == phrase_bytes(ps.take(cur_start as int)),
            cur_bytes <= MAX_BLOCK,
            spans@.len() <= cur_start,
            spans@.len() > 0 ==> cur_start < i,
            spans@.len() > 0 ==> spans@[0].start == 0,
            spans@.len() > 0 ==> spans@.last().end == cur_start,
            spans@.len() == 0 ==> cur_start == 0,
            forall|k: int| 0 <= k < spans@.len() - 1 ==> (#[trigger] spans@[k]).end == spans@[k + 1].start,
            forall|k: int| 0 <= k < spans@.len() ==> span_ok(#[trigger] spans@[k], ps),
            forall|k: int| 0 <= k < spans@.len() ==> (#[trigger] spans@[k]).start < spans@[k].end,
            forall|k: int|
                0 <= k < spans@.len() ==> (#[trigger] spans@[k]).n_bytes + phrase_len(ps[spans@[k].end as int])
                    > MAX_BLOCK,
        decreases n - i,
    {
        let pb: usize = match phrases[i] {
            Phrase::Literal(_) => 1,
            Phrase::Match { len, .. } => len as usize,
        };
        proof {
            assert(match ps[i as int] {
                Phrase::Literal(_) => true,
                Phrase::Match { len, dist } => 3 <= len <= 258,
            });
            assert(pb == phrase_len(ps[i as int]));
        }
        if cur_bytes + pb > MAX_BLOCK && i > cur_start {
            proof {
                lemma_phrase_bytes_split(ps, cur_start as int, i as int);
                lemma_expand_prefix(ps, i as int);
            }
            let sp = Span { start: cur_start, end: i, n_bytes: cur_bytes, offset: cur_off };
            spans.push(sp);
            cur_off = cur_off + cur_bytes;
            cur_bytes = 0;
            cur_start = i;
            proof {
                assert(ps.subrange(i as int, i as int) =~= Seq::<Phrase>::empty());
            }
        }
        proof {
            lemma_phrase_bytes_step(ps, cur_start as int, i as int);
        }
        cur_bytes = cur_bytes + pb;
        i = i + 1;
    }
    let last = Span { start: cur_start, end: n, n_bytes: cur_bytes, offset: cur_off };
    spans.push(last);
    spans
}

/// The bits a fixed-code block holding phrases `a..b` takes: the 3-bit
/// header and the fixed codes of its symbols with their extra bits.
pub open spec fn fixed_block_cost(ps: Seq<Phrase>, a: int, b: int) -> nat {
    3 + syms_cost(fixed_lit_seq(), fixed_dist_seq(), block_syms(ps, a, b))
}

/// The stream bits a stored block of `n` bytes takes when its header starts
/// at stream position `pos`: the 3-bit header, the padding to the byte
/// boundary, LEN and NLEN, and the bytes.
pub open spec fn stored_cost(pos: nat, n: nat) -> nat {
    3 + pad_len(pos + 3) + 32 + 8 * n
}

/// Encode the phrases of one span as a block and report it. The block type
/// goes by measured cost against the true stored cost at the current stream
/// position: dynamic when its plan exists and costs no more than fixed codes
/// or a stored block, else fixed when that costs no more than a stored
/// block, else stored.
#[verifier::rlimit(60)]
#[verifier::spinoff_prover]
fn encode_block(w: &mut BitWriter, data: &[u8], phrases: &[Phrase], sp: &Span, bfinal: u64) -> (info: BlockInfo)
    requires
        old(w).wf(),
        bfinal <= 1,
        span_ok(*sp, phrases@),
        sp.offset + sp.n_bytes <= data@.len(),
        forall|k: int| sp.start <= k < sp.end ==> phrase_fits(#[trigger] phrases@[k]),
        phrases_ok(phrases@),
        expand(phrases@) == data@,
        old(w).logical() + 4700 * (1 + sp.end - sp.start) <= u64::MAX,
    ensures
        final(w).wf(),
        final(w).bits().len() >= old(w).bits().len() + 3,
        final(w).bits().take(old(w).bits().len() as int) == old(w).bits(),
        block_decodes(
            final(w).bits().skip(old(w).bits().len() as int),
            old(w).bits().len(),
            bfinal,
            expand(phrases@.take(sp.start as int)),
            expand(phrases@.take(sp.end as int)),
        ),
        final(w).logical() == old(w).logical() + info.bits,
        info.bits <= 4700 * (1 + sp.end - sp.start),
        info.n_bytes == sp.n_bytes,
        block_ok(info),
        info.n_lit + info.n_match == sp.end - sp.start,
        info.n_match <= info.match_bytes,
        info.n_lit == count_literals(phrases@.subrange(sp.start as int, sp.end as int)),
        final(w).bits().len() == old(w).bits().len() + info.bits + if info.btype == 0 {
            pad_len((old(w).bits().len() + 3) as nat)
        } else {
            0
        },
        info.btype == 0 ==> fixed_block_cost(phrases@, sp.start as int, sp.end as int)
            > stored_cost(old(w).bits().len(), sp.n_bytes as nat),
        info.btype == 1 ==> info.bits == fixed_block_cost(phrases@, sp.start as int, sp.end as int)
            <= stored_cost(old(w).bits().len(), sp.n_bytes as nat),
        info.btype == 2 ==> info.bits <= fixed_block_cost(phrases@, sp.start as int, sp.end as int)
            && info.bits <= stored_cost(old(w).bits().len(), sp.n_bytes as nat) && info.bits >= 29,
        info.btype == 1 ==> final(w).bits() == old(w).bits() + block_header(bfinal, 1) + syms_bits(
            fixed_lit_seq(),
            fixed_dist_seq(),
            block_syms(phrases@, sp.start as int, sp.end as int),
        ),
{
    let ghost ps = phrases@;
    let ghost a = sp.start as int;
    let mut syms: Vec<Sym> = Vec::new();
    let mut nl: u32 = 0;
    let mut nm: u32 = 0;
    let mut mb: u32 = 0;
    let mut k: usize = sp.start;
    proof {
        assert(ps.subrange(a, a) =~= Seq::<Phrase>::empty());
    }
    while k < sp.end
        invariant
            ps == phrases@,
            span_ok(*sp, ps),
            a == sp.start,
            sp.start <= k <= sp.end,
            forall|q: int| sp.start <= q < sp.end ==> phrase_fits(#[trigger] ps[q]),
            syms@ == Seq::new((k - a) as nat, |q: int| phrase_sym(ps[a + q])),
            nl == count_literals(ps.subrange(a, k as int)),
            nl + nm == k - a,
            nl + mb == phrase_bytes(ps.subrange(a, k as int)),
            k - a <= nl + mb,
            nm <= mb,
            sp.n_bytes <= MAX_BLOCK,
            phrase_bytes(ps.subrange(a, k as int)) <= sp.n_bytes,
        decreases sp.end - k,
    {
        let p = phrases[k];
        proof {
            assert(ps.subrange(a, k + 1).drop_last() =~= ps.subrange(a, k as int));
            lemma_phrase_bytes_step(ps, a, k as int);
            lemma_phrase_bytes_mono(ps, a, k + 1, sp.end as int);
            assert(phrase_fits(ps[k as int]));
        }
        match p {
            Phrase::Literal(b) => {
                syms.push(Sym::Lit(b));
                nl = nl + 1;
            },
            Phrase::Match { len, dist } => {
                syms.push(Sym::Match { len, dist });
                nm = nm + 1;
                mb = mb + len;
            },
        }
        k = k + 1;
        proof {
            assert(syms@ =~= Seq::new((k - a) as nat, |q: int| phrase_sym(ps[a + q])));
        }
    }
    syms.push(Sym::Eob);
    let ghost bs = block_syms(ps, a, sp.end as int);
    proof {
        assert(syms@ =~= bs);
        assert(sp.end - a <= sp.n_bytes);
    }
    let nbytes = sp.n_bytes;
    let pad = w.pad_after(3);
    let stored_bits: u32 = 3 + pad + 32 + (nbytes as u32) * 8;
    let ghost fl = fixed_lit_seq();
    let ghost fd = fixed_dist_seq();
    let mut fixed_cost: u32 = 3;
    let mut i: usize = 0;
    while i < syms.len()
        invariant
            syms@ == bs,
            bs.len() <= 65536,
            forall|q: int| 0 <= q < bs.len() ==> sym_ok(#[trigger] bs[q]),
            i <= bs.len(),
            fixed_cost == 3 + syms_cost(fl, fd, bs.take(i as int)),
            fixed_cost <= 3 + 31 * i,
            fl == fixed_lit_seq(),
            fd == fixed_dist_seq(),
        decreases bs.len() - i,
    {
        proof {
            assert(bs.take(i + 1).drop_last() =~= bs.take(i as int));
        }
        let c = fixed_bits(&syms[i]);
        fixed_cost = fixed_cost + c;
        i = i + 1;
    }
    proof {
        assert(bs.take(i as int) =~= bs);
    }
    let dyn_plan = dynamic_plan(syms.as_slice());
    let btype: u32 = match &dyn_plan {
        Some(p) => {
            let dc = p.header_bits + p.sym_bits;
            if dc <= fixed_cost && dc <= stored_bits {
                2
            } else if fixed_cost <= stored_bits {
                1
            } else {
                0
            }
        },
        None => if fixed_cost <= stored_bits {
            1
        } else {
            0
        },
    };
    let before = w.logical_bits();
    let ghost b0 = w.bits();
    let ghost pos = b0.len();
    let ghost out_a = expand(ps.take(a));
    let ghost out_b = expand(ps.take(sp.end as int));
    if btype == 0 {
        write_stored(w, data, sp.offset, nbytes, bfinal);
        proof {
            let bytes = data@.subrange(sp.offset as int, sp.offset + nbytes);
            lemma_stored_decodes(pos, bfinal, out_a, bytes);
            assert(w.bits().skip(pos as int) =~= block_header(bfinal, 0) + stored_body(pos + 3, bytes));
            lemma_phrase_bytes_split(ps, a, sp.end as int);
            lemma_expand_prefix(ps, a);
            lemma_expand_prefix(ps, sp.end as int);
            assert(out_a + bytes =~= out_b);
        }
    } else if btype == 1 {
        write_fixed(w, syms.as_slice(), bfinal);
        proof {
            lemma_fixed_decodes(pos, bfinal, ps, a, sp.end as int);
            assert(w.bits().skip(pos as int) =~= block_header(bfinal, 1) + syms_bits(
                fixed_lit_seq(),
                fixed_dist_seq(),
                bs,
            ));
        }
    } else {
        match &dyn_plan {
            Some(p) => {
                write_dynamic(w, p, syms.as_slice(), bfinal);
                proof {
                    let pairs = zip_pairs(p.code_syms@, p.code_reps@);
                    assert forall|q: int| 0 <= q < pairs.len() implies p.cl_len@[#[trigger] pairs[q].0 as int]
                        >= 1 by {
                        assert(pairs[q].0 == p.code_syms@[q]);
                    }
                    assert(crate::roundtrip::lens_ok(p.cl_len@)) by {
                        assert forall|j: int| 0 <= j < p.cl_len@.len() implies #[trigger] p.cl_len@[j]
                            <= 15 by {
                            assert(p.cl_len@[j] <= 7);
                        }
                    }
                    lemma_dynamic_decodes(
                        pos,
                        bfinal,
                        ps,
                        a,
                        sp.end as int,
                        p.lit_len@,
                        p.dist_len@,
                        p.lit_trim@.len(),
                        p.dist_trim@.len(),
                        p.cl_len@,
                        p.n_clen as nat,
                        pairs,
                    );
                    assert(block_header(bfinal, 2) + dyn_header(*p) + syms_bits(
                        p.lit_len@,
                        p.dist_len@,
                        bs,
                    ) == block_header(bfinal, 2) + dynamic_header(
                        p.lit_trim@.len(),
                        p.dist_trim@.len(),
                        p.n_clen as nat,
                        p.cl_len@,
                        pairs,
                    ) + syms_bits(p.lit_len@, p.dist_len@, bs));
                    assert(w.bits().skip(pos as int) =~= block_header(bfinal, 2) + dyn_header(*p)
                        + syms_bits(p.lit_len@, p.dist_len@, bs));
                }
            },
            None => {},
        }
    }
    proof {
        assert(w.bits().take(pos as int) =~= b0);
    }
    let bits = w.logical_bits() - before;
    BlockInfo { btype, n_bytes: nbytes, bits: bits as u32, n_lit: nl, n_match: nm, match_bytes: mb }
}

proof fn lemma_phrase_bytes_mono(ps: Seq<Phrase>, a: int, k: int, e: int)
    requires
        0 <= a <= k <= e <= ps.len(),
    ensures
        phrase_bytes(ps.subrange(a, k)) <= phrase_bytes(ps.subrange(a, e)),
{
    lemma_phrase_bytes_split(ps, a, k);
    lemma_phrase_bytes_split(ps, a, e);
    lemma_phrase_bytes_split(ps, k, e);
}


/// Blocks of at least `m` bytes each cover at least `m` bytes per block.
proof fn lemma_total_bytes_lower(bs: Seq<BlockInfo>, m: nat)
    requires
        forall|k: int| 0 <= k < bs.len() ==> (#[trigger] bs[k]).n_bytes >= m,
    ensures
        total_bytes(bs) >= m * bs.len(),
    decreases bs.len(),
{
    if bs.len() > 0 {
        lemma_total_bytes_lower(bs.drop_last(), m);
        let l = bs.len() as int;
        assert(m * (l - 1) + m == m * l) by (nonlinear_arith);
    }
}

/// While blocks before the last are being written, each covers more than
/// `MAX_BLOCK - 258` bytes, so their number stays far below `u32::MAX`.
proof fn lemma_block_count_bound(bs: Seq<BlockInfo>, ps: Seq<Phrase>, done: int)
    requires
        0 <= done <= ps.len(),
        phrase_bytes(ps) < 0x8000_0000_0000,
        total_bytes(bs) == phrase_bytes(ps.take(done)),
        forall|k: int| 0 <= k < bs.len() ==> (#[trigger] bs[k]).n_bytes > MAX_BLOCK - 258,
    ensures
        bs.len() < 0xFFFF_FFFF,
{
    lemma_total_bytes_lower(bs, (MAX_BLOCK - 257) as nat);
    lemma_phrase_bytes_split(ps, done, ps.len() as int);
    assert(ps.take(ps.len() as int) =~= ps);
    let l = bs.len() as int;
    let t = total_bytes(bs) as int;
    assert(l < 0xFFFF_FFFF) by (nonlinear_arith)
        requires
            65278 * l <= t,
            t < 0x8000_0000_0000,
            l >= 0,
    ;
}

/// The stream of the empty input: a final fixed block holding only the
/// end-of-block code (seven zero bits), padded with zeros, is `03 00`.
proof fn lemma_empty_stream(out: Seq<u8>, bits: Seq<bool>)
    requires
        bits == block_header(1, 1) + syms_bits(fixed_lit_seq(), fixed_dist_seq(), seq![Sym::Eob]),
        bytes_bits(out) == bits + zero_bits(pad_len(bits.len())),
        8 * out.len() == bits.len() + pad_len(bits.len()),
    ensures
        out == seq![3u8, 0u8],
{
    let fl = fixed_lit_seq();
    let eob = seq![Sym::Eob];
    crate::kats::lemma_fixed_lit_code(fl, 256);
    assert(canonical_code(fl, 15, 256) == 0);
    assert(eob.drop_last() =~= Seq::<Sym>::empty());
    assert(eob.last() == Sym::Eob);
    assert(syms_bits(fl, fixed_dist_seq(), eob.drop_last()) =~= Seq::<bool>::empty());
    assert(sym_bits(fl, fixed_dist_seq(), Sym::Eob) == code_bits(fl, 256));
    assert(syms_bits(fl, fixed_dist_seq(), eob) =~= code_bits(fl, 256));
    let c = code_bits(fl, 256);
    assert(fl[256] == 7);
    assert(c.len() == 7);
    assert forall|i: int| 0 <= i < 7 implies !#[trigger] c[i] by {
        let j = (6 - i) as nat;
        assert(c[i] == crate::bits::bit_of(0u64, j));
        crate::bits::lemma_bit_of_value(0, j);
        vstd::arithmetic::power2::lemma_pow2_pos(j);
        let pj = vstd::arithmetic::power2::pow2(j) as int;
        assert(0int / pj == 0) by (nonlinear_arith)
            requires
                pj > 0,
        ;
    }
    crate::bits::lemma_bit_of_value(1, 0);
    crate::bits::lemma_bit_of_value(1, 1);
    vstd::arithmetic::power2::lemma2_to64();
    let h = block_header(1, 1);
    assert(h.len() == 3 && h[0] && h[1] && !h[2]);
    assert(bits.len() == 10);
    assert(pad_len(10) == 6);
    assert(out.len() == 2);
    let full = bits + zero_bits(6);
    assert(out.drop_last().drop_last() =~= Seq::<u8>::empty());
    assert(bytes_bits(out.drop_last().drop_last()) =~= Seq::<bool>::empty());
    assert(out.drop_last().last() == out[0]);
    assert(out.last() == out[1]);
    assert(bytes_bits(out.drop_last()) =~= crate::bits::byte_bits(out[0]));
    assert(bytes_bits(out) =~= crate::bits::byte_bits(out[0]) + crate::bits::byte_bits(out[1]));
    assert(full[0] && full[1] && !full[2]);
    assert forall|i: int| 3 <= i < 16 implies !#[trigger] full[i] by {
        if i < 10 {
            assert(full[i] == c[i - 3]);
        }
    }
    assert forall|i: int| 0 <= i < 8 implies crate::bits::byte_bits(out[0])[i]
        == #[trigger] crate::bits::byte_bits(3)[i] by {
        assert(crate::bits::byte_bits(out[0])[i] == full[i]);
        crate::bits::lemma_bit_of_value(3, i as nat);
        vstd::arithmetic::power2::lemma2_to64();
        assert(crate::bits::byte_bits(3)[i] == crate::bits::bit_of(3u64, i as nat));
        if i == 0 {
            assert(3nat / 1 == 3);
        } else if i == 1 {
            assert(3nat / 2 == 1);
        } else {
            if i > 2 {
                vstd::arithmetic::power2::lemma_pow2_strictly_increases(2, i as nat);
            }
            let pi = vstd::arithmetic::power2::pow2(i as nat) as int;
            assert(3int / pi == 0) by (nonlinear_arith)
                requires
                    pi >= 4,
            ;
        }
    }
    assert forall|i: int| 0 <= i < 8 implies crate::bits::byte_bits(out[1])[i]
        == #[trigger] crate::bits::byte_bits(0)[i] by {
        assert(crate::bits::byte_bits(out[1])[i] == full[i + 8]);
        crate::bits::lemma_bit_of_value(0, i as nat);
        if i < 2 {
            assert(c[i + 5] == full[i + 8]);
        }
    }
    assert(crate::bits::byte_bits(out[0]) =~= crate::bits::byte_bits(3));
    assert(crate::bits::byte_bits(out[1]) =~= crate::bits::byte_bits(0));
    crate::kats::lemma_byte_of_bits(out[0], 3);
    crate::kats::lemma_byte_of_bits(out[1], 0);
    assert(out =~= seq![3u8, 0u8]);
}

/// A block holding no phrases is the end-of-block symbol alone: 10 bits
/// with the fixed code.
proof fn lemma_empty_block(ps: Seq<Phrase>, a: int, b: int)
    requires
        a == b,
    ensures
        fixed_block_cost(ps, a, b) == 10,
{
    let bs = block_syms(ps, a, b);
    assert(bs =~= seq![Sym::Eob]);
    assert(bs.drop_last() =~= Seq::<Sym>::empty());
    assert(bs.last() == Sym::Eob);
    assert(fixed_lit_seq()[256] == 7);
    assert(sym_cost(fixed_lit_seq(), fixed_dist_seq(), Sym::Eob) == 7);
    assert(syms_cost(fixed_lit_seq(), fixed_dist_seq(), bs) == syms_cost(
        fixed_lit_seq(),
        fixed_dist_seq(),
        bs.drop_last(),
    ) + 7);
}

/// A byte stream of `len` bytes holding `bits + pad` bits and then padding
/// to the byte boundary.
proof fn lemma_round_up_bytes(len: nat, bits: nat, pad: nat)
    requires
        8 * len == bits + pad + pad_len(bits + pad),
    ensures
        bits <= 8 * len <= bits + pad + 7,
        pad == 0 ==> len == (bits + 7) / 8,
{
    let t = bits + pad;
    assert(pad_len(t) <= 7);
    if pad == 0 {
        if t % 8 == 0 {
            assert(len == (bits + 7) / 8) by (nonlinear_arith)
                requires
                    8 * len == bits,
            ;
        } else {
            assert(len == (bits + 7) / 8) by (nonlinear_arith)
                requires
                    8 * len == bits + 8 - bits % 8,
                    bits % 8 > 0,
            ;
        }
    }
}

/// The stream position where block `k` of `bs` starts: the bits of the
/// blocks before it, with the byte-alignment padding of the stored ones.
pub open spec fn block_pos(bs: Seq<BlockInfo>, k: int) -> nat
    decreases k,
{
    if k <= 0 {
        0
    } else {
        let p = block_pos(bs, k - 1);
        p + bs[k - 1].bits as nat + if bs[k - 1].btype == 0 {
            pad_len(p + 3)
        } else {
            0nat
        }
    }
}

/// Block `b`, starting at stream position `pos` and whose symbols take `fc`
/// bits with the fixed code, has the cheapest type by true cost: stored only
/// when the fixed code costs more than a stored block there, fixed at
/// exactly its fixed cost and no dearer than stored, dynamic no dearer than
/// either.
#[verifier::opaque]
pub open spec fn block_choice_ok(b: BlockInfo, pos: nat, fc: nat) -> bool {
    &&& b.btype == 0 ==> fc > stored_cost(pos, b.n_bytes as nat)
    &&& b.btype == 1 ==> b.bits == fc && fc <= stored_cost(pos, b.n_bytes as nat)
    &&& b.btype == 2 ==> b.bits <= fc && b.bits <= stored_cost(pos, b.n_bytes as nat)
}

/// The blocks `bs` hold the phrases `ps` split at the positions `st`, and
/// each block's type follows the cost rule.
pub open spec fn blocks_follow(bs: Seq<BlockInfo>, ps: Seq<Phrase>, st: Seq<int>) -> bool {
    &&& st.len() == bs.len() + 1
    &&& st[0] == 0
    &&& st[bs.len() as int] == ps.len()
    &&& forall|k: int|
        0 <= k < bs.len() ==> st[k] <= st[k + 1] && (#[trigger] bs[k]).n_bytes == phrase_bytes(
            ps.subrange(st[k], st[k + 1]),
        ) && block_choice_ok(bs[k], block_pos(bs, k), fixed_block_cost(ps, st[k], st[k + 1]))
}

/// The blocks `bs` hold the phrases of the compression pass over `data`
/// (`lz_phrases`), split into runs, each block's type chosen by the cost
/// rule.
#[verifier::opaque]
pub open spec fn blocks_chosen(data: Seq<u8>, bs: Seq<BlockInfo>) -> bool {
    exists|st: Seq<int>| #[trigger] blocks_follow(bs, crate::lzw77::lz_phrases(data), st)
}

/// Every bit of `bytes` from position `from` on is a zero.
#[verifier::opaque]
pub open spec fn zero_tail(bytes: Seq<u8>, from: nat) -> bool {
    forall|i: int| from <= i < 8 * bytes.len() ==> !#[trigger] bytes_bits(bytes)[i]
}

/// One more block keeps the start positions and the cost rule of all the
/// blocks so far.
proof fn lemma_blocks_step(
    old: Seq<BlockInfo>,
    info: BlockInfo,
    poss: Seq<nat>,
    spans: Seq<Span>,
    ps: Seq<Phrase>,
)
    requires
        poss.len() == old.len() + 2,
        forall|k: int| 0 <= k <= old.len() ==> #[trigger] poss[k] == block_pos(old, k),
        poss[old.len() + 1int] == poss[old.len() as int] + info.bits + if info.btype == 0 {
            pad_len(poss[old.len() as int] + 3)
        } else {
            0
        },
        spans.len() > old.len(),
        forall|k: int|
            0 <= k < old.len() ==> block_choice_ok(
                #[trigger] old[k],
                block_pos(old, k),
                fixed_block_cost(ps, spans[k].start as int, spans[k].end as int),
            ),
        block_choice_ok(
            info,
            poss[old.len() as int],
            fixed_block_cost(ps, spans[old.len() as int].start as int, spans[old.len() as int].end as int),
        ),
    ensures
        forall|k: int| 0 <= k <= old.len() + 1 ==> #[trigger] poss[k] == block_pos(old.push(info), k),
        forall|k: int|
            0 <= k < old.len() + 1 ==> block_choice_ok(
                #[trigger] old.push(info)[k],
                block_pos(old.push(info), k),
                fixed_block_cost(ps, spans[k].start as int, spans[k].end as int),
            ),
{
    let nb = old.push(info);
    let n = old.len() as int;
    assert forall|k: int| 0 <= k <= n implies block_pos(nb, k) == block_pos(old, k) by {
        lemma_block_pos_push(old, info, k);
    }
    assert(block_pos(nb, n + 1) == block_pos(nb, n) + nb[n].bits + if nb[n].btype == 0 {
        pad_len(block_pos(nb, n) + 3)
    } else {
        0
    });
    assert forall|k: int| 0 <= k <= n + 1 implies #[trigger] poss[k] == block_pos(nb, k) by {
        if k <= n {
            assert(poss[k] == block_pos(old, k));
        }
    }
    assert forall|k: int| 0 <= k < n + 1 implies block_choice_ok(
        #[trigger] nb[k],
        block_pos(nb, k),
        fixed_block_cost(ps, spans[k].start as int, spans[k].end as int),
    ) by {
        if k < n {
            assert(nb[k] == old[k]);
        }
    }
}

/// The finished stream: its blocks follow the phrases span by span, and
/// the padding after the last block is zeros.
#[verifier::spinoff_prover]
#[verifier::rlimit(60)]
proof fn lemma_raw_final(
    out: Seq<u8>,
    wb: Seq<bool>,
    bs: Seq<BlockInfo>,
    spans: Seq<Span>,
    ps: Seq<Phrase>,
    data: Seq<u8>,
)
    requires
        bytes_bits(out) == wb + zero_bits(pad_len(wb.len())),
        8 * out.len() == wb.len() + pad_len(wb.len()),
        bs.len() == spans.len() >= 1,
        ps == crate::lzw77::lz_phrases(data),
        spans[0].start == 0,
        spans.last().end == ps.len(),
        forall|k: int| 0 <= k < spans.len() - 1 ==> (#[trigger] spans[k]).end == spans[k + 1].start,
        forall|k: int| 0 <= k < spans.len() ==> span_ok(#[trigger] spans[k], ps),
        forall|k: int| 0 <= k < bs.len() ==> (#[trigger] bs[k]).n_bytes == spans[k].n_bytes,
        forall|k: int|
            0 <= k < bs.len() ==> block_choice_ok(
                #[trigger] bs[k],
                block_pos(bs, k),
                fixed_block_cost(ps, spans[k].start as int, spans[k].end as int),
            ),
    ensures
        blocks_chosen(data, bs),
        zero_tail(out, wb.len()),
{
    let ns = spans.len() as int;
    let st = Seq::new((ns + 1) as nat, |k: int| if k < ns {
        spans[k].start as int
    } else {
        ps.len() as int
    });
    assert forall|k: int| 0 <= k < ns implies st[k] <= st[k + 1] && (
    #[trigger] bs[k]).n_bytes == phrase_bytes(ps.subrange(st[k], st[k + 1])) && block_choice_ok(
        bs[k],
        block_pos(bs, k),
        fixed_block_cost(ps, st[k], st[k + 1]),
    ) by {
        assert(span_ok(spans[k], ps));
        if k < ns - 1 {
            assert(spans[k].end == spans[k + 1].start);
        } else {
            assert(spans[k] == spans.last());
        }
        assert(st[k + 1] == spans[k].end);
        assert(block_choice_ok(
            bs[k],
            block_pos(bs, k),
            fixed_block_cost(ps, spans[k].start as int, spans[k].end as int),
        ));
    }
    assert(blocks_follow(bs, ps, st));
    reveal(blocks_chosen);
    lemma_zero_tail(out, wb);
}

/// Bytes holding `wb` and then zero padding have a zero tail after `wb`.
proof fn lemma_zero_tail(out: Seq<u8>, wb: Seq<bool>)
    requires
        bytes_bits(out) == wb + zero_bits(pad_len(wb.len())),
        8 * out.len() == wb.len() + pad_len(wb.len()),
    ensures
        zero_tail(out, wb.len()),
{
    reveal(zero_tail);
    crate::bits::lemma_bytes_bits_len(out);
    assert forall|i: int| wb.len() <= i < 8 * out.len() implies !#[trigger] bytes_bits(out)[i] by {
        assert(bytes_bits(out)[i] == (wb + zero_bits(pad_len(wb.len())))[i]);
    }
}

/// Appending a block leaves the earlier start positions as they were.
proof fn lemma_block_pos_push(bs: Seq<BlockInfo>, b: BlockInfo, k: int)
    requires
        0 <= k <= bs.len(),
    ensures
        block_pos(bs.push(b), k) == block_pos(bs, k),
    decreases k,
{
    if k > 0 {
        lemma_block_pos_push(bs, b, k - 1);
    }
}

/// Compress `data` to a raw DEFLATE stream (no zlib container) and record
/// per-block statistics.
///
/// The statistics account for every block: the blocks cover the input in
/// order, each holds at most `MAX_BLOCK` bytes and every block but the last
/// is full up to one more phrase; each block's type is the cheapest of
/// stored and fixed codes by true stream cost (dynamic when its plan is no
/// dearer than either), judged at the stream position where the block
/// starts (`blocks_chosen`). The stream is the blocks' bits plus the padding
/// of stored blocks, rounded up to whole bytes with zero bits. The empty
/// input becomes one fixed block of 10 bits, the bytes `03 00`.
#[verifier::spinoff_prover]
#[verifier::rlimit(100)]
pub fn compress_raw(data: &[u8]) -> (r: (Vec<u8>, CompressStats))
    requires
        data@.len() < 0x8000_0000_0000,
        data@.len() + 3 <= usize::MAX,
    ensures
        r.1.in_bytes == data@.len(),
        r.1.n_blocks == r.1.blocks@.len(),
        1 <= r.1.blocks@.len(),
        r.1.n_stored == count_btype(r.1.blocks@, 0),
        r.1.n_fixed == count_btype(r.1.blocks@, 1),
        r.1.n_dynamic == count_btype(r.1.blocks@, 2),
        r.1.n_stored + r.1.n_fixed + r.1.n_dynamic == r.1.n_blocks,
        r.1.deflate_bits == total_bits(r.1.blocks@),
        r.1.n_lit == total_lit(r.1.blocks@),
        r.1.n_match == total_match(r.1.blocks@),
        r.1.match_bytes == total_match_bytes(r.1.blocks@),
        total_bytes(r.1.blocks@) == data@.len(),
        forall|k: int| 0 <= k < r.1.blocks@.len() ==> block_ok(#[trigger] r.1.blocks@[k]),
        forall|k: int|
            0 <= k < r.1.blocks@.len() - 1 ==> (#[trigger] r.1.blocks@[k]).n_bytes > MAX_BLOCK - 258,
        data@.len() > 0 ==> forall|k: int|
            0 <= k < r.1.blocks@.len() ==> (#[trigger] r.1.blocks@[k]).n_bytes > 0,
        spec_inflate(r.0@) == Ok::<Seq<u8>, InflateError>(data@),
        r.1.deflate_bits <= 8 * r.0@.len() <= r.1.deflate_bits + 7 * r.1.n_stored + 7,
        r.1.n_stored == 0 ==> r.0@.len() == (r.1.deflate_bits + 7) / 8,
        r.1.deflate_bits <= 42 * r.1.n_blocks + 8 * data@.len(),
        8 * r.0@.len() <= 8 * data@.len() + 49 * r.1.n_blocks + 7,
        65278 * (r.1.n_blocks - 1) <= data@.len(),
        data@.len() == 0 ==> r.1.n_blocks == 1 && r.1.blocks@[0].btype == 1
            && r.1.deflate_bits == 10,
        blocks_chosen(data@, r.1.blocks@),
        8 * r.0@.len() == block_pos(r.1.blocks@, r.1.blocks@.len() as int) + pad_len(
            block_pos(r.1.blocks@, r.1.blocks@.len() as int),
        ),
        zero_tail(r.0@, block_pos(r.1.blocks@, r.1.blocks@.len() as int)),
        data@.len() == 0 ==> r.0@ == seq![3u8, 0u8],
{
    let phrases = crate::lzw77::compress(data);
    let ghost ps = phrases@;
    proof {
        lemma_expand_len(ps);
        crate::lzw77::lemma_phrase_bytes_ge(ps);
    }
    let spans = split_blocks(phrases.as_slice());
    proof {
        assert forall|k: int| 0 <= k < spans@.len() - 1 implies (#[trigger] spans@[k]).n_bytes
            > MAX_BLOCK - 258 by {
            assert(spans@[k].n_bytes + phrase_len(ps[spans@[k].end as int]) > MAX_BLOCK);
            lemma_phrase_ok_at(ps, spans@[k].end as int);
            assert(match ps[spans@[k].end as int] {
                Phrase::Literal(_) => true,
                Phrase::Match { len, dist } => 3 <= len <= 258,
            });
        }
    }
    let mut w = BitWriter::new();
    let mut stats = CompressStats {
        n_blocks: 0,
        n_stored: 0,
        n_fixed: 0,
        n_dynamic: 0,
        in_bytes: data.len(),
        deflate_bits: 0,
        n_lit: 0,
        n_match: 0,
        match_bytes: 0,
        blocks: Vec::new(),
    };
    let ns = spans.len();
    let mut bi: usize = 0;
    let ghost mut done: int = 0;
    let ghost mut poss: Seq<nat> = seq![0nat];
    let ghost mut padt: nat = 0;
    while bi < ns
        invariant
            forall|k: int| 0 <= k <= bi ==> #[trigger] poss[k] == block_pos(stats.blocks@, k),
            forall|k: int|
                0 <= k < bi ==> block_choice_ok(
                    #[trigger] stats.blocks@[k],
                    block_pos(stats.blocks@, k),
                    fixed_block_cost(ps, spans@[k].start as int, spans@[k].end as int),
                ),
            data@.len() == 0 && bi > 0 ==> w.bits() == block_header(1, 1) + syms_bits(
                fixed_lit_seq(),
                fixed_dist_seq(),
                seq![Sym::Eob],
            ),
            w.bits().len() == stats.deflate_bits + padt,
            padt <= 7 * stats.n_stored,
            stats.deflate_bits <= 42 * bi + 8 * total_bytes(stats.blocks@),
            data@.len() == 0 && bi > 0 ==> stats.blocks@[0].btype == 1 && stats.blocks@[0].bits == 10,
            poss.len() == bi + 1,
            poss[0] == 0,
            poss[bi as int] == w.bits().len(),
            forall|k: int| 0 <= k < bi ==> #[trigger] poss[k] + 3 <= poss[k + 1],
            forall|k: int|
                0 <= k < bi ==> block_decodes(
                    w.bits().subrange(#[trigger] poss[k] as int, poss[k + 1] as int),
                    poss[k],
                    if k == ns - 1 {
                        1u64
                    } else {
                        0u64
                    },
                    expand(ps.take(spans@[k].start as int)),
                    expand(ps.take(spans@[k].end as int)),
                ),
            ps == phrases@,
            phrases_ok(ps),
            lengths_encodable(ps),
            expand(ps) == data@,
            phrase_bytes(ps) == data@.len() < 0x8000_0000_0000,
            forall|k: int| 0 <= k < ns - 1 ==> (#[trigger] spans@[k]).n_bytes > MAX_BLOCK - 258,
            ps.len() <= data@.len(),
            ns == spans@.len(),
            1 <= ns,
            ns == 1 || ns <= ps.len(),
            spans@[0].start == 0,
            spans@.last().end == ps.len(),
            forall|k: int| 0 <= k < ns - 1 ==> (#[trigger] spans@[k]).end == spans@[k + 1].start,
            forall|k: int| 0 <= k < ns ==> span_ok(#[trigger] spans@[k], ps),
            bi <= ns,
            bi == 0 ==> done == 0,
            bi > 0 ==> done == spans@[bi - 1].end,
            0 <= done <= ps.len(),
            w.wf(),
            w.logical() <= 4700 * (bi + done),
            stats.in_bytes == data@.len(),
            stats.n_blocks == bi,
            stats.blocks@.len() == bi,
            stats.n_stored == count_btype(stats.blocks@, 0),
            stats.n_fixed == count_btype(stats.blocks@, 1),
            stats.n_dynamic == count_btype(stats.blocks@, 2),
            stats.n_stored + stats.n_fixed + stats.n_dynamic == bi,
            stats.deflate_bits == total_bits(stats.blocks@),
            stats.deflate_bits == w.logical(),
            stats.n_lit == total_lit(stats.blocks@),
            stats.n_match == total_match(stats.blocks@),
            stats.match_bytes == total_match_bytes(stats.blocks@),
            stats.n_lit + stats.n_match == done,
            total_bytes(stats.blocks@) == phrase_bytes(ps.take(done)),
            stats.n_lit + stats.match_bytes == total_bytes(stats.blocks@),
            forall|k: int| 0 <= k < bi ==> block_ok(#[trigger] stats.blocks@[k]),
            forall|k: int| 0 <= k < bi ==> (#[trigger] stats.blocks@[k]).n_bytes == spans@[k].n_bytes,
            forall|k: int|
                0 <= k < bi ==> (#[trigger] stats.blocks@[k]).n_bytes >= spans@[k].end - spans@[k].start,
        decreases ns - bi,
    {
        let sp = &spans[bi];
        let bfinal: u64 = if bi == ns - 1 {
            1
        } else {
            0
        };
        proof {
            if bi > 0 {
                assert(spans@[bi - 1].end == spans@[bi as int].start);
            }
            assert(sp.start == done);
            lemma_phrase_bytes_split(ps, sp.start as int, sp.end as int);
            lemma_expand_prefix(ps, sp.end as int);
            assert forall|k: int| sp.start <= k < sp.end implies phrase_fits(#[trigger] ps[k]) by {
                lemma_phrase_ok_at(ps, k);
                assert(match ps[k] {
                    Phrase::Literal(_) => true,
                    Phrase::Match { len, dist } => 3 <= len <= 258,
                });
            }
        }
        proof {
            lemma_block_count_bound(stats.blocks@, ps, done);
        }
        let ghost old_bits = w.bits();
        let info = encode_block(&mut w, data, phrases.as_slice(), sp, bfinal);
        proof {
            if info.btype == 0 {
                padt = padt + pad_len((old_bits.len() + 3) as nat);
            }
            assert(block_choice_ok(
                info,
                old_bits.len(),
                fixed_block_cost(ps, sp.start as int, sp.end as int),
            )) by {
                reveal(block_choice_ok);
            }
            if data@.len() == 0 && bi == 0 {
                lemma_empty_block(ps, sp.start as int, sp.end as int);
                assert(sp.n_bytes == 0);
                assert(stored_cost(old_bits.len(), 0) >= 35);
                assert(ns == 1);
                assert(block_syms(ps, sp.start as int, sp.end as int) =~= seq![Sym::Eob]);
                assert(old_bits =~= Seq::<bool>::empty());
                assert(w.bits() =~= block_header(1, 1) + syms_bits(
                    fixed_lit_seq(),
                    fixed_dist_seq(),
                    seq![Sym::Eob],
                ));
            }
            lemma_decodes_extend(old_bits, w.bits(), poss, spans@, ps, bi as int, ns as int);
            poss = poss.push(w.bits().len());
        }
        let ghost old_blocks = stats.blocks@;
        stats.n_blocks = stats.n_blocks + 1;
        if info.btype == 0 {
            stats.n_stored = stats.n_stored + 1;
        } else if info.btype == 1 {
            stats.n_fixed = stats.n_fixed + 1;
        } else {
            stats.n_dynamic = stats.n_dynamic + 1;
        }
        stats.n_lit = stats.n_lit + info.n_lit as u64;
        stats.n_match = stats.n_match + info.n_match as u64;
        stats.match_bytes = stats.match_bytes + info.match_bytes as u64;
        stats.deflate_bits = stats.deflate_bits + info.bits as u64;
        stats.blocks.push(info);
        proof {
            assert(stats.blocks@ == old_blocks.push(info));
            lemma_blocks_step(old_blocks, info, poss, spans@, ps);
            assert(stats.blocks@.drop_last() =~= old_blocks);
            done = sp.end as int;
        }
        bi = bi + 1;
    }
    let ghost wb = w.bits();
    let out = w.finish();
    proof {
        let nb = stats.blocks@.len() as int;
        assert(wb.len() == block_pos(stats.blocks@, nb));
        if data@.len() == 0 {
            lemma_empty_stream(out@, wb);
        }
        lemma_raw_final(out@, wb, stats.blocks@, spans@, ps, data@);
        lemma_round_up_bytes(out@.len(), stats.deflate_bits as nat, padt);
        assert forall|k: int| 0 <= k < stats.blocks@.drop_last().len() implies (
        #[trigger] stats.blocks@.drop_last()[k]).n_bytes >= 65278 by {
            assert(stats.blocks@.drop_last()[k] == stats.blocks@[k]);
        }
        lemma_total_bytes_lower(stats.blocks@.drop_last(), 65278);
        if data@.len() == 0 {
            assert(ns == 1);
            assert(stats.blocks@.drop_last() =~= Seq::<BlockInfo>::empty());
            assert(stats.blocks@.len() == 1);
            assert(total_bits(stats.blocks@.drop_last()) == 0);
            assert(stats.blocks@.last() == stats.blocks@[0]);
            assert(total_bits(stats.blocks@) == stats.blocks@[0].bits);
        }
        assert(done == ps.len());
        assert(ps.take(done) =~= ps);
        lemma_stream_decodes(out@, wb, poss, ps, spans@, ns as nat);
        assert forall|k: int| 0 <= k < stats.blocks@.len() - 1 implies (#[trigger] stats.blocks@[k]).n_bytes
            > MAX_BLOCK - 258 by {
            assert(spans@[k].n_bytes + phrase_len(ps[spans@[k].end as int]) > MAX_BLOCK);
            assert(match ps[spans@[k].end as int] {
                Phrase::Literal(_) => true,
                Phrase::Match { len, dist } => 3 <= len <= 258,
            });
        }
        if data@.len() > 0 {
            assert forall|k: int| 0 <= k < stats.blocks@.len() implies (#[trigger] stats.blocks@[k]).n_bytes
                > 0 by {
                if ns > 1 {
                    assert(spans@[k].start < spans@[k].end);
                } else {
                    assert(stats.blocks@.drop_last() =~= Seq::<BlockInfo>::empty());
                }
            }
        }
    }
    (out, stats)
}

/// Appending to the stream keeps every earlier block reading back.
proof fn lemma_decodes_extend(
    old_bits: Seq<bool>,
    nb: Seq<bool>,
    poss: Seq<nat>,
    spans: Seq<Span>,
    ps: Seq<Phrase>,
    bi: int,
    ns: int,
)
    requires
        0 <= bi < spans.len(),
        poss.len() == bi + 1,
        poss[bi] == old_bits.len(),
        nb.len() >= old_bits.len() + 3,
        nb.take(old_bits.len() as int) == old_bits,
        forall|k: int| 0 <= k < bi ==> #[trigger] poss[k] + 3 <= poss[k + 1],
        forall|k: int|
            0 <= k < bi ==> block_decodes(
                old_bits.subrange(#[trigger] poss[k] as int, poss[k + 1] as int),
                poss[k],
                if k == ns - 1 {
                    1u64
                } else {
                    0u64
                },
                expand(ps.take(spans[k].start as int)),
                expand(ps.take(spans[k].end as int)),
            ),
        block_decodes(
            nb.skip(old_bits.len() as int),
            old_bits.len(),
            if bi == ns - 1 {
                1u64
            } else {
                0u64
            },
            expand(ps.take(spans[bi].start as int)),
            expand(ps.take(spans[bi].end as int)),
        ),
    ensures
        forall|k: int| 0 <= k < bi + 1 ==> #[trigger] poss.push(nb.len())[k] + 3 <= poss.push(nb.len())[k + 1],
        forall|k: int|
            0 <= k < bi + 1 ==> block_decodes(
                nb.subrange(#[trigger] poss.push(nb.len())[k] as int, poss.push(nb.len())[k + 1] as int),
                poss.push(nb.len())[k],
                if k == ns - 1 {
                    1u64
                } else {
                    0u64
                },
                expand(ps.take(spans[k].start as int)),
                expand(ps.take(spans[k].end as int)),
            ),
{
    let pp = poss.push(nb.len());
    assert forall|k: int| 0 <= k < bi + 1 implies #[trigger] pp[k] + 3 <= pp[k + 1] by {
        if k < bi {
            assert(pp[k] == poss[k] && pp[k + 1] == poss[k + 1]);
        }
    }
    assert forall|k: int| 0 <= k < bi + 1 implies block_decodes(
        nb.subrange(#[trigger] pp[k] as int, pp[k + 1] as int),
        pp[k],
        if k == ns - 1 {
            1u64
        } else {
            0u64
        },
        expand(ps.take(spans[k].start as int)),
        expand(ps.take(spans[k].end as int)),
    ) by {
        if k < bi {
            assert(pp[k] == poss[k] && pp[k + 1] == poss[k + 1]);
            lemma_poss_prefix(poss, k + 1, bi);
            assert(nb.subrange(poss[k] as int, poss[k + 1] as int) =~= old_bits.subrange(
                poss[k] as int,
                poss[k + 1] as int,
            ));
        } else {
            assert(nb.subrange(pp[k] as int, pp[k + 1] as int) =~= nb.skip(old_bits.len() as int));
        }
    }
}

/// The whole stream reads back: blocks that each read back, written one
/// after the other and padded to a byte, decode to all the phrases' output.
#[verifier::spinoff_prover]
#[verifier::rlimit(50)]
proof fn lemma_stream_decodes(
    out: Seq<u8>,
    wb: Seq<bool>,
    poss: Seq<nat>,
    ps: Seq<Phrase>,
    spans: Seq<Span>,
    ns: nat,
)
    requires
        ns >= 1,
        spans.len() == ns,
        poss.len() == ns + 1,
        poss[0] == 0,
        poss[ns as int] == wb.len(),
        forall|k: int| 0 <= k < ns ==> #[trigger] poss[k] + 3 <= poss[k + 1],
        forall|k: int|
            0 <= k < ns ==> block_decodes(
                wb.subrange(#[trigger] poss[k] as int, poss[k + 1] as int),
                poss[k],
                if k == ns - 1 {
                    1u64
                } else {
                    0u64
                },
                expand(ps.take(spans[k].start as int)),
                expand(ps.take(spans[k].end as int)),
            ),
        spans[0].start == 0,
        spans[ns - 1].end == ps.len(),
        forall|k: int| 0 <= k < ns - 1 ==> (#[trigger] spans[k]).end == spans[k + 1].start,
        bytes_bits(out) == wb + zero_bits(pad_len(wb.len())),
    ensures
        spec_inflate(out) == Ok::<Seq<u8>, InflateError>(expand(ps)),
{
    let bb = bytes_bits(out);
    crate::bits::lemma_bytes_bits_len(out);
    let outs = Seq::new((ns + 1) as nat, |k: int| if k < ns {
        expand(ps.take(spans[k].start as int))
    } else {
        expand(ps)
    });
    assert forall|k: int| 0 <= k < ns implies #[trigger] poss[k] <= poss[k + 1] by {}
    assert forall|k: int| 0 <= k < ns implies block_decodes(
        bb.subrange(#[trigger] poss[k] as int, poss[k + 1] as int),
        poss[k],
        if k == ns - 1 {
            1u64
        } else {
            0u64
        },
        outs[k],
        outs[k + 1],
    ) by {
        lemma_poss_prefix(poss, k + 1, ns as int);
        assert(bb.subrange(poss[k] as int, poss[k + 1] as int) =~= wb.subrange(
            poss[k] as int,
            poss[k + 1] as int,
        ));
        if k < ns - 1 {
            assert(spans[k].end == spans[k + 1].start);
        } else {
            assert(ps.take(spans[k].end as int) =~= ps);
        }
    }
    lemma_poss_grow(poss, ns as int);
    crate::roundtrip::lemma_blocks_chain(out, poss, outs, 0, 8 * out.len() + 1);
    assert(ps.take(0) =~= Seq::<Phrase>::empty());
    assert(expand(ps.take(0)) == Seq::<u8>::empty());
}

proof fn lemma_poss_prefix(poss: Seq<nat>, j: int, n: int)
    requires
        0 <= j <= n < poss.len(),
        forall|k: int| 0 <= k < n ==> #[trigger] poss[k] + 3 <= poss[k + 1],
    ensures
        poss[j] <= poss[n],
    decreases n - j,
{
    if j < n {
        lemma_poss_prefix(poss, j + 1, n);
    }
}

/// Every block takes at least three bits.
proof fn lemma_poss_grow(poss: Seq<nat>, n: int)
    requires
        0 <= n < poss.len(),
        poss[0] == 0,
        forall|k: int| 0 <= k < n ==> #[trigger] poss[k] + 3 <= poss[k + 1],
    ensures
        3 * n <= poss[n],
    decreases n,
{
    if n > 0 {
        lemma_poss_grow(poss, n - 1);
    }
}

/// Compress `data` into the zlib container: `0x78 0x9c` + DEFLATE +
/// big-endian Adler-32 (RFC 1950 §2.2).
#[verifier::spinoff_prover]
pub fn compress_zlib(data: &[u8]) -> (r: Vec<u8>)
    requires
        data@.len() < 0x8000_0000_0000,
        data@.len() + 3 <= usize::MAX,
    ensures
        r@.len() >= 6,
        r@[0] == 0x78,
        r@[1] == 0x9c,
        be32(r@[r@.len() - 4], r@[r@.len() - 3], r@[r@.len() - 2], r@[r@.len() - 1])
            == spec_adler32(1, data@),
        spec_inflate_zlib(r@) == Ok::<Seq<u8>, InflateError>(data@),
        spec_inflate(r@.subrange(2, r@.len() - 4)) == Ok::<Seq<u8>, InflateError>(data@),
        8 * r@.len() <= 8 * data@.len() + 49 * (data@.len() / 65278) + 104,
{
    let (deflate, _stats) = compress_raw(data);
    proof {
        let nb = _stats.n_blocks as int;
        let l = data@.len() as int;
        assert(nb - 1 <= l / 65278) by (nonlinear_arith)
            requires
                65278 * (nb - 1) <= l,
                nb >= 1,
        ;
    }
    let mut out: Vec<u8> = Vec::new();
    out.push(0x78);
    out.push(0x9c);
    let mut i: usize = 0;
    while i < deflate.len()
        invariant
            i <= deflate@.len(),
            out@ == seq![0x78u8, 0x9cu8] + deflate@.take(i as int),
        decreases deflate@.len() - i,
    {
        out.push(deflate[i]);
        i = i + 1;
        proof {
            assert(out@ =~= seq![0x78u8, 0x9cu8] + deflate@.take(i as int));
        }
    }
    let a = adler32_fresh(data);
    let b0 = (a >> 24) as u8;
    let b1 = ((a >> 16) & 0xff) as u8;
    let b2 = ((a >> 8) & 0xff) as u8;
    let b3 = (a & 0xff) as u8;
    let ghost mid = out@;
    out.push(b0);
    out.push(b1);
    out.push(b2);
    out.push(b3);
    proof {
        assert(deflate@.take(deflate@.len() as int) =~= deflate@);
        assert(out@ =~= seq![0x78u8, 0x9cu8] + deflate@ + seq![b0, b1, b2, b3]);
        assert(be32(b0, b1, b2, b3) == a) by (bit_vector)
            requires
                b0 == (a >> 24) as u8,
                b1 == ((a >> 16) & 0xff) as u8,
                b2 == ((a >> 8) & 0xff) as u8,
                b3 == (a & 0xff) as u8,
        ;
    }
    proof {
        lemma_zlib_wrap(out@, deflate@, data@, b0, b1, b2, b3);
        assert(out@.subrange(2, out@.len() - 4) =~= deflate@);
    }
    out
}

/// The zlib framing of a raw stream reads back: header `0x78 0x9c`, the
/// stream, then the big-endian Adler-32 of what it decodes to.
proof fn lemma_zlib_wrap(out: Seq<u8>, raw: Seq<u8>, data: Seq<u8>, b0: u8, b1: u8, b2: u8, b3: u8)
    requires
        out == seq![0x78u8, 0x9cu8] + raw + seq![b0, b1, b2, b3],
        spec_inflate(raw) == Ok::<Seq<u8>, InflateError>(data),
        be32(b0, b1, b2, b3) == spec_adler32(1, data),
    ensures
        spec_inflate_zlib(out) == Ok::<Seq<u8>, InflateError>(data),
{
    let n = out.len() as int;
    assert(out.subrange(2, n - 4) =~= raw);
    assert(out[0] == 0x78u8 && out[1] == 0x9cu8);
    assert(out[n - 4] == b0 && out[n - 3] == b1 && out[n - 2] == b2 && out[n - 1] == b3);
    assert(0x78u8 & 0x0F == 8) by (bit_vector);
    assert(0x9cu8 & 0x20 == 0) by (bit_vector);
    assert((0x78 * 256 + 0x9c) % 31 == 0);
}

/// The container hashes (CRC-32 and Adler-32) of `data`.
pub fn container_hashes(data: &[u8]) -> (r: (u32, u32))
    ensures
        r.0 == spec_crc32(0, data@),
        r.1 == spec_adler32(1, data@),
{
    (crc32_fresh(data), adler32_fresh(data))
}

/// The fixed literal/length code table (RFC 1951 §3.2.6).
pub fn fixed_lit_table() -> (t: CodeTable)
    ensures
        t.wf(),
        t.lens() == fixed_lit_seq(),
{
    let l = fixed_lit_lengths();
    proof {
        assert(l@ =~= fixed_lit_seq());
        crate::prefix::lemma_fixed_prefix_ok();
    }
    CodeTable::build(l.as_slice())
}

/// The fixed distance code table (RFC 1951 §3.2.6).
pub fn fixed_dist_table() -> (t: CodeTable)
    ensures
        t.wf(),
        t.lens() == fixed_dist_seq(),
{
    proof {
        assert(FIXED_DIST_LENGTHS@ =~= fixed_dist_seq());
        crate::prefix::lemma_fixed_prefix_ok();
    }
    CodeTable::build(&FIXED_DIST_LENGTHS)
}

} // verus!
