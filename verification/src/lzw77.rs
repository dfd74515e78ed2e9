//! LZ77 phrase search: chained hash table on 3-byte sequences with lazy
//! matching, the algorithm RFC 1951 §4 recommends.
//!
//! * Hash table: 2^16 chains, `head[hash]` = most recent position,
//!   `prev[pos]` = previous position with the same hash. Chains are singly
//!   linked and never deleted; matches older than the 32 KiB window are
//!   discarded, and chains are truncated at 128 entries.
//! * Search order: most recent first (favors small distances).
//! * Lazy matching: a match found at position `p` is held while the next
//!   position is searched; if the next match is longer, `p` is emitted as a
//!   literal and the longer match takes over, otherwise the held match is
//!   emitted (advancing by its full length).
//!
//! Match validity mirrors the decoder exactly: distance 1..=32768, length
//! 3..=258, and overlaps (distance < length) are legal.
use vstd::prelude::*;

verus! {

/// The backward-match window.
pub const WINDOW: usize = 32_768;

/// Longest encodable match.
pub const MAX_MATCH: u32 = 258;

/// Shortest match worth encoding.
pub const MIN_MATCH: u32 = 3;

/// Chain truncation (RFC §4: "very long hash chains are arbitrarily
/// truncated at a certain length").
pub const MAX_CHAIN: usize = 128;

/// Hash table size (2^16 chains for 3-byte sequences).
pub const HASH_SIZE: usize = 65536;

/// One output phrase: a literal byte or a backward match.
#[derive(Debug, Clone, Copy, PartialEq, Eq, Structural)]
pub enum Phrase {
    /// A literal byte.
    Literal(u8),
    /// Copy `len` (3..=258) bytes from `dist` (1..=32768) bytes back; the copy
    /// may overlap (dist < len).
    Match { len: u32, dist: u32 },
}

/// `out` extended by `k` bytes, each copied from `dist` bytes before the end
/// (one byte at a time, so overlapping copies repeat the pattern).
pub open spec fn copy_back(out: Seq<u8>, dist: nat, k: nat) -> Seq<u8>
    decreases k,
{
    if k == 0 {
        out
    } else {
        let c = copy_back(out, dist, (k - 1) as nat);
        c.push(c[c.len() - dist])
    }
}

/// `out` extended by what phrase `p` produces.
pub open spec fn apply_phrase(out: Seq<u8>, p: Phrase) -> Seq<u8> {
    match p {
        Phrase::Literal(b) => out.push(b),
        Phrase::Match { len, dist } => copy_back(out, dist as nat, len as nat),
    }
}

/// The bytes a phrase list produces.
pub open spec fn expand(ps: Seq<Phrase>) -> Seq<u8>
    decreases ps.len(),
{
    if ps.len() == 0 {
        Seq::empty()
    } else {
        apply_phrase(expand(ps.drop_last()), ps.last())
    }
}

/// A phrase can be applied after `out_len` bytes: a match reaches back at
/// least 1 and at most 32768 bytes, and not before the start.
pub open spec fn phrase_ok(out_len: nat, p: Phrase) -> bool {
    match p {
        Phrase::Literal(_) => true,
        Phrase::Match { len, dist } => 1 <= dist <= 32768 && dist <= out_len,
    }
}

/// Every phrase of the list can be applied in turn.
pub open spec fn phrases_ok(ps: Seq<Phrase>) -> bool
    decreases ps.len(),
{
    if ps.len() == 0 {
        true
    } else {
        phrases_ok(ps.drop_last()) && phrase_ok(expand(ps.drop_last()).len(), ps.last())
    }
}

/// Every match of the list has an encodable length (3..=258).
pub open spec fn lengths_encodable(ps: Seq<Phrase>) -> bool {
    forall|i: int|
        0 <= i < ps.len() ==> match #[trigger] ps[i] {
            Phrase::Literal(_) => true,
            Phrase::Match { len, dist } => 3 <= len <= 258,
        }
}

/// The number of literal phrases in `ps`.
pub open spec fn count_literals(ps: Seq<Phrase>) -> nat
    decreases ps.len(),
{
    if ps.len() == 0 {
        0
    } else {
        count_literals(ps.drop_last()) + if ps.last() is Literal {
            1nat
        } else {
            0nat
        }
    }
}

/// The number of input bytes a phrase covers.
pub open spec fn phrase_len(p: Phrase) -> nat {
    match p {
        Phrase::Literal(_) => 1,
        Phrase::Match { len, dist } => len as nat,
    }
}

/// The length of a backward copy.
pub proof fn lemma_copy_back_len(out: Seq<u8>, dist: nat, k: nat)
    ensures
        copy_back(out, dist, k).len() == out.len() + k,
        copy_back(out, dist, k).take(out.len() as int) == out,
    decreases k,
{
    if k > 0 {
        lemma_copy_back_len(out, dist, (k - 1) as nat);
        let c = copy_back(out, dist, (k - 1) as nat);
        assert(c.push(c[c.len() - dist]).take(out.len() as int) =~= c.take(out.len() as int));
    }
}

/// Applying a phrase appends exactly the bytes it covers.
pub proof fn lemma_apply_len(out: Seq<u8>, p: Phrase)
    ensures
        apply_phrase(out, p).len() == out.len() + phrase_len(p),
        apply_phrase(out, p).take(out.len() as int) == out,
{
    match p {
        Phrase::Literal(b) => {
            assert(out.push(b).take(out.len() as int) =~= out);
        },
        Phrase::Match { len, dist } => {
            lemma_copy_back_len(out, dist as nat, len as nat);
        },
    }
}

/// A backward copy of `k` bytes from `dist` back, made right after
/// `data[..p]`, reproduces `data[..p + k]` when those bytes repeat at that
/// distance.
pub proof fn lemma_copy_back_matches(data: Seq<u8>, p: nat, dist: nat, k: nat)
    requires
        1 <= dist <= p,
        p + k <= data.len(),
        forall|t: int| 0 <= t < k ==> data[p - dist + t] == #[trigger] data[p + t],
    ensures
        copy_back(data.take(p as int), dist, k) == data.take((p + k) as int),
    decreases k,
{
    if k > 0 {
        lemma_copy_back_matches(data, p, dist, (k - 1) as nat);
        let c = copy_back(data.take(p as int), dist, (k - 1) as nat);
        assert(c.len() == p + k - 1);
        assert(c[c.len() - dist] == data[p - dist + (k - 1)]);
        assert(c.push(c[c.len() - dist]) =~= data.take((p + k) as int));
    }
}

/// The number of input bytes a phrase list covers.
pub open spec fn phrase_bytes(ps: Seq<Phrase>) -> nat
    decreases ps.len(),
{
    if ps.len() == 0 {
        0
    } else {
        phrase_bytes(ps.drop_last()) + phrase_len(ps.last())
    }
}

/// A phrase list produces exactly the bytes it covers.
pub proof fn lemma_expand_len(ps: Seq<Phrase>)
    ensures
        expand(ps).len() == phrase_bytes(ps),
    decreases ps.len(),
{
    if ps.len() > 0 {
        lemma_expand_len(ps.drop_last());
        lemma_apply_len(expand(ps.drop_last()), ps.last());
    }
}

/// What a prefix of a phrase list produces is a prefix of what the whole
/// list produces.
pub proof fn lemma_expand_prefix(ps: Seq<Phrase>, n: int)
    requires
        0 <= n <= ps.len(),
    ensures
        expand(ps).take(phrase_bytes(ps.take(n)) as int) == expand(ps.take(n)),
        phrase_bytes(ps.take(n)) <= phrase_bytes(ps),
    decreases ps.len(),
{
    lemma_expand_len(ps);
    lemma_expand_len(ps.take(n));
    if n == ps.len() {
        assert(ps.take(n) =~= ps);
        assert(expand(ps).take(expand(ps).len() as int) =~= expand(ps));
    } else {
        let d = ps.drop_last();
        assert(d.take(n) =~= ps.take(n));
        lemma_expand_prefix(d, n);
        lemma_expand_len(d);
        lemma_apply_len(expand(d), ps.last());
        let k = phrase_bytes(ps.take(n)) as int;
        assert(expand(ps).take(k) =~= expand(ps).take(expand(d).len() as int).take(k));
    }
}

/// In an applicable list, each phrase is applicable after the phrases before
/// it.
pub proof fn lemma_phrase_ok_at(ps: Seq<Phrase>, i: int)
    requires
        phrases_ok(ps),
        0 <= i < ps.len(),
    ensures
        phrase_ok(expand(ps.take(i)).len(), ps[i]),
    decreases ps.len(),
{
    if i == ps.len() - 1 {
        assert(ps.take(i) =~= ps.drop_last());
    } else {
        assert(ps.drop_last().take(i) =~= ps.take(i));
        lemma_phrase_ok_at(ps.drop_last(), i);
    }
}

/// With encodable match lengths, every phrase covers at least one byte.
pub proof fn lemma_phrase_bytes_ge(ps: Seq<Phrase>)
    requires
        lengths_encodable(ps),
    ensures
        phrase_bytes(ps) >= ps.len(),
    decreases ps.len(),
{
    if ps.len() > 0 {
        assert(lengths_encodable(ps.drop_last())) by {
            assert forall|i: int| 0 <= i < ps.drop_last().len() implies match #[trigger] ps.drop_last()[i] {
                Phrase::Literal(_) => true,
                Phrase::Match { len, dist } => 3 <= len <= 258,
            } by {
                assert(ps.drop_last()[i] == ps[i]);
            }
        }
        lemma_phrase_bytes_ge(ps.drop_last());
        assert(match ps[ps.len() - 1] {
            Phrase::Literal(_) => true,
            Phrase::Match { len, dist } => 3 <= len <= 258,
        });
    }
}

/// A prefix of an applicable list is applicable.
pub proof fn lemma_phrases_ok_prefix(ps: Seq<Phrase>, n: int)
    requires
        phrases_ok(ps),
        0 <= n <= ps.len(),
    ensures
        phrases_ok(ps.take(n)),
    decreases ps.len() - n,
{
    if n < ps.len() {
        assert(ps.drop_last().take(n) =~= ps.take(n));
        lemma_phrases_ok_prefix(ps.drop_last(), n);
    } else {
        assert(ps.take(n) =~= ps);
    }
}

/// The number of literal / match phrases in a phrase list.
pub fn phrase_stats(phrases: &[Phrase]) -> (r: (usize, usize))
    ensures
        r.0 == count_literals(phrases@),
        r.0 + r.1 == phrases@.len(),
{
    let mut lit: usize = 0;
    let mut mat: usize = 0;
    let mut i: usize = 0;
    proof {
        assert(phrases@.take(0) =~= Seq::<Phrase>::empty());
    }
    while i < phrases.len()
        invariant
            i <= phrases@.len(),
            lit == count_literals(phrases@.take(i as int)),
            lit + mat == i,
        decreases phrases@.len() - i,
    {
        proof {
            assert(phrases@.take(i + 1).drop_last() =~= phrases@.take(i as int));
            lemma_count_literals_bound(phrases@.take(i as int));
        }
        match phrases[i] {
            Phrase::Literal(_) => lit = lit + 1,
            Phrase::Match { .. } => mat = mat + 1,
        }
        i = i + 1;
    }
    proof {
        assert(phrases@.take(i as int) =~= phrases@);
    }
    (lit, mat)
}

proof fn lemma_count_literals_bound(ps: Seq<Phrase>)
    ensures
        count_literals(ps) <= ps.len(),
    decreases ps.len(),
{
    if ps.len() > 0 {
        lemma_count_literals_bound(ps.drop_last());
    }
}

/// Appending a phrase applies it to the bytes produced so far.
pub proof fn lemma_push_phrase(ps: Seq<Phrase>, ph: Phrase)
    ensures
        expand(ps.push(ph)) == apply_phrase(expand(ps), ph),
        phrases_ok(ps.push(ph)) == (phrases_ok(ps) && phrase_ok(expand(ps).len(), ph)),
{
    assert(ps.push(ph).drop_last() =~= ps);
}

/// The 16-bit hash of the three bytes at `i`:
/// `((b0 << 6) + b1 + (b2 << 6)) mod 2^16`.
pub open spec fn lz_hash(s: Seq<u8>, i: int) -> int {
    (s[i] * 64 + s[i + 1] + s[i + 2] * 64) % 65536
}

/// The length of the common run of `s` at `cp` and at `p`, counted from
/// `l` and capped at `max`.
pub open spec fn match_from(s: Seq<u8>, cp: int, p: int, l: nat, max: nat) -> nat
    decreases max - l,
{
    if l >= max || s[cp + l] != s[p + l] {
        l
    } else {
        match_from(s, cp, p, l + 1, max)
    }
}

/// Scan candidate positions in order for the longest match at `p`, keeping
/// the first of equal lengths and stopping at the cap `max`; `(bl, bd)` is
/// the best (length, distance) so far.
pub open spec fn scan_cands(s: Seq<u8>, cands: Seq<int>, p: int, max: nat, bl: nat, bd: nat) -> (
    nat,
    nat,
)
    decreases cands.len(),
{
    if cands.len() == 0 {
        (bl, bd)
    } else {
        let l = match_from(s, cands[0], p, 0, max);
        if l > bl {
            if l == max {
                (l, (p - cands[0]) as nat)
            } else {
                scan_cands(s, cands.drop_first(), p, max, l, (p - cands[0]) as nat)
            }
        } else {
            scan_cands(s, cands.drop_first(), p, max, bl, bd)
        }
    }
}

/// The candidates a search at `p` examines from chain entry `cand`, with
/// chain links `prev`: most recent first, at most `budget` of them,
/// stopping at the end of the chain or at the first one beyond the window.
pub open spec fn lz_chain(prev: Seq<i64>, cand: int, p: int, budget: nat) -> Seq<int>
    decreases budget,
{
    if cand < 0 || budget == 0 || p - cand > WINDOW || cand >= prev.len() {
        seq![]
    } else {
        seq![cand] + lz_chain(prev, prev[cand] as int, p, (budget - 1) as nat)
    }
}

/// What a search at `p` finds over chains `head`/`prev`: `(0, 0)` when
/// fewer than three bytes remain or no examined candidate matches at least
/// three bytes, else the longest match (length capped at 258 and at the
/// input's end) among the candidates of the chain of `p`'s hash, the most
/// recent of equal lengths.
pub open spec fn lz_search(s: Seq<u8>, head: Seq<i64>, prev: Seq<i64>, p: int) -> (u32, u32) {
    let n = s.len() as int;
    if p + 3 > n {
        (0, 0)
    } else {
        let max = if n - p < 258 {
            (n - p) as nat
        } else {
            258nat
        };
        let cands = lz_chain(prev, head[lz_hash(s, p)] as int, p, MAX_CHAIN as nat);
        let (bl, bd) = scan_cands(s, cands, p, max, 0, 0);
        if bl >= 3 {
            (bl as u32, bd as u32)
        } else {
            (0, 0)
        }
    }
}

/// The chains after inserting position `p` at the head of its hash chain.
pub open spec fn lz_insert(s: Seq<u8>, head: Seq<i64>, prev: Seq<i64>, p: int) -> (
    Seq<i64>,
    Seq<i64>,
) {
    let h = lz_hash(s, p);
    (head.update(h, p as i64), prev.update(p, head[h]))
}

/// The chains after inserting positions `a..b` in order (those with three
/// bytes left).
pub open spec fn lz_insert_range(s: Seq<u8>, head: Seq<i64>, prev: Seq<i64>, a: int, b: int) -> (
    Seq<i64>,
    Seq<i64>,
)
    decreases b - a,
{
    if a >= b {
        (head, prev)
    } else if a + 3 <= s.len() {
        let (h2, p2) = lz_insert(s, head, prev, a);
        lz_insert_range(s, h2, p2, a + 1, b)
    } else {
        lz_insert_range(s, head, prev, a + 1, b)
    }
}

/// The phrases the compression pass emits from position `pos` on, with
/// chains `head`/`prev` and a deferred match `pending` (lazy matching): at
/// each position with three bytes left, search, insert the position, and
/// keep the deferred match unless the new one is strictly longer (then the
/// deferred position goes out as a literal); a match found with nothing
/// deferred is deferred; a kept match goes out and the positions it covers
/// are inserted. Near the end a deferred match goes out, else literals.
pub open spec fn lz_run(
    s: Seq<u8>,
    head: Seq<i64>,
    prev: Seq<i64>,
    pos: int,
    pending: Option<(usize, u32, u32)>,
) -> Seq<Phrase>
    decreases s.len() - pos,
{
    let n = s.len() as int;
    if pos < 0 || pos >= n {
        seq![]
    } else if pos + 3 <= n {
        let (len, dist) = lz_search(s, head, prev, pos);
        let (h1, p1) = lz_insert(s, head, prev, pos);
        match pending {
            Some((pp, plen, pdist)) => {
                if len > plen {
                    seq![Phrase::Literal(s[pp as int])] + lz_run(
                        s,
                        h1,
                        p1,
                        pos + 1,
                        if len >= MIN_MATCH {
                            Some((pos as usize, len, dist))
                        } else {
                            None
                        },
                    )
                } else {
                    let end = pp + plen;
                    if end <= pos || end > n {
                        seq![]
                    } else {
                        let (h2, p2) = lz_insert_range(s, h1, p1, pos + 1, end);
                        seq![Phrase::Match { len: plen, dist: pdist }] + lz_run(s, h2, p2, end, None)
                    }
                }
            },
            None => {
                if len >= MIN_MATCH {
                    lz_run(s, h1, p1, pos + 1, Some((pos as usize, len, dist)))
                } else {
                    seq![Phrase::Literal(s[pos])] + lz_run(s, h1, p1, pos + 1, None)
                }
            },
        }
    } else {
        match pending {
            Some((pp, plen, pdist)) => {
                let end = pp + plen;
                if end <= pos || end > n {
                    seq![]
                } else {
                    seq![Phrase::Match { len: plen, dist: pdist }] + lz_run(s, head, prev, end, None)
                }
            },
            None => seq![Phrase::Literal(s[pos])] + lz_run(s, head, prev, pos + 1, None),
        }
    }
}

/// The phrase list of the compression pass over `s`, from empty chains.
pub open spec fn lz_phrases(s: Seq<u8>) -> Seq<Phrase> {
    lz_run(s, Seq::new(HASH_SIZE as nat, |h: int| -1i64), Seq::new(s.len(), |j: int| -1i64), 0, None)
}

/// The LZ77 search state over one input.
pub struct Lz77 {
    head: Vec<i64>,
    prev: Vec<i64>,
    input: Vec<u8>,
}

impl Lz77 {
    /// The input being searched.
    pub closed spec fn input(&self) -> Seq<u8> {
        self.input@
    }

    /// No position has been inserted into the hash chains yet.
    pub closed spec fn fresh(&self) -> bool {
        &&& self.head@.len() == HASH_SIZE
        &&& self.prev@.len() == self.input@.len()
        &&& self.input@.len() < 0x7fff_ffff_ffff_ffff
        &&& self.input@.len() + 3 <= usize::MAX
        &&& forall|h: int| 0 <= h < HASH_SIZE ==> #[trigger] self.head@[h] == -1
        &&& forall|j: int| 0 <= j < self.prev@.len() ==> #[trigger] self.prev@[j] == -1
    }

    /// Every chain entry is a position below `bound`, and every chain link
    /// points strictly backwards.
    closed spec fn chains_below(&self, bound: int) -> bool {
        &&& self.head@.len() == HASH_SIZE
        &&& self.prev@.len() == self.input@.len()
        &&& self.input@.len() < 0x7fff_ffff_ffff_ffff
        &&& self.input@.len() + 3 <= usize::MAX
        &&& forall|h: int| 0 <= h < HASH_SIZE ==> -1 <= #[trigger] self.head@[h] < bound
        &&& forall|j: int| 0 <= j < self.prev@.len() ==> -1 <= #[trigger] self.prev@[j] < j
    }

    /// The candidates a search at `p` examines from chain entry `cand`:
    /// most recent first, at most `budget` of them, stopping at the end of
    /// the chain or at the first one beyond the window.
    closed spec fn chain_from(&self, cand: int, p: int, budget: nat) -> Seq<int> {
        lz_chain(self.prev@, cand, p, budget)
    }

    /// What a search at `p` finds: `(0, 0)` when fewer than three bytes
    /// remain or no examined candidate matches at least three bytes, else
    /// the longest match (length capped at 258 and at the input's end) among
    /// the candidates of the chain of `p`'s hash, the most recent of equal
    /// lengths.
    closed spec fn search_result(&self, p: int) -> (u32, u32) {
        lz_search(self.input@, self.head@, self.prev@, p)
    }

    /// A search state over `input` (the input is copied).
    pub fn new(input: &[u8]) -> (r: Self)
        requires
            input@.len() < 0x7fff_ffff_ffff_ffff,
            input@.len() + 3 <= usize::MAX,
        ensures
            r.fresh(),
            r.input() == input@,
    {
        let mut head: Vec<i64> = Vec::new();
        let mut i: usize = 0;
        while i < HASH_SIZE
            invariant
                i <= HASH_SIZE,
                head@.len() == i,
                forall|h: int| 0 <= h < i ==> #[trigger] head@[h] == -1,
            decreases HASH_SIZE - i,
        {
            head.push(-1);
            i = i + 1;
        }
        let mut prev: Vec<i64> = Vec::new();
        let mut copy: Vec<u8> = Vec::new();
        let mut j: usize = 0;
        while j < input.len()
            invariant
                j <= input@.len(),
                prev@.len() == j,
                copy@ == input@.take(j as int),
                forall|k: int| 0 <= k < j ==> #[trigger] prev@[k] == -1,
            decreases input@.len() - j,
        {
            prev.push(-1);
            copy.push(input[j]);
            j = j + 1;
            proof {
                assert(copy@ =~= input@.take(j as int));
            }
        }
        proof {
            assert(input@.take(j as int) =~= input@);
        }
        Lz77 { head, prev, input: copy }
    }

    /// 16-bit hash of the 3 bytes at `i`:
    /// `((b0 << 6) + b1 + (b2 << 6)) mod 2^16`.
    fn hash_at(&self, i: usize) -> (r: usize)
        requires
            i + 3 <= self.input@.len(),
            self.input@.len() + 3 <= usize::MAX,
        ensures
            r < HASH_SIZE,
            r == lz_hash(self.input@, i as int),
    {
        let b0 = self.input[i] as u32;
        let b1 = self.input[i + 1] as u32;
        let b2 = self.input[i + 2] as u32;
        ((b0 * 64 + b1 + b2 * 64) % 65536) as usize
    }

    /// Insert position `p` at the head of its chain.
    fn insert(&mut self, p: usize)
        requires
            old(self).chains_below(p as int),
            p + 3 <= old(self).input@.len(),
        ensures
            final(self).chains_below(p + 1),
            final(self).input@ == old(self).input@,
            final(self).head@ == old(self).head@.update(
                lz_hash(old(self).input@, p as int),
                p as i64,
            ),
            final(self).prev@ == old(self).prev@.update(
                p as int,
                old(self).head@[lz_hash(old(self).input@, p as int)],
            ),
    {
        let h = self.hash_at(p);
        let old_head = self.head[h];
        self.prev.set(p, old_head);
        self.head.set(h, p as i64);
    }

    /// Longest match at `p` over the current chains (candidates strictly
    /// before `p`); `(0, 0)` if none of length at least 3.
    #[verifier::spinoff_prover]
    fn search(&self, p: usize) -> (r: (u32, u32))
        requires
            self.chains_below(p as int),
            p <= self.input@.len(),
        ensures
            r == self.search_result(p as int),
            r == (0u32, 0u32) || {
                &&& 3 <= r.0 <= 258
                &&& p + r.0 <= self.input@.len()
                &&& 1 <= r.1 <= 32768
                &&& r.1 <= p
                &&& forall|t: int|
                    0 <= t < r.0 ==> self.input@[p - r.1 + t] == #[trigger] self.input@[p + t]
            },
    {
        let n = self.input.len();
        if p + 3 > n {
            return (0, 0);
        }
        let h = self.hash_at(p);
        let max_len: u32 = if n - p < 258 {
            (n - p) as u32
        } else {
            258
        };
        let mut best_len: u32 = 0;
        let mut best_dist: u32 = 0;
        let mut cand: i64 = self.head[h];
        let mut chain: usize = 0;
        let mut done = false;
        let ghost s = self.input@;
        let ghost target = scan_cands(
            s,
            self.chain_from(cand as int, p as int, MAX_CHAIN as nat),
            p as int,
            max_len as nat,
            0,
            0,
        );
        while cand >= 0 && chain < MAX_CHAIN && !done
            invariant
                self.chains_below(p as int),
                n == self.input@.len(),
                s == self.input@,
                p + 3 <= n,
                max_len <= 258,
                max_len >= 3,
                p + max_len <= n,
                -1 <= cand < p,
                chain <= MAX_CHAIN,
                best_len <= max_len,
                !done ==> scan_cands(
                    s,
                    self.chain_from(cand as int, p as int, (MAX_CHAIN - chain) as nat),
                    p as int,
                    max_len as nat,
                    best_len as nat,
                    best_dist as nat,
                ) == target,
                done ==> (best_len as nat, best_dist as nat) == target,
                best_len > 0 ==> {
                    &&& 1 <= best_dist <= 32768
                    &&& best_dist <= p
                    &&& forall|t: int|
                        0 <= t < best_len ==> self.input@[p - best_dist + t]
                            == #[trigger] self.input@[p + t]
                },
            decreases (MAX_CHAIN - chain) * 2 + if done {
                0int
            } else {
                1int
            },
        {
            let cp = cand as usize;
            let ghost budget = (MAX_CHAIN - chain) as nat;
            if p - cp > WINDOW {
                proof {
                    assert(self.chain_from(cand as int, p as int, budget) =~= Seq::<int>::empty());
                }
                done = true;
            } else {
                let ghost cands = self.chain_from(cand as int, p as int, budget);
                proof {
                    assert(cands[0] == cp as int);
                    assert(cands.drop_first() =~= self.chain_from(
                        self.prev@[cp as int] as int,
                        p as int,
                        (budget - 1) as nat,
                    ));
                }
                let mut l: u32 = 0;
                while l < max_len && self.input[cp + l as usize] == self.input[p + l as usize]
                    invariant
                        l <= max_len,
                        cp < p,
                        p + max_len <= n,
                        n == self.input@.len(),
                        s == self.input@,
                        forall|t: int| 0 <= t < l ==> self.input@[cp + t] == #[trigger] self.input@[p + t],
                        match_from(s, cp as int, p as int, l as nat, max_len as nat) == match_from(
                            s,
                            cp as int,
                            p as int,
                            0,
                            max_len as nat,
                        ),
                    decreases max_len - l,
                {
                    l = l + 1;
                }
                proof {
                    assert(match_from(s, cp as int, p as int, l as nat, max_len as nat) == l);
                }
                if l > best_len {
                    best_len = l;
                    best_dist = (p - cp) as u32;
                    if l == max_len {
                        done = true;
                    }
                }
                cand = self.prev[cp];
                chain = chain + 1;
            }
        }
        proof {
            if !done {
                assert(self.chain_from(cand as int, p as int, (MAX_CHAIN - chain) as nat)
                    =~= Seq::<int>::empty());
            }
        }
        if best_len >= MIN_MATCH {
            (best_len, best_dist)
        } else {
            (0, 0)
        }
    }

    /// Run the full compression pass: the phrase list of the chained-hash
    /// search with lazy matching (`lz_phrases`), which reproduces the input
    /// exactly.
    #[verifier::spinoff_prover]
    pub fn phrases(&mut self) -> (r: Vec<Phrase>)
        requires
            old(self).fresh(),
        ensures
            final(self).input() == old(self).input(),
            phrases_ok(r@),
            lengths_encodable(r@),
            expand(r@) == old(self).input(),
            r@ == lz_phrases(old(self).input()),
    {
        let n = self.input.len();
        let ghost data = self.input@;
        let mut out: Vec<Phrase> = Vec::new();
        let mut pos: usize = 0;
        let mut pending: Option<(usize, u32, u32)> = None;
        let ghost target = lz_phrases(data);
        proof {
            assert(data.take(0) =~= Seq::<u8>::empty());
            assert(expand(out@) =~= Seq::<u8>::empty());
            assert(self.head@ =~= Seq::new(HASH_SIZE as nat, |h: int| -1i64));
            assert(self.prev@ =~= Seq::new(data.len(), |j: int| -1i64));
            assert(out@ + lz_run(data, self.head@, self.prev@, 0, None) =~= target);
        }
        while pos < n
            invariant
                n == data.len(),
                self.input@ == data,
                pos <= n,
                self.chains_below(pos as int),
                phrases_ok(out@),
                lengths_encodable(out@),
                match pending {
                    None => expand(out@) == data.take(pos as int),
                    Some((pp, pl, pd)) => {
                        &&& pos == pp + 1
                        &&& pp + 3 <= n
                        &&& expand(out@) == data.take(pp as int)
                        &&& 3 <= pl <= 258
                        &&& pp + pl <= n
                        &&& 1 <= pd <= 32768
                        &&& pd <= pp
                        &&& forall|t: int| 0 <= t < pl ==> data[pp - pd + t] == #[trigger] data[pp + t]
                    },
                },
                out@ + lz_run(data, self.head@, self.prev@, pos as int, pending) == target,
            decreases n - pos,
        {
            let ghost hs = self.head@;
            let ghost pvs = self.prev@;
            let ghost out0 = out@;
            let ghost run0 = lz_run(data, hs, pvs, pos as int, pending);
            let ghost pos0 = pos as int;
            if pos + 3 <= n {
                let (len, dist) = self.search(pos);
                self.insert(pos);
                let ghost h1 = self.head@;
                let ghost p1 = self.prev@;
                proof {
                    assert((len, dist) == lz_search(data, hs, pvs, pos as int));
                    assert((h1, p1) == lz_insert(data, hs, pvs, pos as int));
                }
                match pending {
                    Some((pp, plen, pdist)) => {
                        if len > plen {
                            proof {
                                lemma_push_phrase(out@, Phrase::Literal(data[pp as int]));
                                assert(data.take(pp as int).push(data[pp as int]) =~= data.take(
                                    pos as int,
                                ));
                            }
                            out.push(Phrase::Literal(self.input[pp]));
                            pending = if len >= MIN_MATCH {
                                Some((pos, len, dist))
                            } else {
                                None
                            };
                            pos = pos + 1;
                            proof {
                                assert(run0 == seq![Phrase::Literal(data[pp as int])] + lz_run(
                                    data,
                                    h1,
                                    p1,
                                    pos as int,
                                    pending,
                                ));
                                assert(out@ + lz_run(data, h1, p1, pos as int, pending) =~= out0
                                    + run0);
                            }
                        } else {
                            proof {
                                lemma_push_phrase(out@, Phrase::Match { len: plen, dist: pdist });
                                lemma_copy_back_matches(data, pp as nat, pdist as nat, plen as nat);
                            }
                            out.push(Phrase::Match { len: plen, dist: pdist });
                            let end = pp + plen as usize;
                            let mut q = pos + 1;
                            while q < end
                                invariant
                                    n == data.len(),
                                    self.input@ == data,
                                    pos + 1 <= q <= end,
                                    end <= n,
                                    self.chains_below(q as int),
                                    lz_insert_range(data, self.head@, self.prev@, q as int, end as int)
                                        == lz_insert_range(data, h1, p1, pos + 1, end as int),
                                decreases end - q,
                            {
                                let ghost hq = self.head@;
                                let ghost pq = self.prev@;
                                if q + 3 <= n {
                                    self.insert(q);
                                    proof {
                                        assert((self.head@, self.prev@) == lz_insert(data, hq, pq, q as int));
                                    }
                                }
                                q = q + 1;
                            }
                            proof {
                                assert(run0 == seq![Phrase::Match { len: plen, dist: pdist }] + lz_run(
                                    data,
                                    self.head@,
                                    self.prev@,
                                    end as int,
                                    None,
                                ));
                                assert(out@ + lz_run(data, self.head@, self.prev@, end as int, None)
                                    =~= out0 + run0);
                            }
                            pos = end;
                            pending = None;
                        }
                    },
                    None => {
                        if len >= MIN_MATCH {
                            pending = Some((pos, len, dist));
                            pos = pos + 1;
                            proof {
                                assert(run0 == lz_run(data, h1, p1, pos as int, pending));
                            }
                        } else {
                            proof {
                                lemma_push_phrase(out@, Phrase::Literal(data[pos as int]));
                                assert(data.take(pos as int).push(data[pos as int]) =~= data.take(
                                    pos + 1,
                                ));
                            }
                            out.push(Phrase::Literal(self.input[pos]));
                            pos = pos + 1;
                            proof {
                                assert(run0 == seq![Phrase::Literal(data[pos0])] + lz_run(
                                    data,
                                    h1,
                                    p1,
                                    pos as int,
                                    None,
                                ));
                                assert(out@ + lz_run(data, h1, p1, pos as int, None) =~= out0
                                    + run0);
                            }
                        }
                    },
                }
            } else {
                match pending {
                    Some((pp, plen, pdist)) => {
                        proof {
                            lemma_push_phrase(out@, Phrase::Match { len: plen, dist: pdist });
                            lemma_copy_back_matches(data, pp as nat, pdist as nat, plen as nat);
                        }
                        out.push(Phrase::Match { len: plen, dist: pdist });
                        pos = pp + plen as usize;
                        pending = None;
                        proof {
                            assert(run0 == seq![Phrase::Match { len: plen, dist: pdist }] + lz_run(
                                data,
                                hs,
                                pvs,
                                pos as int,
                                None,
                            ));
                            assert(out@ + lz_run(data, hs, pvs, pos as int, None) =~= out0 + run0);
                        }
                    },
                    None => {
                        proof {
                            lemma_push_phrase(out@, Phrase::Literal(data[pos as int]));
                            assert(data.take(pos as int).push(data[pos as int]) =~= data.take(
                                pos + 1,
                            ));
                        }
                        out.push(Phrase::Literal(self.input[pos]));
                        pos = pos + 1;
                        proof {
                            assert(run0 == seq![Phrase::Literal(data[pos0])] + lz_run(
                                data,
                                hs,
                                pvs,
                                pos as int,
                                None,
                            ));
                            assert(out@ + lz_run(data, hs, pvs, pos as int, None) =~= out0 + run0);
                        }
                    },
                }
            }
        }
        proof {
            assert(pending is None);
            assert(data.take(pos as int) =~= data);
            assert(lz_run(data, self.head@, self.prev@, pos as int, pending) =~= Seq::<Phrase>::empty());
            assert(out@ =~= target);
        }
        out
    }
}

/// Phrase-search `input` in one call.
pub fn compress(input: &[u8]) -> (r: Vec<Phrase>)
    requires
        input@.len() < 0x7fff_ffff_ffff_ffff,
        input@.len() + 3 <= usize::MAX,
    ensures
        phrases_ok(r@),
        lengths_encodable(r@),
        expand(r@) == input@,
        r@ == lz_phrases(input@),
{
    let mut lz = Lz77::new(input);
    lz.phrases()
}

} // verus!
