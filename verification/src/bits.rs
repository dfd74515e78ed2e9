//! LSB-first bit packing (RFC 1951 §3.1.1).
//!
//! * Data elements are packed into bytes in order of increasing bit number
//!   within the byte, starting with the least-significant bit.
//! * Data elements other than Huffman codes are packed starting with the
//!   least-significant bit of the element.
//! * Huffman codes are packed starting with the most-significant bit of the
//!   code (the first code bit lands in the lowest unused stream position).
//!
//! The model of a stream is a `Seq<bool>`: bit `8 * j + t` of a byte string
//! is bit `t` of byte `j`.
use vstd::prelude::*;

verus! {

/// Bit `i` of `v` (bit 0 is the least significant).
pub open spec fn bit_of(v: u64, i: nat) -> bool {
    i < 64 && (v >> (i as u64)) & 1 == 1
}

/// The low `n` bits of `v`, least significant first.
pub open spec fn lsb_bits(v: u64, n: nat) -> Seq<bool> {
    Seq::new(n, |i: int| bit_of(v, i as nat))
}

/// The low `n` bits of `c`, most significant first.
pub open spec fn msb_bits(c: u32, n: nat) -> Seq<bool> {
    Seq::new(n, |i: int| bit_of(c as u64, (n - 1 - i) as nat))
}

/// The eight bits of one byte, least significant first.
pub open spec fn byte_bits(b: u8) -> Seq<bool> {
    lsb_bits(b as u64, 8)
}

/// For 16-bit values, the complement `x ^ 0xFFFF` is `0xFFFF - x`, and
/// `x ^ y == 0xFFFF` exactly when `x + y == 0xFFFF`.
pub proof fn lemma_complement16(x: u64, y: u64)
    requires
        x < 65536,
        y < 65536,
    ensures
        x ^ 0xFFFF == 0xFFFF - x,
        (x ^ y == 0xFFFF) == (x + y == 0xFFFF),
{
    assert(x ^ 0xFFFF == 0xFFFF - x && ((x ^ y == 0xFFFF) == (x + y == 0xFFFF))) by (bit_vector)
        requires
            x < 65536,
            y < 65536,
    ;
}

/// Bit `i` of `v` is the parity of `v / 2^i`.
pub proof fn lemma_bit_of_value(v: u64, i: nat)
    requires
        i < 64,
    ensures
        bit_of(v, i) == ((v as nat / vstd::arithmetic::power2::pow2(i)) % 2 == 1),
{
    vstd::bits::lemma_u64_shr_is_div(v, i as u64);
    let y = v >> (i as u64);
    vstd::bits::lemma_u64_low_bits_mask_is_mod(y, 1);
    vstd::arithmetic::power2::lemma2_to64();
    assert(vstd::bits::low_bits_mask(1) == 1);
}

/// The bit stream of a byte string.
pub open spec fn bytes_bits(s: Seq<u8>) -> Seq<bool>
    decreases s.len(),
{
    if s.len() == 0 {
        Seq::empty()
    } else {
        bytes_bits(s.drop_last()) + byte_bits(s.last())
    }
}

/// `n` zero bits.
pub open spec fn zero_bits(n: nat) -> Seq<bool> {
    Seq::new(n, |i: int| false)
}

/// The number of zero bits that pad a stream of `len` bits to a byte boundary.
pub open spec fn pad_len(len: nat) -> nat {
    if len % 8 == 0 {
        0
    } else {
        (8 - len % 8) as nat
    }
}

/// The value of a bit string read least-significant bit first.
pub open spec fn lsb_value(s: Seq<bool>) -> u64
    decreases s.len(),
{
    if s.len() == 0 {
        0
    } else {
        lsb_value(s.drop_last()) | (if s.last() {
            1u64 << ((s.len() - 1) as u64)
        } else {
            0
        })
    }
}

/// The value of a bit string read most-significant bit first (kept to 32 bits).
pub open spec fn msb_value(s: Seq<bool>) -> u32
    decreases s.len(),
{
    if s.len() == 0 {
        0
    } else {
        (msb_value(s.drop_last()) << 1u32) | (if s.last() {
            1u32
        } else {
            0u32
        })
    }
}

/// The mask of the low `n` bits.
pub open spec fn low_mask(n: u64) -> u64 {
    if n >= 64 {
        0xffff_ffff_ffff_ffffu64
    } else {
        ((1u64 << n) - 1) as u64
    }
}

proof fn bv_shr(x: u64, k: u64, i: u64)
    by (bit_vector)
    requires
        i + k < 64,
    ensures
        ((x >> k) >> i) & 1 == (x >> ((i + k) as u64)) & 1,
{
}

proof fn bv_or(a: u64, b: u64, i: u64)
    by (bit_vector)
    requires
        i < 64,
    ensures
        (((a | b) >> i) & 1 == 1) == (((a >> i) & 1 == 1) || ((b >> i) & 1 == 1)),
{
}

proof fn bv_shl(x: u64, k: u64, i: u64)
    by (bit_vector)
    requires
        i < 64,
        k < 64,
    ensures
        i < k ==> ((x << k) >> i) & 1 == 0,
        i >= k ==> ((x << k) >> i) & 1 == (x >> ((i - k) as u64)) & 1,
{
}

proof fn bv_mask(x: u64, n: u64, i: u64)
    by (bit_vector)
    requires
        i < 64,
        n <= 64,
    ensures
        ((x & low_mask(n)) >> i) & 1 == (if i < n {
            (x >> i) & 1
        } else {
            0
        }),
{
}

proof fn bv_small(x: u64, n: u64, i: u64)
    by (bit_vector)
    requires
        x >> n == 0,
        n <= i,
        i < 64,
    ensures
        (x >> i) & 1 == 0,
{
}

proof fn bv_byte(x: u64)
    by (bit_vector)
    ensures
        (((x & 0xff) as u8) as u64) == x & 0xff,
        x & 0xff == x & low_mask(8),
{
}

proof fn bv_fits(acc: u64, v: u64, k: u64, n: u64)
    by (bit_vector)
    requires
        acc >> k == 0,
        k + n < 64,
        n < 64,
    ensures
        (acc | ((v & low_mask(n)) << k)) >> ((k + n) as u64) == 0,
{
}

proof fn bv_bit_fits(acc: u64, b: u64, k: u64)
    by (bit_vector)
    requires
        acc >> k == 0,
        k < 63,
        b <= 1,
    ensures
        (acc | (b << k)) >> ((k + 1) as u64) == 0,
        (b << k) >> k == b,
{
}

proof fn bv_shift8(acc: u64, n: u64)
    by (bit_vector)
    requires
        acc >> n == 0,
        8 <= n,
        n < 64,
    ensures
        (acc >> 8) >> ((n - 8) as u64) == 0,
{
}

proof fn bv_split32(v: u64)
    by (bit_vector)
    ensures
        (v & 0xffff_ffff) == v & low_mask(32),
{
}

/// The stream of a byte string has eight bits per byte.
pub proof fn lemma_bytes_bits_len(s: Seq<u8>)
    ensures
        bytes_bits(s).len() == 8 * s.len(),
    decreases s.len(),
{
    if s.len() > 0 {
        lemma_bytes_bits_len(s.drop_last());
    }
}

/// Bit `8 * j + t` of a byte string is bit `t` of byte `j`.
pub proof fn lemma_bytes_bits_index(s: Seq<u8>, j: int, t: int)
    requires
        0 <= j < s.len(),
        0 <= t < 8,
    ensures
        bytes_bits(s).len() == 8 * s.len(),
        bytes_bits(s)[8 * j + t] == bit_of(s[j] as u64, t as nat),
    decreases s.len(),
{
    lemma_bytes_bits_len(s);
    lemma_bytes_bits_len(s.drop_last());
    if j < s.len() - 1 {
        lemma_bytes_bits_index(s.drop_last(), j, t);
    }
}

/// Appending a byte appends its eight bits.
pub proof fn lemma_bytes_bits_push(s: Seq<u8>, b: u8)
    ensures
        bytes_bits(s.push(b)) == bytes_bits(s) + byte_bits(b),
{
    assert(s.push(b).drop_last() =~= s);
}

/// The stream of a concatenation is the concatenation of the streams.
pub proof fn lemma_bytes_bits_concat(s: Seq<u8>, t: Seq<u8>)
    ensures
        bytes_bits(s + t) == bytes_bits(s) + bytes_bits(t),
    decreases t.len(),
{
    if t.len() == 0 {
        assert(s + t =~= s);
        assert(bytes_bits(s) + bytes_bits(t) =~= bytes_bits(s));
    } else {
        lemma_bytes_bits_concat(s, t.drop_last());
        assert((s + t).drop_last() =~= s + t.drop_last());
        assert(bytes_bits(s + t) =~= bytes_bits(s) + bytes_bits(t));
    }
}

/// `acc | ((v & mask(n)) << k)` holds the low `k` bits of `acc` followed by the
/// low `n` bits of `v`.
proof fn lemma_lsb_bits_or(acc: u64, v: u64, k: u64, n: u64)
    requires
        acc >> k == 0,
        k + n < 64,
        n < 64,
    ensures
        lsb_bits(acc | ((v & low_mask(n)) << k), (k + n) as nat) =~= lsb_bits(acc, k as nat)
            + lsb_bits(v, n as nat),
        (acc | ((v & low_mask(n)) << k)) >> ((k + n) as u64) == 0,
{
    let r = acc | ((v & low_mask(n)) << k);
    bv_fits(acc, v, k, n);
    assert forall|i: int| 0 <= i < k + n implies #[trigger] lsb_bits(r, (k + n) as nat)[i] == (
    lsb_bits(acc, k as nat) + lsb_bits(v, n as nat))[i] by {
        let iu = i as u64;
        bv_or(acc, (v & low_mask(n)) << k, iu);
        bv_shl(v & low_mask(n), k, iu);
        if i < k {
        } else {
            bv_small(acc, k, iu);
            bv_mask(v, n, (iu - k) as u64);
        }
    }
}

/// Splitting the low bits of `acc` at a byte boundary.
proof fn lemma_lsb_bits_byte(acc: u64, n: u64)
    requires
        8 <= n < 64,
        acc >> n == 0,
    ensures
        lsb_bits(acc, n as nat) =~= byte_bits(((acc & 0xff) as u8)) + lsb_bits(acc >> 8, (n - 8) as nat),
        (acc >> 8) >> ((n - 8) as u64) == 0,
{
    bv_shift8(acc, n);
    bv_byte(acc);
    assert forall|i: int| 0 <= i < n implies #[trigger] lsb_bits(acc, n as nat)[i] == (byte_bits(
        ((acc & 0xff) as u8),
    ) + lsb_bits(acc >> 8, (n - 8) as nat))[i] by {
        let iu = i as u64;
        if i < 8 {
            bv_mask(acc, 8, iu);
        } else {
            bv_shr(acc, 8, (iu - 8) as u64);
        }
    }
}

/// Reading back the bits that `lsb_bits` wrote gives the masked value.
pub proof fn lemma_lsb_value_bits(v: u64, n: nat)
    requires
        n <= 64,
    ensures
        lsb_value(lsb_bits(v, n)) == v & low_mask(n as u64),
    decreases n,
{
    if n == 0 {
        assert(v & low_mask(0) == 0) by (bit_vector);
    } else {
        let m = (n - 1) as nat;
        assert(lsb_bits(v, n).drop_last() =~= lsb_bits(v, m));
        lemma_lsb_value_bits(v, m);
        let mu = m as u64;
        assert(((v & low_mask(mu)) | (if (v >> mu) & 1 == 1 {
            1u64 << mu
        } else {
            0
        })) == v & low_mask((mu + 1) as u64)) by (bit_vector)
            requires
                mu < 64,
        ;
    }
}

/// Reading back the bits that `msb_bits` wrote gives the masked code.
pub proof fn lemma_msb_value_bits(c: u32, n: nat)
    requires
        n <= 32,
    ensures
        msb_value(msb_bits(c, n)) == c & (low_mask(n as u64) as u32),
    decreases n,
{
    if n == 0 {
        assert(c & (low_mask(0) as u32) == 0) by (bit_vector);
    } else {
        let m = (n - 1) as nat;
        let c1 = c >> 1u32;
        assert forall|i: int| 0 <= i < m implies #[trigger] msb_bits(c, n).drop_last()[i] == msb_bits(
            c1,
            m,
        )[i] by {
            let j = (m - 1 - i) as u64;
            assert(((c as u64) >> ((j + 1) as u64)) & 1 == (((c >> 1u32) as u64) >> j) & 1) by (bit_vector)
                requires
                    j < 32,
            ;
        }
        assert(msb_bits(c, n).drop_last() =~= msb_bits(c1, m));
        lemma_msb_value_bits(c1, m);
        let mu = m as u64;
        assert((((c >> 1u32) & (low_mask(mu) as u32)) << 1u32) | (if (c as u64) & 1 == 1 {
            1u32
        } else {
            0u32
        }) == c & (low_mask((mu + 1) as u64) as u32)) by (bit_vector)
            requires
                mu < 32,
        ;
        assert(msb_bits(c, n).last() == bit_of(c as u64, 0));
        assert(((c as u64) >> 0u64) & 1 == (c as u64) & 1) by (bit_vector);
    }
}

/// What a write puts in the stream a read gives back: when a stream holds
/// the `n` bits that `push_lsb(v, n)` appends after `prefix`, reading `n`
/// bits LSB first at `prefix.len()` (as `next_lsb` does) gives `v` masked to
/// `n` bits.
pub proof fn law_lsb_write_read(prefix: Seq<bool>, v: u64, n: nat, rest: Seq<bool>)
    requires
        n <= 64,
    ensures
        lsb_value((prefix + lsb_bits(v, n) + rest).subrange(
            prefix.len() as int,
            (prefix.len() + n) as int,
        )) == v & low_mask(n as u64),
{
    assert((prefix + lsb_bits(v, n) + rest).subrange(prefix.len() as int, (prefix.len() + n) as int)
        =~= lsb_bits(v, n));
    lemma_lsb_value_bits(v, n);
}

/// The same for codes: when a stream holds the `n` bits that
/// `push_huff(c, n)` appends after `prefix`, reading an `n`-bit code MSB
/// first at `prefix.len()` (as `next_huff` does) gives `c` masked to `n` bits.
pub proof fn law_huff_write_read(prefix: Seq<bool>, c: u32, n: nat, rest: Seq<bool>)
    requires
        n <= 32,
    ensures
        msb_value((prefix + msb_bits(c, n) + rest).subrange(
            prefix.len() as int,
            (prefix.len() + n) as int,
        )) == c & (low_mask(n as u64) as u32),
{
    assert((prefix + msb_bits(c, n) + rest).subrange(prefix.len() as int, (prefix.len() + n) as int)
        =~= msb_bits(c, n));
    lemma_msb_value_bits(c, n);
}

/// An element of `n` bits read LSB first is below `2^n`.
pub proof fn lemma_lsb_value_bound(s: Seq<bool>)
    requires
        s.len() <= 64,
    ensures
        (lsb_value(s) as nat) < vstd::arithmetic::power2::pow2(s.len()),
    decreases s.len(),
{
    vstd::arithmetic::power2::lemma2_to64();
    if s.len() > 0 {
        let k = (s.len() - 1) as u64;
        let x = lsb_value(s.drop_last());
        lemma_lsb_value_bound(s.drop_last());
        vstd::arithmetic::power2::lemma_pow2_unfold(s.len());
        vstd::bits::lemma_u64_pow2_no_overflow(k as nat);
        vstd::bits::lemma_u64_shl_is_mul(1, k);
        assert((x < (1u64 << k) ==> (x | (1u64 << k)) == x + (1u64 << k)) && (x | 0u64) == x)
            by (bit_vector)
            requires
                k < 64,
        ;
        assert((1u64 << k) as nat == vstd::arithmetic::power2::pow2(k as nat));
        assert(lsb_value(s) == x | (if s.last() {
            1u64 << k
        } else {
            0
        }));
    }
}

/// An error raised when the bit stream runs out of bits.
#[derive(Debug, Clone, Copy, PartialEq, Eq, Structural)]
pub enum BitError {
    /// The stream ended in the middle of a requested element.
    Exhausted,
}

/// Writes bits into a growing byte vector, LSB-first within each byte.
///
/// `push_lsb` is for fixed-width elements (block headers, LEN/NLEN, extra
/// bits, repeat counts): the element's LSB goes into the lowest unused stream
/// position. `push_huff` is for Huffman codes: the code's MSB (its first bit)
/// goes into the lowest unused position.
#[derive(Debug, Clone)]
pub struct BitWriter {
    acc: u64,
    nbits: usize,
    out: Vec<u8>,
    logical: u64,
}

impl BitWriter {
    /// The writer's internal consistency.
    pub closed spec fn wf(&self) -> bool {
        &&& self.nbits <= 56
        &&& self.acc >> (self.nbits as u64) == 0
    }

    /// Every bit written so far (alignment padding included).
    pub closed spec fn bits(&self) -> Seq<bool> {
        bytes_bits(self.out@) + lsb_bits(self.acc, self.nbits as nat)
    }

    /// The number of payload bits pushed (alignment padding excluded).
    pub closed spec fn logical(&self) -> nat {
        self.logical as nat
    }

    /// The number of whole bytes already moved to the output buffer.
    pub closed spec fn flushed(&self) -> nat {
        self.out@.len()
    }

    /// An empty writer.
    pub fn new() -> (w: Self)
        ensures
            w.wf(),
            w.bits() == Seq::<bool>::empty(),
            w.logical() == 0,
            w.flushed() == 0,
    {
        let w = BitWriter { acc: 0, nbits: 0, out: Vec::new(), logical: 0 };
        assert(0u64 >> 0u64 == 0) by (bit_vector);
        assert(w.bits() =~= Seq::<bool>::empty());
        w
    }

    /// Move every whole byte of the accumulator to the output buffer.
    fn flush_full_bytes(&mut self)
        requires
            old(self).wf(),
        ensures
            final(self).wf(),
            final(self).nbits < 8,
            final(self).bits() == old(self).bits(),
            final(self).logical == old(self).logical,
    {
        while self.nbits >= 8
            invariant
                self.wf(),
                self.bits() == old(self).bits(),
                self.logical == old(self).logical,
            decreases self.nbits,
        {
            let ghost prev = self.bits();
            proof {
                lemma_lsb_bits_byte(self.acc, self.nbits as u64);
                lemma_bytes_bits_push(self.out@, (self.acc & 0xff) as u8);
            }
            self.out.push((self.acc & 0xff) as u8);
            self.acc = self.acc >> 8;
            self.nbits = self.nbits - 8;
            assert(self.bits() =~= prev);
        }
    }

    /// Push up to 32 bits of `value`, LSB first.
    fn push_low(&mut self, value: u64, nbits: u32)
        requires
            old(self).wf(),
            nbits <= 32,
            old(self).logical + nbits <= u64::MAX,
        ensures
            final(self).wf(),
            final(self).bits() == old(self).bits() + lsb_bits(value, nbits as nat),
            final(self).logical() == old(self).logical() + nbits,
    {
        if self.nbits + nbits as usize > 56 {
            self.flush_full_bytes();
        }
        let ghost mid = self.bits();
        let mask: u64 = if nbits == 0 {
            0
        } else {
            u64::MAX >> (64 - nbits)
        };
        assert(mask == low_mask(nbits as u64)) by (bit_vector)
            requires
                nbits <= 32,
                mask == (if nbits == 0 {
                    0
                } else {
                    0xffff_ffff_ffff_ffffu64 >> ((64 - nbits) as u64)
                }),
        ;
        proof {
            lemma_lsb_bits_or(self.acc, value, self.nbits as u64, nbits as u64);
        }
        self.acc = self.acc | ((value & mask) << (self.nbits as u64));
        self.nbits = self.nbits + nbits as usize;
        self.logical = self.logical + nbits as u64;
        assert(self.bits() =~= mid + lsb_bits(value, nbits as nat));
    }

    /// Push `nbits` bits of `value`, LSB of `value` first.
    pub fn push_lsb(&mut self, value: u64, nbits: u32)
        requires
            old(self).wf(),
            nbits <= 64,
            old(self).logical() + nbits <= u64::MAX,
        ensures
            final(self).wf(),
            final(self).bits() == old(self).bits() + lsb_bits(value, nbits as nat),
            final(self).logical() == old(self).logical() + nbits,
    {
        if nbits > 32 {
            let lo = value & 0xffff_ffff;
            let hi = value >> 32;
            self.push_low(lo, 32);
            self.push_low(hi, nbits - 32);
            proof {
                bv_split32(value);
                assert forall|i: int| 0 <= i < nbits implies #[trigger] lsb_bits(value, nbits as nat)[i]
                    == (lsb_bits(lo, 32) + lsb_bits(hi, (nbits - 32) as nat))[i] by {
                    let iu = i as u64;
                    if i < 32 {
                        bv_mask(value, 32, iu);
                    } else {
                        bv_shr(value, 32, (iu - 32) as u64);
                    }
                }
                assert(lsb_bits(value, nbits as nat) =~= lsb_bits(lo, 32) + lsb_bits(
                    hi,
                    (nbits - 32) as nat,
                ));
                assert(self.bits() =~= old(self).bits() + lsb_bits(value, nbits as nat));
            }
        } else {
            self.push_low(value, nbits);
        }
    }

    /// Push a Huffman `code` of `nbits` bits, MSB of the code first (the
    /// first code bit takes the lowest unused stream position).
    pub fn push_huff(&mut self, code: u32, nbits: u32)
        requires
            old(self).wf(),
            nbits <= 32,
            old(self).logical() + nbits <= u64::MAX,
        ensures
            final(self).wf(),
            final(self).bits() == old(self).bits() + msb_bits(code, nbits as nat),
            final(self).logical() == old(self).logical() + nbits,
    {
        if self.nbits + nbits as usize > 56 {
            self.flush_full_bytes();
        }
        let ghost start = self.bits();
        let ghost n0 = self.nbits;
        let mut k: u32 = 0;
        while k < nbits
            invariant
                self.wf(),
                k <= nbits <= 32,
                self.nbits == n0 + k,
                n0 + nbits <= 56,
                self.bits() == start + msb_bits(code, nbits as nat).take(k as int),
                self.logical == old(self).logical + k,
                old(self).logical + nbits <= u64::MAX,
            decreases nbits - k,
        {
            let sh: u32 = nbits - 1 - k;
            let bit = (code >> sh) & 1;
            let b64 = bit as u64;
            let ghost prev = self.bits();
            proof {
                let ku = self.nbits as u64;
                assert(b64 <= 1 && ((b64 == 1) == (((code as u64) >> (sh as u64)) & 1 == 1)))
                    by (bit_vector)
                    requires
                        b64 == ((code >> sh) & 1) as u64,
                        sh < 32,
                ;
                bv_bit_fits(self.acc, b64, ku);
                assert forall|i: int| 0 <= i < ku + 1 implies #[trigger] lsb_bits(
                    self.acc | (b64 << ku),
                    (ku + 1) as nat,
                )[i] == lsb_bits(self.acc, ku as nat).push(b64 == 1)[i] by {
                    let iu = i as u64;
                    bv_or(self.acc, b64 << ku, iu);
                    bv_shl(b64, ku, iu);
                    if i == ku {
                        bv_small(self.acc, ku, iu);
                        assert((b64 >> 0u64) & 1 == b64) by (bit_vector)
                            requires
                                b64 <= 1,
                        ;
                    }
                }
                assert(lsb_bits(self.acc | (b64 << ku), (ku + 1) as nat) =~= lsb_bits(self.acc, ku as nat).push(b64 == 1));
                assert(bit_of(code as u64, sh as nat) == (b64 == 1));
            }
            self.acc = self.acc | (b64 << (self.nbits as u64));
            self.nbits = self.nbits + 1;
            self.logical = self.logical + 1;
            k = k + 1;
            proof {
                assert(msb_bits(code, nbits as nat).take(k as int) =~= msb_bits(
                    code,
                    nbits as nat,
                ).take((k - 1) as int).push(b64 == 1));
                assert(self.bits() =~= prev.push(b64 == 1));
                assert(self.bits() =~= start + msb_bits(code, nbits as nat).take(k as int));
            }
        }
        assert(msb_bits(code, nbits as nat).take(nbits as int) =~= msb_bits(code, nbits as nat));
    }

    /// Pad the stream with zero bits up to the next byte boundary and flush.
    /// The payload count is unchanged.
    #[verifier::spinoff_prover]
    pub fn align_to_byte(&mut self)
        requires
            old(self).wf(),
        ensures
            final(self).wf(),
            final(self).bits() == old(self).bits() + zero_bits(pad_len(old(self).bits().len())),
            final(self).logical() == old(self).logical(),
            8 * final(self).flushed() == final(self).bits().len(),
    {
        proof {
            lemma_bytes_bits_len(self.out@);
        }
        if self.nbits % 8 != 0 {
            let ghost prev = self.bits();
            let add = 8 - self.nbits % 8;
            proof {
                assert forall|i: int| 0 <= i < self.nbits + add implies #[trigger] lsb_bits(
                    self.acc,
                    (self.nbits + add) as nat,
                )[i] == (lsb_bits(self.acc, self.nbits as nat) + zero_bits(add as nat))[i] by {
                    if i >= self.nbits {
                        bv_small(self.acc, self.nbits as u64, i as u64);
                    }
                }
                let a = self.acc;
                let nb = self.nbits as u64;
                let ad = add as u64;
                assert(a >> ((nb + ad) as u64) == 0) by (bit_vector)
                    requires
                        a >> nb == 0,
                        nb + ad < 64,
                ;
            }
            proof {
                lemma_bytes_bits_len(self.out@);
                vstd::arithmetic::div_mod::lemma_mod_multiples_vanish(
                    self.out@.len() as int,
                    self.nbits as int,
                    8,
                );
                assert(prev.len() == 8 * self.out@.len() + self.nbits);
                assert(pad_len(prev.len()) == add);
            }
            self.nbits = self.nbits + add;
            assert(self.bits() =~= prev + zero_bits(add as nat));
        } else {
            assert(old(self).bits() + zero_bits(0) =~= old(self).bits());
        }
        self.flush_full_bytes();
        proof {
            lemma_bytes_bits_len(self.out@);
        }
    }

    /// Bytes already flushed (the partial tail byte is not included).
    pub fn len(&self) -> (r: usize)
        ensures
            r == self.flushed(),
    {
        self.out.len()
    }

    /// The padding bits a byte alignment would add after `k` more bits.
    pub fn pad_after(&self, k: u32) -> (r: u32)
        requires
            self.wf(),
            k <= 8,
        ensures
            r == pad_len((self.bits().len() + k) as nat),
    {
        proof {
            lemma_bytes_bits_len(self.out@);
            vstd::arithmetic::div_mod::lemma_mod_multiples_vanish(
                self.out@.len() as int,
                (self.nbits + k) as int,
                8,
            );
        }
        let m = (self.nbits + k as usize) % 8;
        if m == 0 {
            0
        } else {
            (8 - m) as u32
        }
    }

    /// The number of payload bits pushed (alignment padding excluded).
    pub fn logical_bits(&self) -> (r: u64)
        ensures
            r == self.logical(),
    {
        self.logical
    }

    /// Pad to a byte boundary, flush, and return the finished byte stream.
    pub fn finish(self) -> (r: Vec<u8>)
        requires
            self.wf(),
        ensures
            bytes_bits(r@) == self.bits() + zero_bits(pad_len(self.bits().len())),
            8 * r@.len() == self.bits().len() + pad_len(self.bits().len()),
    {
        let mut w = self;
        w.align_to_byte();
        proof {
            lemma_bytes_bits_len(w.out@);
            lemma_bytes_bits_len(w.out@);
            assert(w.bits() =~= bytes_bits(w.out@));
        }
        w.out
    }
}

/// Reads bits from a byte slice, LSB-first within each byte.
#[derive(Debug)]
pub struct BitReader<'a> {
    data: &'a [u8],
    byte: usize,
    bit: u32,
    bits_read: usize,
}

impl<'a> BitReader<'a> {
    /// The reader's internal consistency.
    pub closed spec fn wf(&self) -> bool {
        &&& self.bit < 8
        &&& self.byte <= self.data@.len()
        &&& (self.byte == self.data@.len() ==> self.bit == 0)
        &&& self.bits_read == 8 * self.byte + self.bit
        &&& 8 * self.data@.len() <= usize::MAX
    }

    /// The bytes the reader reads.
    pub closed spec fn data(&self) -> Seq<u8> {
        self.data@
    }

    /// The stream the reader reads.
    pub open spec fn stream(&self) -> Seq<bool> {
        bytes_bits(self.data())
    }

    /// The number of bits consumed so far.
    pub closed spec fn pos(&self) -> nat {
        (8 * self.byte + self.bit) as nat
    }

    /// A valid reader never runs past the end of its stream.
    pub proof fn lemma_pos(&self)
        requires
            self.wf(),
        ensures
            self.pos() <= self.stream().len(),
            self.stream().len() == 8 * self.data().len(),
            8 * self.data().len() <= usize::MAX,
    {
        lemma_bytes_bits_len(self.data@);
    }

    /// A reader over `data`, positioned before the first bit.
    pub fn new(data: &'a [u8]) -> (r: Self)
        requires
            8 * data@.len() <= usize::MAX,
        ensures
            r.wf(),
            r.data() == data@,
            r.pos() == 0,
    {
        BitReader { data, byte: 0, bit: 0, bits_read: 0 }
    }

    /// Read one bit (the next lowest unused position).
    fn read_bit(&mut self) -> (r: Result<u64, BitError>)
        requires
            old(self).wf(),
        ensures
            final(self).wf(),
            final(self).data() == old(self).data(),
            match r {
                Ok(b) => {
                    &&& old(self).pos() < old(self).stream().len()
                    &&& (b == 1) == old(self).stream()[old(self).pos() as int]
                    &&& b <= 1
                    &&& final(self).pos() == old(self).pos() + 1
                },
                Err(e) => {
                    &&& old(self).pos() == old(self).stream().len()
                    &&& final(self).pos() == old(self).pos()
                },
            },
    {
        proof {
            lemma_bytes_bits_len(self.data@);
        }
        if self.byte >= self.data.len() {
            return Err(BitError::Exhausted);
        }
        let byte = self.data[self.byte];
        let b = (byte >> self.bit) & 1;
        proof {
            lemma_bytes_bits_index(self.data@, self.byte as int, self.bit as int);
            let bt = self.bit;
            assert((b == 1) == (((byte as u64) >> (bt as u64)) & 1 == 1) && b <= 1) by (bit_vector)
                requires
                    b == (byte >> bt) & 1,
                    bt < 8,
            ;
        }
        self.bit = self.bit + 1;
        if self.bit == 8 {
            self.bit = 0;
            self.byte = self.byte + 1;
        }
        self.bits_read = self.bits_read + 1;
        Ok(b as u64)
    }

    /// Read `nbits` bits, LSB of the returned value first (a fixed-width
    /// element in the stream's natural order).
    pub fn next_lsb(&mut self, nbits: u32) -> (r: Result<u64, BitError>)
        requires
            old(self).wf(),
            nbits <= 64,
        ensures
            final(self).wf(),
            final(self).data() == old(self).data(),
            match r {
                Ok(v) => {
                    &&& old(self).pos() + nbits <= old(self).stream().len()
                    &&& v == lsb_value(
                        old(self).stream().subrange(
                            old(self).pos() as int,
                            old(self).pos() + nbits,
                        ),
                    )
                    &&& final(self).pos() == old(self).pos() + nbits
                },
                Err(e) => {
                    &&& old(self).pos() + nbits > old(self).stream().len()
                    &&& final(self).pos() == old(self).stream().len()
                },
            },
    {
        let ghost p0 = self.pos();
        let ghost s = self.stream();
        let mut v: u64 = 0;
        let mut k: u32 = 0;
        proof {
            self.lemma_pos();
            assert(s.subrange(p0 as int, p0 as int) =~= Seq::<bool>::empty());
        }
        while k < nbits
            invariant
                self.wf(),
                self.data() == old(self).data(),
                s == self.stream(),
                p0 == old(self).pos(),
                k <= nbits <= 64,
                self.pos() == p0 + k,
                p0 + k <= s.len(),
                v == lsb_value(s.subrange(p0 as int, p0 + k)),
            decreases nbits - k,
        {
            match self.read_bit() {
                Ok(b) => {
                    assert(s.subrange(p0 as int, p0 + k + 1).drop_last() =~= s.subrange(
                        p0 as int,
                        p0 + k,
                    ));
                    assert(b << k == (if b == 1 {
                        1u64 << k
                    } else {
                        0
                    })) by (bit_vector)
                        requires
                            b <= 1,
                    ;
                    v = v | (b << k);
                    k = k + 1;
                },
                Err(e) => {
                    proof {
                        self.lemma_pos();
                    }
                    return Err(e);
                },
            }
        }
        Ok(v)
    }

    /// Read a `nbits`-bit Huffman code: the first bit read is the code's
    /// most-significant bit.
    pub fn next_huff(&mut self, nbits: u32) -> (r: Result<u32, BitError>)
        requires
            old(self).wf(),
        ensures
            final(self).wf(),
            final(self).data() == old(self).data(),
            match r {
                Ok(v) => {
                    &&& old(self).pos() + nbits <= old(self).stream().len()
                    &&& v == msb_value(
                        old(self).stream().subrange(
                            old(self).pos() as int,
                            old(self).pos() + nbits,
                        ),
                    )
                    &&& final(self).pos() == old(self).pos() + nbits
                },
                Err(e) => {
                    &&& old(self).pos() + nbits > old(self).stream().len()
                    &&& final(self).pos() == old(self).stream().len()
                },
            },
    {
        let ghost p0 = self.pos();
        let ghost s = self.stream();
        let mut v: u32 = 0;
        let mut k: u32 = 0;
        proof {
            self.lemma_pos();
            assert(s.subrange(p0 as int, p0 as int) =~= Seq::<bool>::empty());
        }
        while k < nbits
            invariant
                self.wf(),
                self.data() == old(self).data(),
                s == self.stream(),
                p0 == old(self).pos(),
                k <= nbits,
                self.pos() == p0 + k,
                p0 + k <= s.len(),
                v == msb_value(s.subrange(p0 as int, p0 + k)),
            decreases nbits - k,
        {
            match self.read_bit() {
                Ok(b) => {
                    assert(s.subrange(p0 as int, p0 + k + 1).drop_last() =~= s.subrange(
                        p0 as int,
                        p0 + k,
                    ));
                    v = (v << 1u32) | (b as u32);
                    k = k + 1;
                },
                Err(e) => {
                    proof {
                        self.lemma_pos();
                    }
                    return Err(e);
                },
            }
        }
        Ok(v)
    }

    /// Skip to the next byte boundary.
    pub fn align_to_byte(&mut self)
        requires
            old(self).wf(),
        ensures
            final(self).wf(),
            final(self).data() == old(self).data(),
            final(self).pos() == old(self).pos() + pad_len(old(self).pos()),
            final(self).pos() % 8 == 0,
    {
        if self.bit != 0 {
            self.bits_read = self.bits_read + (8 - self.bit as usize);
            self.bit = 0;
            self.byte = self.byte + 1;
        }
    }

    /// Total bits consumed so far (padding included).
    pub fn bits_read(&self) -> (r: usize)
        requires
            self.wf(),
        ensures
            r == self.pos(),
    {
        self.bits_read
    }

    /// True once the reader has passed the last byte.
    pub fn at_end(&self) -> (r: bool)
        requires
            self.wf(),
        ensures
            r == (self.pos() >= self.stream().len()),
    {
        proof {
            lemma_bytes_bits_len(self.data@);
        }
        self.byte >= self.data.len()
    }

    /// The index of the byte that holds the next unread bit.
    pub fn byte_offset(&self) -> (r: usize)
        requires
            self.wf(),
        ensures
            r == self.pos() / 8,
    {
        self.byte
    }

    /// The number of bytes in the underlying slice.
    pub fn data_len(&self) -> (r: usize)
        ensures
            r == self.data().len(),
    {
        self.data.len()
    }

    /// The bytes from the current byte offset to the end of the slice.
    pub fn window(&self) -> (r: &'a [u8])
        requires
            self.wf(),
        ensures
            r@ == self.data().subrange((self.pos() / 8) as int, self.data().len() as int),
    {
        vstd::slice::slice_subrange(self.data, self.byte, self.data.len())
    }

    /// Skip `n` whole bytes from a byte boundary.
    pub fn skip_bytes(&mut self, n: usize)
        requires
            old(self).wf(),
            old(self).pos() % 8 == 0,
            old(self).pos() / 8 + n <= old(self).data().len(),
        ensures
            final(self).wf(),
            final(self).data() == old(self).data(),
            final(self).pos() == old(self).pos() + 8 * n,
    {
        self.byte = self.byte + n;
        self.bits_read = self.bits_read + 8 * n;
    }
}

} // verus!
