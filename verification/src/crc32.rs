//! CRC-32 (IEEE 802.3 / zlib): reflected polynomial `0xEDB88320`, initial
//! value `0xFFFFFFFF`, final XOR `0xFFFFFFFF`.
use vstd::prelude::*;

verus! {

/// One bit step of the reflected CRC-32 register.
pub open spec fn crc_step(c: u32) -> u32 {
    if c & 1 == 1 {
        (c >> 1u32) ^ 0xEDB8_8320u32
    } else {
        c >> 1u32
    }
}

/// Eight bit steps: the register after shifting out one byte's worth.
pub open spec fn crc_steps8(c: u32) -> u32 {
    crc_step(crc_step(crc_step(crc_step(crc_step(crc_step(crc_step(crc_step(c))))))))
}

/// The raw register after feeding `s` into the register `c`.
pub open spec fn crc_register(c: u32, s: Seq<u8>) -> u32
    decreases s.len(),
{
    if s.len() == 0 {
        c
    } else {
        crc_steps8(crc_register(c, s.drop_last()) ^ (s.last() as u32))
    }
}

/// CRC-32 of `s` continued from the finished value `init` (0 for a fresh
/// stream).
pub open spec fn spec_crc32(init: u32, s: Seq<u8>) -> u32 {
    crc_register(init ^ 0xFFFF_FFFFu32, s) ^ 0xFFFF_FFFFu32
}

/// The table row for byte value `i`: `i` folded through eight bit steps.
pub open spec fn table_row(i: int) -> u32 {
    crc_steps8(i as u32)
}

proof fn lemma_crc_table_split(c: u32)
    ensures
        crc_steps8(c) == crc_steps8(c & 0xff) ^ (c >> 8u32),
        c & 0xff < 256,
{
    assert(crc_steps8(c) == crc_steps8(c & 0xff) ^ (c >> 8u32) && c & 0xff < 256) by (bit_vector);
}

proof fn lemma_register_concat(c: u32, s: Seq<u8>, t: Seq<u8>)
    ensures
        crc_register(crc_register(c, s), t) == crc_register(c, s + t),
    decreases t.len(),
{
    if t.len() == 0 {
        assert(s + t =~= s);
    } else {
        assert((s + t).drop_last() =~= s + t.drop_last());
        lemma_register_concat(c, s, t.drop_last());
    }
}

/// CRC-32 continues across a split: hashing `x` and then continuing from that
/// value over `y` equals hashing `x + y` in one go.
pub proof fn law_crc32_concat(init: u32, x: Seq<u8>, y: Seq<u8>)
    ensures
        spec_crc32(spec_crc32(init, x), y) == spec_crc32(init, x + y),
{
    let r = crc_register(init ^ 0xFFFF_FFFFu32, x);
    assert((r ^ 0xFFFF_FFFFu32) ^ 0xFFFF_FFFFu32 == r) by (bit_vector);
    lemma_register_concat(init ^ 0xFFFF_FFFFu32, x, y);
}

/// The reflected CRC-32 table: row `i` is byte `i` folded through eight bit
/// steps of the polynomial 0xEDB88320.
pub fn build_table() -> (t: Vec<u32>)
    ensures
        t@.len() == 256,
        forall|i: int| 0 <= i < 256 ==> #[trigger] t@[i] == table_row(i),
{
    let mut t: Vec<u32> = Vec::new();
    let mut i: u32 = 0;
    while i < 256
        invariant
            i <= 256,
            t@.len() == i,
            forall|j: int| 0 <= j < i ==> #[trigger] t@[j] == table_row(j),
        decreases 256 - i,
    {
        let mut c: u32 = i;
        let mut k: u32 = 0;
        while k < 8
            invariant
                0 <= k <= 8,
                i < 256,
                k == 0 ==> c == i,
                k == 1 ==> c == crc_step(i),
                k == 2 ==> c == crc_step(crc_step(i)),
                k == 3 ==> c == crc_step(crc_step(crc_step(i))),
                k == 4 ==> c == crc_step(crc_step(crc_step(crc_step(i)))),
                k == 5 ==> c == crc_step(crc_step(crc_step(crc_step(crc_step(i))))),
                k == 6 ==> c == crc_step(crc_step(crc_step(crc_step(crc_step(crc_step(i)))))),
                k == 7 ==> c == crc_step(
                    crc_step(crc_step(crc_step(crc_step(crc_step(crc_step(i)))))),
                ),
                k == 8 ==> c == crc_steps8(i),
            decreases 8 - k,
        {
            let ghost before = c;
            c = if c & 1 != 0 {
                0xEDB8_8320 ^ (c >> 1)
            } else {
                c >> 1
            };
            assert(c == crc_step(before)) by (bit_vector)
                requires
                    c == (if before & 1 != 0 {
                        0xEDB8_8320u32 ^ (before >> 1u32)
                    } else {
                        before >> 1u32
                    }),
            ;
            k = k + 1;
        }
        t.push(c);
        i = i + 1;
    }
    t
}

/// One-shot CRC-32 starting from `initial` (use 0 for a fresh stream).
///
/// `crc32(0, data)` is the standard CRC-32 of `data`.
pub fn crc32(initial: u32, data: &[u8]) -> (r: u32)
    ensures
        r == spec_crc32(initial, data@),
{
    let table = build_table();
    let mut crc = initial ^ 0xFFFF_FFFF;
    let mut i: usize = 0;
    proof {
        assert(data@.take(0) =~= Seq::<u8>::empty());
    }
    while i < data.len()
        invariant
            table@.len() == 256,
            forall|j: int| 0 <= j < 256 ==> #[trigger] table@[j] == table_row(j),
            i <= data@.len(),
            crc == crc_register(initial ^ 0xFFFF_FFFFu32, data@.take(i as int)),
        decreases data@.len() - i,
    {
        let b = data[i];
        let x = crc ^ b as u32;
        proof {
            lemma_crc_table_split(x);
            assert(data@.take(i + 1).drop_last() =~= data@.take(i as int));
            assert((crc ^ (b as u32)) >> 8u32 == crc >> 8u32) by (bit_vector);
        }
        crc = table[(x & 0xFF) as usize] ^ (crc >> 8);
        i = i + 1;
    }
    proof {
        assert(data@.take(i as int) =~= data@);
    }
    crc ^ 0xFFFF_FFFF
}

/// Standard CRC-32 (fresh state) of `data`.
pub fn crc32_fresh(data: &[u8]) -> (r: u32)
    ensures
        r == spec_crc32(0, data@),
{
    crc32(0, data)
}

} // verus!
