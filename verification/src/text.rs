//! Text building: appending characters and rendering bytes as hex.
use vstd::prelude::*;

verus! {

/// Calls std's `String::push`, which its documentation says appends the
/// given `char` to the end of the string; the contract states exactly that.
#[verifier::external_body]
pub(crate) fn push_char(s: &mut String, c: char)
    ensures
        final(s)@ == old(s)@.push(c),
{
    s.push(c);
}

/// The lower-case hex digit of a nibble.
pub open spec fn hex_digit(n: int) -> char {
    if n < 10 {
        (('0' as int) + n) as char
    } else {
        (('a' as int) + n - 10) as char
    }
}

/// Two lower-case hex digits per byte, high nibble first.
pub open spec fn hex_chars(b: Seq<u8>) -> Seq<char>
    decreases b.len(),
{
    if b.len() == 0 {
        Seq::empty()
    } else {
        hex_chars(b.drop_last()) + seq![hex_digit(b.last() as int / 16), hex_digit(b.last() as int % 16)]
    }
}

fn nibble_char(n: u8) -> (c: char)
    requires
        n < 16,
    ensures
        c == hex_digit(n as int),
{
    if n < 10 {
        ((48 + n) as char)
    } else {
        ((87 + n) as char)
    }
}

/// The bytes as lower-case hex, two digits each.
pub fn to_hex(b: &[u8]) -> (s: String)
    ensures
        s@ == hex_chars(b@),
{
    let mut s = String::new();
    let mut i: usize = 0;
    while i < b.len()
        invariant
            i <= b@.len(),
            s@ == hex_chars(b@.take(i as int)),
        decreases b@.len() - i,
    {
        let x = b[i];
        push_char(&mut s, nibble_char(x / 16));
        push_char(&mut s, nibble_char(x % 16));
        proof {
            assert(b@.take(i + 1).drop_last() =~= b@.take(i as int));
        }
        i = i + 1;
    }
    proof {
        assert(b@.take(b@.len() as int) =~= b@);
    }
    s
}

/// The decimal digit character of `d` (below ten).
pub open spec fn dec_digit(d: int) -> char {
    (('0' as int) + d) as char
}

/// The decimal digits of `n`, most significant first, without leading zeros.
pub open spec fn dec_chars(n: nat) -> Seq<char>
    decreases n,
{
    if n < 10 {
        seq![dec_digit(n as int)]
    } else {
        dec_chars(n / 10) + seq![dec_digit((n % 10) as int)]
    }
}

/// The last `k` hex digits of `x`, most significant first (zero-padded).
pub open spec fn hex_fixed(x: nat, k: nat) -> Seq<char>
    decreases k,
{
    if k == 0 {
        Seq::empty()
    } else {
        hex_fixed(x / 16, (k - 1) as nat) + seq![hex_digit((x % 16) as int)]
    }
}

/// The hex digits of `n`, most significant first, without leading zeros.
pub open spec fn hex_chars_min(n: nat) -> Seq<char>
    decreases n,
{
    if n < 16 {
        seq![hex_digit(n as int)]
    } else {
        hex_chars_min(n / 16) + seq![hex_digit((n % 16) as int)]
    }
}

/// The decimal elements of `v` separated by `", "`.
pub open spec fn list_body(v: Seq<nat>) -> Seq<char>
    decreases v.len(),
{
    if v.len() == 0 {
        Seq::empty()
    } else if v.len() == 1 {
        dec_chars(v[0])
    } else {
        list_body(v.drop_last()) + seq![',', ' '] + dec_chars(v.last())
    }
}

/// The elements of `v` in brackets, as `Debug` prints a list of integers.
pub open spec fn list_chars(v: Seq<nat>) -> Seq<char> {
    seq!['['] + list_body(v) + seq![']']
}

/// Appends the decimal digits of `n`.
pub fn push_dec(s: &mut String, n: u64)
    ensures
        final(s)@ == old(s)@ + dec_chars(n as nat),
    decreases n,
{
    if n >= 10 {
        push_dec(s, n / 10);
    }
    let d = (n % 10) as u8;
    push_char(s, (48 + d) as char);
    proof {
        assert(final(s)@ =~= old(s)@ + dec_chars(n as nat));
    }
}

/// Appends the last `k` hex digits of `x` (zero-padded).
pub fn push_hex_fixed(s: &mut String, x: u64, k: u32)
    ensures
        final(s)@ == old(s)@ + hex_fixed(x as nat, k as nat),
    decreases k,
{
    if k > 0 {
        push_hex_fixed(s, x / 16, k - 1);
        push_char(s, nibble_char((x % 16) as u8));
        proof {
            assert(final(s)@ =~= old(s)@ + hex_fixed(x as nat, k as nat));
        }
    }
}

/// Appends the hex digits of `n` (no leading zeros).
pub fn push_hex(s: &mut String, n: u64)
    ensures
        final(s)@ == old(s)@ + hex_chars_min(n as nat),
    decreases n,
{
    if n >= 16 {
        push_hex(s, n / 16);
    }
    push_char(s, nibble_char((n % 16) as u8));
    proof {
        assert(final(s)@ =~= old(s)@ + hex_chars_min(n as nat));
    }
}

/// Appends the elements of `v` as a bracketed decimal list.
pub fn push_list(s: &mut String, v: &[u64])
    ensures
        final(s)@ == old(s)@ + list_chars(Seq::new(v@.len(), |i: int| v@[i] as nat)),
{
    let ghost vs = Seq::new(v@.len(), |i: int| v@[i] as nat);
    let ghost s0 = s@;
    push_char(s, '[');
    let mut i: usize = 0;
    while i < v.len()
        invariant
            i <= v@.len(),
            vs == Seq::new(v@.len(), |i: int| v@[i] as nat),
            s@ == s0 + seq!['['] + list_body(vs.take(i as int)),
        decreases v@.len() - i,
    {
        let ghost before = s@;
        if i > 0 {
            push_char(s, ',');
            push_char(s, ' ');
        }
        push_dec(s, v[i]);
        proof {
            let t = vs.take(i + 1);
            assert(t.drop_last() =~= vs.take(i as int));
            if i == 0 {
                assert(list_body(vs.take(0)) =~= Seq::<char>::empty());
                assert(s@ =~= s0 + seq!['['] + list_body(t));
            } else {
                assert(s@ =~= s0 + seq!['['] + list_body(t));
            }
        }
        i = i + 1;
    }
    push_char(s, ']');
    proof {
        assert(vs.take(v@.len() as int) =~= vs);
        assert(s@ =~= s0 + list_chars(vs));
    }
}

} // verus!
