//! The verification corpus: named parts, concatenated in canonical order.
use vstd::prelude::*;

verus! {

/// One named corpus part.
#[derive(Debug, Clone, Copy)]
pub struct Part {
    pub name: &'static str,
    pub data: &'static [u8],
}

/// The bytes of `parts`, concatenated in order.
pub open spec fn concat_parts(parts: Seq<Part>) -> Seq<u8>
    decreases parts.len(),
{
    if parts.len() == 0 {
        Seq::empty()
    } else {
        concat_parts(parts.drop_last()) + parts.last().data@
    }
}

/// Assemble the full corpus: the parts concatenated in the order given.
pub fn assemble(parts: &[Part]) -> (out: Vec<u8>)
    ensures
        out@ == concat_parts(parts@),
{
    let mut out: Vec<u8> = Vec::new();
    let mut k: usize = 0;
    while k < parts.len()
        invariant
            k <= parts.len(),
            out@ == concat_parts(parts@.take(k as int)),
        decreases parts.len() - k,
    {
        let data = parts[k].data;
        let ghost before = out@;
        let mut i: usize = 0;
        while i < data.len()
            invariant
                i <= data.len(),
                out@ == before + data@.take(i as int),
            decreases data.len() - i,
        {
            out.push(data[i]);
            i = i + 1;
            proof {
                assert(data@.take(i as int) =~= data@.take(i - 1).push(data@[i - 1]));
            }
        }
        proof {
            assert(parts@.take(k + 1).drop_last() =~= parts@.take(k as int));
            assert(data@.take(data.len() as int) =~= data@);
        }
        k = k + 1;
    }
    proof {
        assert(parts@.take(parts.len() as int) =~= parts@);
    }
    out
}

} // verus!
