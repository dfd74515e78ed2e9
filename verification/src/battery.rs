//! Grouping of battery results for the verification report: each check is
//! filed under the report group whose name prefix it carries, and each
//! group is summarised as (checks, passes).
use vstd::prelude::*;
use crate::kats::Check;
use vstd::string::StringSliceAdditionalSpecFns;

verus! {

/// `p` is a prefix of `s`.
pub open spec fn has_prefix(s: Seq<u8>, p: Seq<u8>) -> bool {
    p.len() <= s.len() && s.subrange(0, p.len() as int) == p
}

/// The UTF-8 bytes of a check's name.
pub open spec fn name_bytes(c: Check) -> Seq<u8> {
    vstd::utf8::encode_utf8(c.name@)
}

/// The label of report group `g`, in report order.
pub open spec fn spec_group_label(g: int) -> &'static str {
    if g == 0 {
        "rfc1951"
    } else if g == 1 {
        "bits"
    } else if g == 2 {
        "blocks"
    } else if g == 3 {
        "hash"
    } else {
        "xval"
    }
}

/// The name prefixes that file a check under report group `g`.
pub open spec fn spec_group_prefixes(g: int) -> Seq<&'static str> {
    if g == 0 {
        seq!["rfc-"]
    } else if g == 1 {
        seq!["bit-"]
    } else if g == 2 {
        seq!["stored-", "fixed-", "overlap-", "zlib-"]
    } else if g == 3 {
        seq!["hash-"]
    } else {
        seq!["xval-"]
    }
}

/// Check `c` belongs to group `g`: its name starts with one of the group's
/// prefixes (compared byte for byte, as `str::starts_with` does).
pub open spec fn in_group(c: Check, g: int) -> bool {
    exists|j: int|
        0 <= j < spec_group_prefixes(g).len() && has_prefix(
            name_bytes(c),
            #[trigger] spec_group_prefixes(g)[j].spec_bytes(),
        )
}

/// The number of checks of `cs` in group `g`.
pub open spec fn group_total(cs: Seq<Check>, g: int) -> nat
    decreases cs.len(),
{
    if cs.len() == 0 {
        0
    } else {
        group_total(cs.drop_last(), g) + if in_group(cs.last(), g) {
            1nat
        } else {
            0nat
        }
    }
}

/// The number of passing checks of `cs` in group `g`.
pub open spec fn group_pass(cs: Seq<Check>, g: int) -> nat
    decreases cs.len(),
{
    if cs.len() == 0 {
        0
    } else {
        group_pass(cs.drop_last(), g) + if in_group(cs.last(), g) && cs.last().ok {
            1nat
        } else {
            0nat
        }
    }
}

/// The report rows for the first `n` groups: one `(label, (checks,
/// passes))` row per group that holds at least one check, in group order.
pub open spec fn group_rows(cs: Seq<Check>, n: int) -> Seq<(&'static str, (usize, usize))>
    decreases n,
{
    if n <= 0 {
        seq![]
    } else {
        let prev = group_rows(cs, n - 1);
        let t = group_total(cs, n - 1);
        if t > 0 {
            prev.push((spec_group_label(n - 1), (t as usize, group_pass(cs, n - 1) as usize)))
        } else {
            prev
        }
    }
}

proof fn lemma_group_counts_bound(cs: Seq<Check>, g: int)
    ensures
        group_pass(cs, g) <= group_total(cs, g) <= cs.len(),
    decreases cs.len(),
{
    if cs.len() > 0 {
        lemma_group_counts_bound(cs.drop_last(), g);
    }
}

fn group_label(g: usize) -> (r: &'static str)
    requires
        g < 5,
    ensures
        r == spec_group_label(g as int),
{
    if g == 0 {
        "rfc1951"
    } else if g == 1 {
        "bits"
    } else if g == 2 {
        "blocks"
    } else if g == 3 {
        "hash"
    } else {
        "xval"
    }
}

fn group_prefixes(g: usize) -> (r: Vec<&'static str>)
    requires
        g < 5,
    ensures
        r@ == spec_group_prefixes(g as int),
{
    if g == 0 {
        vec!["rfc-"]
    } else if g == 1 {
        vec!["bit-"]
    } else if g == 2 {
        vec!["stored-", "fixed-", "overlap-", "zlib-"]
    } else if g == 3 {
        vec!["hash-"]
    } else {
        vec!["xval-"]
    }
}

fn starts_with(s: &[u8], p: &[u8]) -> (b: bool)
    ensures
        b == has_prefix(s@, p@),
{
    if p.len() > s.len() {
        return false;
    }
    let mut i: usize = 0;
    while i < p.len()
        invariant
            p.len() <= s.len(),
            i <= p.len(),
            forall|k: int| 0 <= k < i ==> s@[k] == p@[k],
        decreases p.len() - i,
    {
        if s[i] != p[i] {
            assert(s@.subrange(0, p.len() as int)[i as int] != p@[i as int]);
            return false;
        }
        i = i + 1;
    }
    assert(s@.subrange(0, p.len() as int) =~= p@);
    true
}

fn check_in_group(c: &Check, g: usize) -> (b: bool)
    requires
        g < 5,
    ensures
        b == in_group(*c, g as int),
{
    let name = c.name.as_str().as_bytes();
    let ps = group_prefixes(g);
    let mut j: usize = 0;
    while j < ps.len()
        invariant
            g < 5,
            ps@ == spec_group_prefixes(g as int),
            name@ == name_bytes(*c),
            j <= ps.len(),
            forall|k: int|
                0 <= k < j ==> !has_prefix(name_bytes(*c), #[trigger] ps@[k].spec_bytes()),
        decreases ps.len() - j,
    {
        let p = ps[j].as_bytes();
        if starts_with(name, p) {
            return true;
        }
        j = j + 1;
    }
    false
}

/// Per-group (checks, passes) counts, in report order: one row for each
/// group that holds at least one check.
pub fn group_totals(checks: &[Check]) -> (r: Vec<(&'static str, (usize, usize))>)
    ensures
        r@ == group_rows(checks@, 5),
{
    let mut out: Vec<(&'static str, (usize, usize))> = Vec::new();
    let mut g: usize = 0;
    while g < 5
        invariant
            g <= 5,
            out@ == group_rows(checks@, g as int),
        decreases 5 - g,
    {
        let mut total: usize = 0;
        let mut ok: usize = 0;
        let mut i: usize = 0;
        while i < checks.len()
            invariant
                g < 5,
                i <= checks.len(),
                total == group_total(checks@.subrange(0, i as int), g as int),
                ok == group_pass(checks@.subrange(0, i as int), g as int),
            decreases checks.len() - i,
        {
            proof {
                let s = checks@.subrange(0, i as int + 1);
                assert(s.drop_last() =~= checks@.subrange(0, i as int));
                lemma_group_counts_bound(checks@.subrange(0, i as int), g as int);
            }
            if check_in_group(&checks[i], g) {
                total = total + 1;
                if checks[i].ok {
                    ok = ok + 1;
                }
            }
            i = i + 1;
        }
        proof {
            assert(checks@.subrange(0, checks.len() as int) =~= checks@);
        }
        if total > 0 {
            out.push((group_label(g), (total, ok)));
        }
        g = g + 1;
    }
    out
}

} // verus!
