//! Text escaping for the labels of the SVG renders.
use vstd::prelude::*;
use vstd::string::StringExecFns;
use vstd::std_specs::iter::IteratorSpec;
use crate::text::push_char;

verus! {

/// The XML text form of one character: the four markup characters become
/// entity references, every other character stands for itself.
pub open spec fn escape_char(c: char) -> Seq<char> {
    if c == '&' {
        seq!['&', 'a', 'm', 'p', ';']
    } else if c == '<' {
        seq!['&', 'l', 't', ';']
    } else if c == '>' {
        seq!['&', 'g', 't', ';']
    } else if c == '"' {
        seq!['&', 'q', 'u', 'o', 't', ';']
    } else {
        seq![c]
    }
}

/// The XML text form of a character sequence, character by character.
pub open spec fn escape_chars(s: Seq<char>) -> Seq<char>
    decreases s.len(),
{
    if s.len() == 0 {
        Seq::empty()
    } else {
        escape_chars(s.drop_last()) + escape_char(s.last())
    }
}

/// Minimal XML text escaping for generated labels: `&`, `<`, `>` and `"`
/// become entity references.
pub fn escape(s: &str) -> (r: String)
    ensures
        r@ == escape_chars(s@),
{
    let mut out = String::new();
    let mut it = s.chars();
    let ghost all = s@;
    let ghost mut done: int = 0;
    proof {
        broadcast use vstd::string::axiom_spec_iter;
        assert(it.remaining() == all);
        assert(all.take(0) =~= Seq::<char>::empty());
    }
    loop
        invariant
            0 <= done <= all.len(),
            it.remaining() == all.skip(done),
            out@ == escape_chars(all.take(done)),
        ensures
            out@ == escape_chars(all),
        decreases all.len() - done,
    {
        let next = it.next();
        proof {
            broadcast use vstd::string::next_postcondition;
        }
        match next {
            None => {
                proof {
                    assert(all.skip(done).len() == 0);
                    assert(all.take(done) =~= all);
                }
                break;
            },
            Some(c) => {
                proof {
                    assert(c == all[done]);
                    assert(all.take(done + 1).drop_last() =~= all.take(done));
                    assert(all.skip(done).drop_first() =~= all.skip(done + 1));
                }
                if c == '&' {
                    out.append("&amp;");
                    proof {
                        reveal_strlit("&amp;");
                    }
                } else if c == '<' {
                    out.append("&lt;");
                    proof {
                        reveal_strlit("&lt;");
                    }
                } else if c == '>' {
                    out.append("&gt;");
                    proof {
                        reveal_strlit("&gt;");
                    }
                } else if c == '"' {
                    out.append("&quot;");
                    proof {
                        reveal_strlit("&quot;");
                    }
                } else {
                    push_char(&mut out, c);
                }
                proof {
                    done = done + 1;
                    assert(out@ =~= escape_chars(all.take(done)));
                }
            },
        }
    }
    out
}

} // verus!
