//! What `AlignedBuffer::for_each_match` looks for, and what a full scan makes
//! of a text.

use vstd::prelude::*;
use crate::buffer::covered_span;
use crate::unicode::{is_mark, spec_is_whitespace, spec_is_control, is_whitespace, is_control, combining_mark};

verus! {

/// A pattern to find in the working text.
pub enum Pattern {
    /// Exactly these characters; an empty literal is malformed.
    Literal(Vec<char>),
    /// A maximal run of one or more whitespace characters.
    WhitespaceRun,
    /// One control character.
    Control,
    /// One combining mark.
    CombiningMark,
}

/// Whether the pattern can be used: a literal must not be empty.
pub open spec fn pattern_ok(p: Pattern) -> bool {
    match p {
        Pattern::Literal(l) => l@.len() > 0,
        _ => true,
    }
}

/// The number of whitespace characters that `t` starts with.
pub open spec fn space_run(t: Seq<char>) -> nat
    decreases t.len(),
{
    if t.len() > 0 && spec_is_whitespace(t[0]) {
        1 + space_run(t.skip(1))
    } else {
        0
    }
}

/// The length of the match of `p` at the start of `t`, or 0 where it does not match.
pub open spec fn match_len(p: Pattern, t: Seq<char>) -> nat {
    match p {
        Pattern::Literal(l) => if 0 < l@.len() <= t.len() && t.subrange(0, l@.len() as int) == l@ {
            l@.len()
        } else {
            0
        },
        Pattern::WhitespaceRun => space_run(t),
        Pattern::Control => if t.len() > 0 && spec_is_control(t[0]) {
            1
        } else {
            0
        },
        Pattern::CombiningMark => if t.len() > 0 && is_mark(t[0]) {
            1
        } else {
            0
        },
    }
}

/// The text that a left-to-right scan makes of `t`: each match of `p` becomes
/// `r`, and scanning resumes right after the match.
pub open spec fn rewrite(p: Pattern, t: Seq<char>, r: Seq<char>) -> Seq<char>
    decreases t.len(),
{
    if t.len() == 0 {
        Seq::empty()
    } else if 0 < match_len(p, t) <= t.len() {
        r + rewrite(p, t.skip(match_len(p, t) as int), r)
    } else {
        seq![t[0]] + rewrite(p, t.skip(1), r)
    }
}

/// The alignment table that the scan of `rewrite` leaves, where `al` is the
/// table of `t`: each replacement's characters all take the span that the
/// match covered (`covered_span`), and every other character keeps its own.
pub open spec fn rewrite_alignments(p: Pattern, t: Seq<char>, al: Seq<(usize, usize)>, r: Seq<char>) -> Seq<(usize, usize)>
    decreases t.len(),
{
    if t.len() == 0 {
        Seq::empty()
    } else if 0 < match_len(p, t) <= t.len() {
        Seq::new(r.len(), |i: int| covered_span(al, 0, match_len(p, t) as int)) + rewrite_alignments(
            p,
            t.skip(match_len(p, t) as int),
            al.skip(match_len(p, t) as int),
            r,
        )
    } else {
        seq![al[0]] + rewrite_alignments(p, t.skip(1), al.skip(1), r)
    }
}

proof fn lemma_space_run_bound(t: Seq<char>)
    ensures
        space_run(t) <= t.len(),
    decreases t.len(),
{
    if t.len() > 0 && spec_is_whitespace(t[0]) {
        lemma_space_run_bound(t.skip(1));
    }
}

/// The match of `p` never reaches past the end of the text.
pub proof fn lemma_match_len_bound(p: Pattern, t: Seq<char>)
    ensures
        match_len(p, t) <= t.len(),
{
    if p is WhitespaceRun {
        lemma_space_run_bound(t);
    }
}

/// The length of the match of `p` at position `pos` of `s`.
pub fn match_at(p: &Pattern, s: &Vec<char>, pos: usize) -> (r: usize)
    requires
        pos <= s@.len(),
    ensures
        r == match_len(*p, s@.skip(pos as int)),
        r <= s@.len() - pos,
{
    let ghost t = s@.skip(pos as int);
    proof {
        lemma_match_len_bound(*p, t);
    }
    match p {
        Pattern::Literal(l) => {
            if l.len() == 0 || l.len() > s.len() - pos {
                return 0;
            }
            let n: usize = s.len();
            let mut k: usize = 0;
            while k < l.len()
                invariant
                    *p == Pattern::Literal(*l),
                    n == s@.len(),
                    pos <= s@.len(),
                    0 < l@.len() <= s@.len() - pos,
                    t == s@.skip(pos as int),
                    k <= l@.len(),
                    t.subrange(0, k as int) == l@.subrange(0, k as int),
                decreases l@.len() - k,
            {
                if s[pos + k] != l[k] {
                    proof {
                        assert(t[k as int] == s@[pos + k]);
                        assert(t.subrange(0, l@.len() as int)[k as int] != l@[k as int]);
                        assert(t.subrange(0, l@.len() as int) != l@);
                        assert(match_len(*p, t) == 0);
                    }
                    return 0;
                }
                proof {
                    assert(t[k as int] == s@[pos + k]);
                    assert(t.subrange(0, k + 1) =~= t.subrange(0, k as int).push(t[k as int]));
                    assert(l@.subrange(0, k + 1) =~= l@.subrange(0, k as int).push(l@[k as int]));
                }
                k = k + 1;
            }
            proof {
                assert(l@.subrange(0, l@.len() as int) =~= l@);
            }
            l.len()
        },
        Pattern::WhitespaceRun => {
            let n: usize = s.len();
            let mut k: usize = 0;
            proof {
                assert(t.skip(0) =~= t);
            }
            while pos + k < n && is_whitespace(s[pos + k])
                invariant
                    n == s@.len(),
                    pos + k <= n,
                    t == s@.skip(pos as int),
                    space_run(t) == k + space_run(t.skip(k as int)),
                decreases s@.len() - pos - k,
            {
                proof {
                    assert(t.skip(k as int)[0] == s@[pos + k]);
                    assert(t.skip(k as int).skip(1) =~= t.skip(k + 1));
                }
                k = k + 1;
            }
            k
        },
        Pattern::Control => {
            if pos < s.len() && is_control(s[pos]) {
                1
            } else {
                0
            }
        },
        Pattern::CombiningMark => {
            if pos < s.len() && combining_mark(s[pos]) {
                1
            } else {
                0
            }
        },
    }
}

} // verus!
