use vstd::prelude::*;
use crate::unicode::decode_utf8;
use vstd::utf8::valid_utf8;
use crate::pattern::{Pattern, pattern_ok, match_len, rewrite, rewrite_alignments, match_at};

verus! {

/// Errors reported by buffer edits and normalizers.
#[derive(Debug, Clone, PartialEq, Eq)]
pub enum NormError {
    /// The input bytes were not valid UTF-8.
    InvalidEncoding,
    /// An edit or lookup range lies outside the current normalized text.
    OutOfBounds,
    /// A match pattern cannot be used (an empty literal).
    PatternError,
    /// A failure reported by a normalizer, with its message.
    Normalization(String),
}

/// The mathematical state of a buffer: the original text, the working text,
/// and for each working character the original range `[start, end)` it came from.
pub struct BufferModel {
    pub original: Seq<char>,
    pub normalized: Seq<char>,
    pub alignments: Seq<(usize, usize)>,
}

/// Whether a range of the original text holds at least one character.
pub open spec fn nonempty(x: (usize, usize)) -> bool {
    x.0 < x.1
}

/// One original range per normalized position, each inside the original text;
/// the non-empty ranges are ordered: both their ends never decrease along the
/// normalized text. An empty range (a pure insertion) may stand anywhere.
pub open spec fn aligned(original: Seq<char>, normalized: Seq<char>, al: Seq<(usize, usize)>) -> bool {
    &&& al.len() == normalized.len()
    &&& forall|i: int| 0 <= i < al.len() ==> al[i].0 <= al[i].1 && al[i].1 <= original.len()
    &&& forall|i: int, j: int|
        #![trigger al[i], al[j]]
        0 <= i <= j < al.len() && nonempty(al[i]) && nonempty(al[j]) ==> al[i].0 <= al[j].0 && al[i].1 <= al[j].1
}

pub open spec fn model_wf(m: BufferModel) -> bool {
    aligned(m.original, m.normalized, m.alignments)
}

/// The identity alignment of a text of length `n`: position `i` maps to `[i, i + 1)`.
pub open spec fn identity_alignment(n: nat) -> Seq<(usize, usize)> {
    Seq::new(n, |i: int| (i as usize, (i + 1) as usize))
}

/// The first position in `[a, b)` with a non-empty range, or `b` if none.
pub open spec fn first_nonempty(al: Seq<(usize, usize)>, a: int, b: int) -> int
    decreases b - a,
{
    if a >= b {
        b
    } else if nonempty(al[a]) {
        a
    } else {
        first_nonempty(al, a + 1, b)
    }
}

/// The last position in `[a, b)` with a non-empty range, or `a - 1` if none.
pub open spec fn last_nonempty(al: Seq<(usize, usize)>, a: int, b: int) -> int
    decreases b - a,
{
    if a >= b {
        a - 1
    } else if nonempty(al[b - 1]) {
        b - 1
    } else {
        last_nonempty(al, a, b - 1)
    }
}

/// The original range that the normalized range `[a, b)` covers: the union of
/// its positions' ranges, from the start of its first non-empty range to the
/// end of its last one. Where it covers nothing (a pure insertion, or only
/// empty ranges) it is an empty range at the boundary: the start of the range
/// at `a`, or else the end of the one before `a`.
pub open spec fn covered_span(al: Seq<(usize, usize)>, a: int, b: int) -> (usize, usize) {
    if first_nonempty(al, a, b) < b {
        (al[first_nonempty(al, a, b)].0, al[last_nonempty(al, a, b)].1)
    } else if a < al.len() {
        (al[a].0, al[a].0)
    } else if a > 0 {
        (al[a - 1].1, al[a - 1].1)
    } else {
        (0, 0)
    }
}

/// `first_nonempty` and `last_nonempty` find what their names say.
pub proof fn lemma_nonempty_ends(al: Seq<(usize, usize)>, a: int, b: int)
    requires
        0 <= a <= b <= al.len(),
    ensures
        a <= first_nonempty(al, a, b) <= b,
        a - 1 <= last_nonempty(al, a, b) < b,
        forall|k: int| a <= k < first_nonempty(al, a, b) ==> !nonempty(#[trigger] al[k]),
        forall|k: int| last_nonempty(al, a, b) < k < b ==> !nonempty(#[trigger] al[k]),
        first_nonempty(al, a, b) < b ==> nonempty(al[first_nonempty(al, a, b)]),
        last_nonempty(al, a, b) >= a ==> nonempty(al[last_nonempty(al, a, b)]),
        first_nonempty(al, a, b) < b <==> last_nonempty(al, a, b) >= a,
        first_nonempty(al, a, b) < b ==> first_nonempty(al, a, b) <= last_nonempty(al, a, b),
    decreases b - a,
{
    if a < b {
        lemma_nonempty_ends(al, a + 1, b);
        lemma_nonempty_ends(al, a, b - 1);
    }
}

/// Prefixing the table with `x` shifts the positions found by `x.len()`.
pub proof fn lemma_nonempty_shift(x: Seq<(usize, usize)>, al: Seq<(usize, usize)>, a: int, b: int)
    requires
        0 <= a <= b <= al.len(),
    ensures
        first_nonempty(x + al, x.len() + a, x.len() + b) == x.len() + first_nonempty(al, a, b),
        last_nonempty(x + al, x.len() + a, x.len() + b) == x.len() + last_nonempty(al, a, b),
    decreases b - a,
{
    if a < b {
        assert((x + al)[x.len() + a] == al[a]);
        assert((x + al)[x.len() + b - 1] == al[b - 1]);
        lemma_nonempty_shift(x, al, a + 1, b);
        lemma_nonempty_shift(x, al, a, b - 1);
    }
}

/// The span of a non-empty range does not depend on what stands before the table.
pub proof fn lemma_covered_span_shift(x: Seq<(usize, usize)>, al: Seq<(usize, usize)>, a: int, b: int)
    requires
        0 <= a < b <= al.len(),
    ensures
        covered_span(x + al, x.len() + a, x.len() + b) == covered_span(al, a, b),
{
    lemma_nonempty_shift(x, al, a, b);
    lemma_nonempty_ends(al, a, b);
    assert((x + al)[x.len() + a] == al[a]);
    if first_nonempty(al, a, b) < b {
        assert((x + al)[x.len() + first_nonempty(al, a, b)] == al[first_nonempty(al, a, b)]);
        assert((x + al)[x.len() + last_nonempty(al, a, b)] == al[last_nonempty(al, a, b)]);
    }
}

/// `n` copies of `x`.
pub open spec fn copies<T>(x: T, n: nat) -> Seq<T> {
    Seq::new(n, |i: int| x)
}

/// The working text after replacing `[a, b)` of `s` by `t`.
pub open spec fn spliced<T>(s: Seq<T>, a: int, b: int, t: Seq<T>) -> Seq<T> {
    s.subrange(0, a) + t + s.subrange(b, s.len() as int)
}

/// The span that a replacement of `[a, b)` inherits lies inside the original
/// text; where it is not empty it comes after every non-empty range before `a`
/// and before every non-empty range from `b` on.
proof fn lemma_covered_span_bounds(original: Seq<char>, normalized: Seq<char>, al: Seq<(usize, usize)>, a: int, b: int)
    requires
        aligned(original, normalized, al),
        0 <= a <= b <= al.len(),
    ensures
        covered_span(al, a, b).0 <= covered_span(al, a, b).1 <= original.len(),
        nonempty(covered_span(al, a, b)) ==> forall|i: int|
            0 <= i < a && nonempty(#[trigger] al[i]) ==> al[i].0 <= covered_span(al, a, b).0 && al[i].1 <= covered_span(al, a, b).1,
        nonempty(covered_span(al, a, b)) ==> forall|j: int|
            b <= j < al.len() && nonempty(#[trigger] al[j]) ==> covered_span(al, a, b).0 <= al[j].0 && covered_span(al, a, b).1 <= al[j].1,
{
    lemma_nonempty_ends(al, a, b);
    let f = first_nonempty(al, a, b);
    let l = last_nonempty(al, a, b);
    if f < b {
        assert(al[f].0 <= al[l].0 && al[f].1 <= al[l].1);
        assert forall|i: int| 0 <= i < a && nonempty(#[trigger] al[i]) implies al[i].0 <= al[f].0 && al[i].1 <= al[l].1 by {
            assert(al[i].0 <= al[f].0);
            assert(al[i].1 <= al[l].1);
        }
        assert forall|j: int| b <= j < al.len() && nonempty(#[trigger] al[j]) implies al[f].0 <= al[j].0 && al[l].1 <= al[j].1 by {
            assert(al[f].0 <= al[j].0);
            assert(al[l].1 <= al[j].1);
        }
    }
}

/// Replacing `[a, b)` keeps the table well formed when the new positions all
/// take the covered span.
proof fn lemma_splice_aligned(
    original: Seq<char>,
    normalized: Seq<char>,
    al: Seq<(usize, usize)>,
    a: int,
    b: int,
    text: Seq<char>,
)
    requires
        aligned(original, normalized, al),
        0 <= a <= b <= al.len(),
    ensures
        aligned(
            original,
            spliced(normalized, a, b, text),
            spliced(al, a, b, copies(covered_span(al, a, b), text.len())),
        ),
{
    lemma_covered_span_bounds(original, normalized, al, a, b);
    let sp = covered_span(al, a, b);
    let n = text.len() as int;
    let nal = spliced(al, a, b, copies(sp, text.len()));
    assert(nal.len() == al.len() - (b - a) + n);
    assert forall|i: int| 0 <= i < nal.len() implies nal[i] == (if i < a {
        al[i]
    } else if i < a + n {
        sp
    } else {
        al[i - a - n + b]
    }) by {}
    assert forall|i: int| 0 <= i < nal.len() implies nal[i].0 <= nal[i].1 && nal[i].1 <= original.len() by {
        if i >= a + n {
            assert(nal[i] == al[i - a - n + b]);
        }
    }
    assert forall|i: int, j: int|
        #![trigger nal[i], nal[j]]
        0 <= i <= j < nal.len() && nonempty(nal[i]) && nonempty(nal[j]) implies nal[i].0 <= nal[j].0 && nal[i].1
        <= nal[j].1 by {
        if j < a {
            assert(al[i].0 <= al[j].0 && al[i].1 <= al[j].1);
        } else if j >= a + n && i >= a + n {
            assert(al[i - a - n + b].0 <= al[j - a - n + b].0 && al[i - a - n + b].1 <= al[j - a - n + b].1);
        } else if j >= a + n && i < a {
            assert(al[i].0 <= al[j - a - n + b].0 && al[i].1 <= al[j - a - n + b].1);
        }
    }
    assert(spliced(normalized, a, b, text).len() == nal.len());
}

/// A text under normalization, with the provenance of each of its characters.
pub struct AlignedBuffer {
    original: Vec<char>,
    normalized: Vec<char>,
    alignments: Vec<(usize, usize)>,
}

impl View for AlignedBuffer {
    type V = BufferModel;

    closed spec fn view(&self) -> BufferModel {
        BufferModel {
            original: self.original@,
            normalized: self.normalized@,
            alignments: self.alignments@,
        }
    }
}

pub(crate) fn push_all<T: Copy>(dst: &mut Vec<T>, src: &Vec<T>, from: usize, to: usize)
    requires
        from <= to <= src@.len(),
    ensures
        final(dst)@ == old(dst)@ + src@.subrange(from as int, to as int),
{
    let mut i: usize = from;
    while i < to
        invariant
            from <= i <= to <= src@.len(),
            dst@ == old(dst)@ + src@.subrange(from as int, i as int),
        decreases to - i,
    {
        dst.push(src[i]);
        proof {
            assert(src@.subrange(from as int, i + 1) =~= src@.subrange(from as int, i as int).push(src@[i as int]));
        }
        i = i + 1;
    }
}

impl AlignedBuffer {
    pub open spec fn wf(&self) -> bool {
        model_wf(self@)
    }

    /// A buffer over `text`, unchanged, each character mapped to itself.
    pub fn new(text: &str) -> (r: AlignedBuffer)
        ensures
            r.wf(),
            r@.original == text@,
            r@.normalized == text@,
            r@.alignments == identity_alignment(text@.len()),
    {
        let n: usize = text.unicode_len();
        let mut chars: Vec<char> = Vec::new();
        let mut al: Vec<(usize, usize)> = Vec::new();
        let mut i: usize = 0;
        while i < n
            invariant
                n == text@.len(),
                i <= n,
                chars@ == text@.subrange(0, i as int),
                al@ == identity_alignment(i as nat),
            decreases n - i,
        {
            chars.push(text.get_char(i));
            al.push((i, i + 1));
            proof {
                assert(text@.subrange(0, i + 1) =~= text@.subrange(0, i as int).push(text@[i as int]));
                assert(al@ =~= identity_alignment((i + 1) as nat));
            }
            i = i + 1;
        }
        proof {
            assert(chars@ =~= text@);
        }
        let original = chars.clone();
        AlignedBuffer { original, normalized: chars, alignments: al }
    }

    /// A buffer over the text that `bytes` encode; fails with `InvalidEncoding`
    /// exactly when they are not valid UTF-8.
    pub fn from_utf8(bytes: &[u8]) -> (r: Result<AlignedBuffer, NormError>)
        ensures
            !valid_utf8(bytes@) ==> r == Err::<AlignedBuffer, NormError>(NormError::InvalidEncoding),
            valid_utf8(bytes@) ==> (r matches Ok(b) && b.wf() && b@.original == vstd::utf8::decode_utf8(bytes@)
                && b@.normalized == vstd::utf8::decode_utf8(bytes@)
                && b@.alignments == identity_alignment(vstd::utf8::decode_utf8(bytes@).len())),
    {
        match decode_utf8(bytes) {
            Some(s) => Ok(AlignedBuffer::new(s)),
            None => Err(NormError::InvalidEncoding),
        }
    }

    /// A copy of this buffer.
    pub fn snapshot(&self) -> (r: AlignedBuffer)
        ensures
            r@ == self@,
    {
        let mut original: Vec<char> = Vec::new();
        push_all(&mut original, &self.original, 0, self.original.len());
        let mut normalized: Vec<char> = Vec::new();
        push_all(&mut normalized, &self.normalized, 0, self.normalized.len());
        let mut alignments: Vec<(usize, usize)> = Vec::new();
        push_all(&mut alignments, &self.alignments, 0, self.alignments.len());
        proof {
            assert(original@ =~= self.original@);
            assert(normalized@ =~= self.normalized@);
            assert(alignments@ =~= self.alignments@);
        }
        AlignedBuffer { original, normalized, alignments }
    }

    /// The original range covered by the working range `[a, b)` (see `covered_span`).
    fn span_of(&self, a: usize, b: usize) -> (r: (usize, usize))
        requires
            a <= b <= self@.alignments.len(),
        ensures
            r == covered_span(self@.alignments, a as int, b as int),
    {
        let ghost al = self@.alignments;
        let mut f: usize = a;
        while f < b && self.alignments[f].0 >= self.alignments[f].1
            invariant
                al == self@.alignments,
                a <= f <= b <= al.len(),
                first_nonempty(al, f as int, b as int) == first_nonempty(al, a as int, b as int),
            decreases b - f,
        {
            f = f + 1;
        }
        if f < b {
            let mut e: usize = b;
            while e > a && self.alignments[e - 1].0 >= self.alignments[e - 1].1
                invariant
                    al == self@.alignments,
                    a <= e <= b <= al.len(),
                    last_nonempty(al, a as int, e as int) == last_nonempty(al, a as int, b as int),
                decreases e,
            {
                e = e - 1;
            }
            proof {
                lemma_nonempty_ends(al, a as int, b as int);
            }
            (self.alignments[f].0, self.alignments[e - 1].1)
        } else if a < self.alignments.len() {
            (self.alignments[a].0, self.alignments[a].0)
        } else if a > 0 {
            (self.alignments[a - 1].1, self.alignments[a - 1].1)
        } else {
            (0, 0)
        }
    }

    /// Replaces the working range `[start, end)` by `text`. Every inserted
    /// character takes the original span that the removed range covered.
    /// Fails with `OutOfBounds`, changing nothing, unless `start <= end <= len`.
    pub fn replace(&mut self, start: usize, end: usize, text: &Vec<char>) -> (r: Result<(), NormError>)
        requires
            old(self).wf(),
        ensures
            final(self).wf(),
            final(self)@.original == old(self)@.original,
            start <= end <= old(self)@.normalized.len() ==> {
                &&& r == Ok::<(), NormError>(())
                &&& final(self)@.normalized == spliced(old(self)@.normalized, start as int, end as int, text@)
                &&& final(self)@.alignments == spliced(
                    old(self)@.alignments,
                    start as int,
                    end as int,
                    copies(covered_span(old(self)@.alignments, start as int, end as int), text@.len()),
                )
            },
            !(start <= end <= old(self)@.normalized.len()) ==> r == Err::<(), NormError>(NormError::OutOfBounds)
                && final(self)@ == old(self)@,
    {
        if !(start <= end && end <= self.normalized.len()) {
            return Err(NormError::OutOfBounds);
        }
        let sp = self.span_of(start, end);
        let n: usize = self.normalized.len();
        let mut chars: Vec<char> = Vec::new();
        push_all(&mut chars, &self.normalized, 0, start);
        push_all(&mut chars, text, 0, text.len());
        push_all(&mut chars, &self.normalized, end, n);
        let mut al: Vec<(usize, usize)> = Vec::new();
        push_all(&mut al, &self.alignments, 0, start);
        let mut k: usize = 0;
        while k < text.len()
            invariant
                k <= text@.len(),
                al@ == self@.alignments.subrange(0, start as int) + copies(sp, k as nat),
            decreases text@.len() - k,
        {
            al.push(sp);
            proof {
                assert(copies(sp, (k + 1) as nat) =~= copies(sp, k as nat).push(sp));
            }
            k = k + 1;
        }
        push_all(&mut al, &self.alignments, end, n);
        proof {
            lemma_splice_aligned(self@.original, self@.normalized, self@.alignments, start as int, end as int, text@);
            assert(text@.subrange(0, text@.len() as int) =~= text@);
            assert(chars@ =~= spliced(self@.normalized, start as int, end as int, text@));
            assert(al@ =~= spliced(self@.alignments, start as int, end as int, copies(sp, text@.len())));
        }
        self.normalized = chars;
        self.alignments = al;
        Ok(())
    }

    /// Scans the working text from left to right and replaces every match of
    /// `pattern` by `replacement`, each through `replace`. Scanning resumes right
    /// after each inserted replacement, so a replacement that holds the pattern
    /// again is not scanned. Fails with `PatternError`, changing nothing, on an
    /// empty literal.
    pub fn for_each_match(&mut self, pattern: &Pattern, replacement: &Vec<char>) -> (r: Result<(), NormError>)
        requires
            old(self).wf(),
        ensures
            final(self).wf(),
            final(self)@.original == old(self)@.original,
            pattern_ok(*pattern) ==> {
                &&& r == Ok::<(), NormError>(())
                &&& final(self)@.normalized == rewrite(*pattern, old(self)@.normalized, replacement@)
                &&& final(self)@.alignments == rewrite_alignments(
                    *pattern,
                    old(self)@.normalized,
                    old(self)@.alignments,
                    replacement@,
                )
            },
            !pattern_ok(*pattern) ==> r == Err::<(), NormError>(NormError::PatternError) && final(self)@ == old(self)@,
    {
        if let Pattern::Literal(l) = pattern {
            if l.len() == 0 {
                return Err(NormError::PatternError);
            }
        }
        let ghost start = self@;
        let ghost mut done: Seq<char> = Seq::empty();
        let ghost mut t: Seq<char> = self@.normalized;
        let ghost mut done_al: Seq<(usize, usize)> = Seq::empty();
        let ghost mut al: Seq<(usize, usize)> = self@.alignments;
        let mut pos: usize = 0;
        proof {
            assert(done + t =~= t);
            assert(done_al + al =~= al);
        }
        loop
            invariant
                start == old(self)@,
                pattern_ok(*pattern),
                self.wf(),
                self@.original == start.original,
                self@.normalized == done + t,
                done.len() == pos,
                done + rewrite(*pattern, t, replacement@) == rewrite(*pattern, start.normalized, replacement@),
                self@.alignments == done_al + al,
                done_al.len() == pos,
                done_al + rewrite_alignments(*pattern, t, al, replacement@) == rewrite_alignments(
                    *pattern,
                    start.normalized,
                    start.alignments,
                    replacement@,
                ),
            decreases t.len(),
        {
            if pos >= self.normalized.len() {
                proof {
                    assert(t.len() == 0);
                    assert(done + rewrite(*pattern, t, replacement@) =~= done);
                    assert(self@.normalized =~= done);
                    assert(done_al + rewrite_alignments(*pattern, t, al, replacement@) =~= done_al);
                    assert(self@.alignments =~= done_al);
                }
                return Ok(());
            }
            let m = match_at(pattern, &self.normalized, pos);
            proof {
                assert(self@.normalized.skip(pos as int) =~= t);
            }
            if m > 0 {
                let ghost sp = covered_span(al, 0, m as int);
                proof {
                    lemma_covered_span_shift(done_al, al, 0, m as int);
                }
                let _ = self.replace(pos, pos + m, replacement);
                proof {
                    let ins = Seq::new(replacement@.len(), |i: int| sp);
                    assert(copies(sp, replacement@.len()) =~= ins);
                    assert(self@.alignments =~= (done_al + ins) + al.skip(m as int));
                    assert((done_al + ins) + rewrite_alignments(*pattern, t.skip(m as int), al.skip(m as int), replacement@)
                        =~= done_al + rewrite_alignments(*pattern, t, al, replacement@));
                    done_al = done_al + ins;
                    al = al.skip(m as int);
                    assert(rewrite(*pattern, t, replacement@) == replacement@ + rewrite(*pattern, t.skip(m as int), replacement@));
                    assert(self@.normalized =~= (done + replacement@) + t.skip(m as int));
                    assert((done + replacement@) + rewrite(*pattern, t.skip(m as int), replacement@) =~= done + rewrite(*pattern, t, replacement@));
                    done = done + replacement@;
                    t = t.skip(m as int);
                }
                let len: usize = self.normalized.len();
                proof {
                    assert(pos + replacement@.len() <= len);
                }
                pos = pos + replacement.len();
            } else {
                proof {
                    assert(rewrite(*pattern, t, replacement@) == seq![t[0]] + rewrite(*pattern, t.skip(1), replacement@));
                    assert(self@.normalized =~= done.push(t[0]) + t.skip(1));
                    assert(done.push(t[0]) + rewrite(*pattern, t.skip(1), replacement@) =~= done + rewrite(*pattern, t, replacement@));
                    assert(rewrite_alignments(*pattern, t, al, replacement@) == seq![al[0]] + rewrite_alignments(*pattern, t.skip(1), al.skip(1), replacement@));
                    assert(self@.alignments =~= done_al.push(al[0]) + al.skip(1));
                    assert(done_al.push(al[0]) + rewrite_alignments(*pattern, t.skip(1), al.skip(1), replacement@)
                        =~= done_al + rewrite_alignments(*pattern, t, al, replacement@));
                    done_al = done_al.push(al[0]);
                    al = al.skip(1);
                    done = done.push(t[0]);
                    t = t.skip(1);
                }
                pos = pos + 1;
            }
        }
    }

    /// Applies `f` to each character of the working range `[start, end)`; the
    /// alignment table is unchanged. Fails with `OutOfBounds`, changing
    /// nothing, unless `start <= end <= len`.
    pub fn transform_range<F: Fn(char) -> char>(&mut self, start: usize, end: usize, f: F) -> (r: Result<(), NormError>)
        requires
            old(self).wf(),
            forall|c: char| f.requires((c,)),
        ensures
            final(self).wf(),
            final(self)@.original == old(self)@.original,
            final(self)@.alignments == old(self)@.alignments,
            start <= end <= old(self)@.normalized.len() ==> {
                &&& r == Ok::<(), NormError>(())
                &&& final(self)@.normalized.len() == old(self)@.normalized.len()
                &&& forall|i: int|
                    0 <= i < old(self)@.normalized.len() ==> if start <= i < end {
                        f.ensures((old(self)@.normalized[i],), final(self)@.normalized[i])
                    } else {
                        final(self)@.normalized[i] == old(self)@.normalized[i]
                    }
            },
            !(start <= end <= old(self)@.normalized.len()) ==> r == Err::<(), NormError>(NormError::OutOfBounds)
                && final(self)@ == old(self)@,
    {
        if !(start <= end && end <= self.normalized.len()) {
            return Err(NormError::OutOfBounds);
        }
        let ghost before = self.normalized@;
        let mut i: usize = start;
        while i < end
            invariant
                start <= i <= end <= before.len(),
                before == old(self)@.normalized,
                self@.original == old(self)@.original,
                self@.alignments == old(self)@.alignments,
                old(self).wf(),
                self.normalized@.len() == before.len(),
                forall|c: char| f.requires((c,)),
                forall|k: int|
                    0 <= k < before.len() ==> if start <= k < i {
                        f.ensures((before[k],), self.normalized@[k])
                    } else {
                        self.normalized@[k] == before[k]
                    },
            decreases end - i,
        {
            let c = f(self.normalized[i]);
            self.normalized.set(i, c);
            i = i + 1;
        }
        Ok(())
    }

    /// The working text.
    pub fn current_text(&self) -> (r: &Vec<char>)
        ensures
            r@ == self@.normalized,
    {
        &self.normalized
    }

    /// The original text, as given at construction.
    pub fn original_text(&self) -> (r: &Vec<char>)
        ensures
            r@ == self@.original,
    {
        &self.original
    }

    /// The number of characters of the working text.
    pub fn len(&self) -> (r: usize)
        ensures
            r == self@.normalized.len(),
    {
        self.normalized.len()
    }

    /// The original range that position `pos` of the working text came from.
    pub fn alignment_at(&self, pos: usize) -> (r: Result<(usize, usize), NormError>)
        requires
            self.wf(),
        ensures
            pos < self@.normalized.len() ==> r == Ok::<(usize, usize), NormError>(self@.alignments[pos as int]),
            pos >= self@.normalized.len() ==> r == Err::<(usize, usize), NormError>(NormError::OutOfBounds),
    {
        if pos < self.alignments.len() {
            Ok(self.alignments[pos])
        } else {
            Err(NormError::OutOfBounds)
        }
    }

    /// The whole alignment table: entry `i` is the original range of position `i`.
    pub fn alignments(&self) -> (r: &Vec<(usize, usize)>)
        ensures
            r@ == self@.alignments,
    {
        &self.alignments
    }
}

} // verus!
