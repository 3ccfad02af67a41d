//! The normalizer capability, the built-in strategies, and pipelines that run
//! normalizers in order over one buffer.

use vstd::prelude::*;
use crate::buffer::{AlignedBuffer, BufferModel, NormError, copies, covered_span, lemma_covered_span_shift, push_all};
use crate::pattern::{Pattern, pattern_ok, rewrite, rewrite_alignments};
use crate::unicode::{
    combining_class_of, nfd_of, nfkd_of, nfc_of, nfkc_of, combining_class, nfd_text, nfkd_text, nfc_text,
    nfkc_text, simple_lower, simple_upper, lower_one, upper_one,
};

verus! {

/// Something that edits a buffer in place. `spec_run` says what it does to a
/// buffer: the state it leaves and the error it reports, if any.
pub trait Normalizer {
    spec fn spec_run(&self, b: BufferModel) -> (BufferModel, Option<NormError>);

    fn normalize(&self, buf: &mut AlignedBuffer) -> (r: Result<(), NormError>)
        requires
            old(buf).wf(),
        ensures
            final(buf).wf(),
            final(buf)@.original == old(buf)@.original,
            final(buf)@ == self.spec_run(old(buf)@).0,
            r == result_of(self.spec_run(old(buf)@).1),
    ;
}

/// The result that reports an optional error.
pub open spec fn result_of(e: Option<NormError>) -> Result<(), NormError> {
    match e {
        Some(e) => Err(e),
        None => Ok(()),
    }
}

/// A Unicode normalization form.
pub enum Form {
    Nfd,
    Nfkd,
    Nfc,
    Nfkc,
}

/// The text `s` in form `f`.
pub open spec fn form_of(f: Form, s: Seq<char>) -> Seq<char> {
    match f {
        Form::Nfd => nfd_of(s),
        Form::Nfkd => nfkd_of(s),
        Form::Nfc => nfc_of(s),
        Form::Nfkc => nfkc_of(s),
    }
}

fn apply_form(f: &Form, s: &Vec<char>) -> (r: Vec<char>)
    ensures
        r@ == form_of(*f, s@),
{
    match f {
        Form::Nfd => nfd_text(s),
        Form::Nfkd => nfkd_text(s),
        Form::Nfc => nfc_text(s),
        Form::Nfkc => nfkc_text(s),
    }
}

/// The number of non-starters (characters of non-zero combining class) that
/// `t` starts with.
pub open spec fn nonstarter_run(t: Seq<char>) -> nat
    decreases t.len(),
{
    if t.len() > 0 && combining_class_of(t[0]) != 0 {
        1 + nonstarter_run(t.skip(1))
    } else {
        0
    }
}

/// The length of the segment that `t` starts with: its first character and the
/// non-starters that follow it.
pub open spec fn segment_len(t: Seq<char>) -> nat {
    if t.len() == 0 {
        0
    } else {
        1 + nonstarter_run(t.skip(1))
    }
}

proof fn lemma_nonstarter_run_bound(t: Seq<char>)
    ensures
        nonstarter_run(t) <= t.len(),
    decreases t.len(),
{
    if t.len() > 0 && combining_class_of(t[0]) != 0 {
        lemma_nonstarter_run_bound(t.skip(1));
    }
}

/// The text with each segment put in form `f` on its own. Forms are applied
/// segment by segment so that each segment keeps its own span; a composition
/// that would join two segments is therefore not made.
pub open spec fn in_form(f: Form, t: Seq<char>) -> Seq<char>
    decreases t.len(),
{
    if 0 < segment_len(t) <= t.len() {
        form_of(f, t.subrange(0, segment_len(t) as int)) + in_form(f, t.skip(segment_len(t) as int))
    } else {
        Seq::empty()
    }
}

/// The table that `in_form` leaves, where `al` is the table of `t`: the
/// characters that a segment becomes all take the span it covered (`covered_span`).
pub open spec fn in_form_alignments(f: Form, t: Seq<char>, al: Seq<(usize, usize)>) -> Seq<(usize, usize)>
    decreases t.len(),
{
    if 0 < segment_len(t) <= t.len() {
        Seq::new(
            form_of(f, t.subrange(0, segment_len(t) as int)).len(),
            |i: int| covered_span(al, 0, segment_len(t) as int),
        ) + in_form_alignments(f, t.skip(segment_len(t) as int), al.skip(segment_len(t) as int))
    } else {
        Seq::empty()
    }
}

/// The length of the segment at position `pos` of `s`.
fn segment_at(s: &Vec<char>, pos: usize) -> (r: usize)
    requires
        pos < s@.len(),
    ensures
        r == segment_len(s@.skip(pos as int)),
        1 <= r <= s@.len() - pos,
{
    let ghost t = s@.skip(pos as int);
    let n: usize = s.len();
    let mut k: usize = 1;
    proof {
        lemma_nonstarter_run_bound(t.skip(1));
        assert(t.skip(1).skip(0) =~= t.skip(1));
    }
    while pos + k < n && combining_class(s[pos + k]) != 0
        invariant
            n == s@.len(),
            pos < n,
            1 <= k,
            pos + k <= n,
            t == s@.skip(pos as int),
            nonstarter_run(t.skip(1)) == (k - 1) + nonstarter_run(t.skip(1).skip(k - 1)),
        decreases n - pos - k,
    {
        proof {
            assert(t.skip(1).skip(k - 1)[0] == s@[pos + k]);
            assert(t.skip(1).skip(k - 1).skip(1) =~= t.skip(1).skip(k as int));
        }
        k = k + 1;
    }
    proof {
        if pos + k < n {
            assert(t.skip(1).skip(k - 1)[0] == s@[pos + k]);
        } else {
            assert(t.skip(1).skip(k - 1).len() == 0);
        }
    }
    k
}

/// Puts each segment of the working text in form `f`, through `replace`.
pub fn normalize_form(buf: &mut AlignedBuffer, f: &Form)
    requires
        old(buf).wf(),
    ensures
        final(buf).wf(),
        final(buf)@.original == old(buf)@.original,
        final(buf)@.normalized == in_form(*f, old(buf)@.normalized),
        final(buf)@.alignments == in_form_alignments(*f, old(buf)@.normalized, old(buf)@.alignments),
{
    let ghost start = buf@;
    let ghost mut done: Seq<char> = Seq::empty();
    let ghost mut t: Seq<char> = buf@.normalized;
    let ghost mut done_al: Seq<(usize, usize)> = Seq::empty();
    let ghost mut al: Seq<(usize, usize)> = buf@.alignments;
    let mut pos: usize = 0;
    proof {
        assert(done + t =~= t);
        assert(done_al + al =~= al);
    }
    loop
        invariant
            start == old(buf)@,
            buf.wf(),
            buf@.original == start.original,
            buf@.normalized == done + t,
            done.len() == pos,
            done + in_form(*f, t) == in_form(*f, start.normalized),
            buf@.alignments == done_al + al,
            done_al.len() == pos,
            done_al + in_form_alignments(*f, t, al) == in_form_alignments(*f, start.normalized, start.alignments),
        decreases t.len(),
    {
        if pos >= buf.len() {
            proof {
                assert(t.len() == 0);
                assert(done + in_form(*f, t) =~= done);
                assert(buf@.normalized =~= done);
                assert(done_al + in_form_alignments(*f, t, al) =~= done_al);
                assert(buf@.alignments =~= done_al);
            }
            return;
        }
        let m = segment_at(buf.current_text(), pos);
        let mut seg: Vec<char> = Vec::new();
        push_all(&mut seg, buf.current_text(), pos, pos + m);
        let out = apply_form(f, &seg);
        let ghost sp = covered_span(al, 0, m as int);
        proof {
            assert(buf@.normalized.skip(pos as int) =~= t);
            assert(seg@ =~= t.subrange(0, m as int));
            lemma_covered_span_shift(done_al, al, 0, m as int);
        }
        let _ = buf.replace(pos, pos + m, &out);
        proof {
            let ins = Seq::new(out@.len(), |i: int| sp);
            assert(copies(sp, out@.len()) =~= ins);
            assert(buf@.alignments =~= (done_al + ins) + al.skip(m as int));
            assert((done_al + ins) + in_form_alignments(*f, t.skip(m as int), al.skip(m as int))
                =~= done_al + in_form_alignments(*f, t, al));
            done_al = done_al + ins;
            al = al.skip(m as int);
            assert(buf@.normalized =~= (done + out@) + t.skip(m as int));
            assert((done + out@) + in_form(*f, t.skip(m as int)) =~= done + in_form(*f, t));
            done = done + out@;
            t = t.skip(m as int);
        }
        let len: usize = buf.len();
        proof {
            assert(pos + out@.len() <= len);
        }
        pos = pos + out.len();
    }
}

/// The built-in normalizers.
pub enum Strategy {
    /// Each character becomes its one-character lowercase form (`simple_lower`):
    /// a character whose full lowercase form is several characters, such as
    /// U+0130, is kept as it is, so that the table keeps its shape.
    Lowercase,
    /// Each character becomes its one-character uppercase form (`simple_upper`),
    /// in the same way: U+00DF, whose uppercase form is "SS", is kept.
    Uppercase,
    /// Each segment (see `segment_len`) becomes its canonical decomposition (NFD).
    /// This is the NFD of the whole text except where a starter decomposes into
    /// non-starters that would be reordered with the segment before it.
    Nfd,
    /// Each segment becomes its compatibility decomposition (NFKD), as for `Nfd`.
    Nfkd,
    /// Each segment becomes its canonical composition (NFC). Compositions never
    /// join two segments: two starters that compose, such as Hangul jamo L + V
    /// or U+0B47 U+0B3E, stay apart.
    Nfc,
    /// Each segment becomes its compatibility composition (NFKC), with the same
    /// limit as `Nfc`.
    Nfkc,
    /// Combining marks are removed.
    StripAccents,
    /// Control characters are removed.
    StripControl,
    /// Each run of whitespace becomes one space.
    CollapseWhitespace,
    /// Each match of the pattern becomes the replacement text.
    Replace(Pattern, Vec<char>),
}

/// The buffer with its working text and table replaced.
pub open spec fn with_text(b: BufferModel, t: Seq<char>, al: Seq<(usize, usize)>) -> BufferModel {
    BufferModel { original: b.original, normalized: t, alignments: al }
}

/// The buffer after each character `c` becomes `f(c)`; the table is unchanged.
pub open spec fn mapped(b: BufferModel, f: spec_fn(char) -> char) -> BufferModel {
    with_text(b, b.normalized.map_values(f), b.alignments)
}

/// The buffer after each segment is put in form `f`.
pub open spec fn in_form_buffer(f: Form, b: BufferModel) -> BufferModel {
    with_text(b, in_form(f, b.normalized), in_form_alignments(f, b.normalized, b.alignments))
}

/// The buffer after each match of `p` is replaced by `r`.
pub open spec fn rewritten(p: Pattern, b: BufferModel, r: Seq<char>) -> BufferModel {
    with_text(b, rewrite(p, b.normalized, r), rewrite_alignments(p, b.normalized, b.alignments, r))
}

/// The buffer that a built-in normalizer leaves, and the error it reports.
pub open spec fn strategy_run(s: Strategy, b: BufferModel) -> (BufferModel, Option<NormError>) {
    match s {
        Strategy::Lowercase => (mapped(b, |c: char| simple_lower(c)), None),
        Strategy::Uppercase => (mapped(b, |c: char| simple_upper(c)), None),
        Strategy::Nfd => (in_form_buffer(Form::Nfd, b), None),
        Strategy::Nfkd => (in_form_buffer(Form::Nfkd, b), None),
        Strategy::Nfc => (in_form_buffer(Form::Nfc, b), None),
        Strategy::Nfkc => (in_form_buffer(Form::Nfkc, b), None),
        Strategy::StripAccents => (rewritten(Pattern::CombiningMark, b, Seq::empty()), None),
        Strategy::StripControl => (rewritten(Pattern::Control, b, Seq::empty()), None),
        Strategy::CollapseWhitespace => (rewritten(Pattern::WhitespaceRun, b, seq![' ']), None),
        Strategy::Replace(p, r) => if pattern_ok(p) {
            (rewritten(p, b, r@), None)
        } else {
            (b, Some(NormError::PatternError))
        },
    }
}

impl Normalizer for Strategy {
    open spec fn spec_run(&self, b: BufferModel) -> (BufferModel, Option<NormError>) {
        strategy_run(*self, b)
    }

    fn normalize(&self, buf: &mut AlignedBuffer) -> (r: Result<(), NormError>) {
        match self {
            Strategy::Lowercase => {
                let n = buf.len();
                let r = buf.transform_range(0, n, |c: char| -> (d: char)
                    ensures
                        d == simple_lower(c),
                    { lower_one(c) });
                proof {
                    assert(buf@.normalized =~= old(buf)@.normalized.map_values(|c: char| simple_lower(c)));
                }
                r
            },
            Strategy::Uppercase => {
                let n = buf.len();
                let r = buf.transform_range(0, n, |c: char| -> (d: char)
                    ensures
                        d == simple_upper(c),
                    { upper_one(c) });
                proof {
                    assert(buf@.normalized =~= old(buf)@.normalized.map_values(|c: char| simple_upper(c)));
                }
                r
            },
            Strategy::Nfd => {
                normalize_form(buf, &Form::Nfd);
                Ok(())
            },
            Strategy::Nfkd => {
                normalize_form(buf, &Form::Nfkd);
                Ok(())
            },
            Strategy::Nfc => {
                normalize_form(buf, &Form::Nfc);
                Ok(())
            },
            Strategy::Nfkc => {
                normalize_form(buf, &Form::Nfkc);
                Ok(())
            },
            Strategy::StripAccents => {
                let none: Vec<char> = Vec::new();
                proof {
                    assert(none@ =~= Seq::<char>::empty());
                }
                buf.for_each_match(&Pattern::CombiningMark, &none)
            },
            Strategy::StripControl => {
                let none: Vec<char> = Vec::new();
                proof {
                    assert(none@ =~= Seq::<char>::empty());
                }
                buf.for_each_match(&Pattern::Control, &none)
            },
            Strategy::CollapseWhitespace => {
                let space: Vec<char> = vec![' '];
                proof {
                    assert(space@ =~= seq![' ']);
                }
                buf.for_each_match(&Pattern::WhitespaceRun, &space)
            },
            Strategy::Replace(p, r) => buf.for_each_match(p, r),
        }
    }
}

/// One stage of a pipeline: a built-in normalizer or one supplied by the caller.
pub enum Step<C> {
    Builtin(Strategy),
    Custom(C),
}

impl<C: Normalizer> Normalizer for Step<C> {
    open spec fn spec_run(&self, b: BufferModel) -> (BufferModel, Option<NormError>) {
        match self {
            Step::Builtin(s) => strategy_run(*s, b),
            Step::Custom(c) => c.spec_run(b),
        }
    }

    fn normalize(&self, buf: &mut AlignedBuffer) -> (r: Result<(), NormError>) {
        match self {
            Step::Builtin(s) => s.normalize(buf),
            Step::Custom(c) => c.normalize(buf),
        }
    }
}

/// The outcome of running `steps` in order over `b`: each step works on the
/// buffer the previous one left, and the first error ends the run, leaving the
/// buffer as the last step that succeeded left it.
pub open spec fn run_steps<C: Normalizer>(steps: Seq<Step<C>>, b: BufferModel) -> (BufferModel, Option<NormError>)
    decreases steps.len(),
{
    if steps.len() == 0 {
        (b, None)
    } else {
        let (b1, e) = steps[0].spec_run(b);
        if e is Some {
            (b, e)
        } else {
            run_steps(steps.skip(1), b1)
        }
    }
}

/// An ordered, fixed sequence of normalizers.
pub struct Pipeline<C> {
    steps: Vec<Step<C>>,
}

impl<C: Normalizer> Pipeline<C> {
    pub closed spec fn steps(&self) -> Seq<Step<C>> {
        self.steps@
    }

    /// A pipeline that runs `steps` in the given order.
    pub fn new(steps: Vec<Step<C>>) -> (r: Pipeline<C>)
        ensures
            r.steps() == steps@,
    {
        Pipeline { steps }
    }

    /// The number of steps.
    pub fn len(&self) -> (r: usize)
        ensures
            r == self.steps().len(),
    {
        self.steps.len()
    }

    /// Applies each step in order to `buf`. On the first error the remaining
    /// steps are skipped, the buffer is put back as the steps before the failing
    /// one left it, and the error is returned.
    pub fn run(&self, buf: &mut AlignedBuffer) -> (r: Result<(), NormError>)
        requires
            old(buf).wf(),
        ensures
            final(buf).wf(),
            final(buf)@.original == old(buf)@.original,
            final(buf)@ == run_steps(self.steps(), old(buf)@).0,
            r == result_of(run_steps(self.steps(), old(buf)@).1),
    {
        let ghost b0 = buf@;
        let mut i: usize = 0;
        proof {
            assert(self.steps@.skip(0) =~= self.steps@);
        }
        while i < self.steps.len()
            invariant
                i <= self.steps@.len(),
                buf.wf(),
                buf@.original == old(buf)@.original,
                b0 == old(buf)@,
                run_steps(self.steps@, b0) == run_steps(self.steps@.skip(i as int), buf@),
            decreases self.steps@.len() - i,
        {
            let saved = buf.snapshot();
            let r = self.steps[i].normalize(buf);
            proof {
                assert(self.steps@.skip(i as int)[0] == self.steps@[i as int]);
                assert(self.steps@.skip(i as int).skip(1) =~= self.steps@.skip(i + 1));
            }
            if r.is_err() {
                *buf = saved;
                return r;
            }
            i = i + 1;
        }
        proof {
            assert(self.steps@.skip(i as int).len() == 0);
        }
        Ok(())
    }
}

impl<C: Normalizer> Normalizer for Pipeline<C> {
    open spec fn spec_run(&self, b: BufferModel) -> (BufferModel, Option<NormError>) {
        run_steps(self.steps(), b)
    }

    fn normalize(&self, buf: &mut AlignedBuffer) -> (r: Result<(), NormError>) {
        self.run(buf)
    }
}

} // verus!
