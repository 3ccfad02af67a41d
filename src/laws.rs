//! Properties that hold across several operations of the library.

use vstd::prelude::*;
use crate::buffer::{
    BufferModel, NormError, aligned, copies, covered_span, first_nonempty, identity_alignment, last_nonempty,
    lemma_nonempty_ends, model_wf, nonempty, spliced,
};
use crate::normalizer::{Normalizer, Step, Strategy, run_steps, strategy_run};
use crate::unicode::lemma_simple_lower_idempotent;

verus! {

/// Lowercasing a buffer a second time changes neither its text nor its table.
pub proof fn lemma_lowercase_idempotent(b: BufferModel)
    ensures
        strategy_run(Strategy::Lowercase, strategy_run(Strategy::Lowercase, b).0) == strategy_run(
            Strategy::Lowercase,
            b,
        ),
{
    let once = strategy_run(Strategy::Lowercase, b).0;
    let twice = strategy_run(Strategy::Lowercase, once).0;
    assert forall|i: int| 0 <= i < b.normalized.len() implies twice.normalized[i] == once.normalized[i] by {
        lemma_simple_lower_idempotent(b.normalized[i]);
    }
    assert(twice.normalized =~= once.normalized);
}

/// Lowercasing a fresh buffer keeps the identity table: position `i` still
/// maps to `[i, i + 1)`.
pub proof fn lemma_lowercase_keeps_identity(text: Seq<char>)
    ensures
        ({
            let b = BufferModel { original: text, normalized: text, alignments: identity_alignment(text.len()) };
            strategy_run(Strategy::Lowercase, b) matches (after, None) && after.alignments == identity_alignment(
                text.len(),
            ) && after.normalized.len() == text.len()
        }),
{
}

/// A run stops at the first step that fails: its error is reported and the
/// buffer is the one that the steps before it left; the later steps never run.
pub proof fn lemma_run_stops_at_first_error<C: Normalizer>(
    done: Seq<Step<C>>,
    failing: Step<C>,
    rest: Seq<Step<C>>,
    b: BufferModel,
)
    requires
        run_steps(done, b).1 is None,
        failing.spec_run(run_steps(done, b).0).1 is Some,
    ensures
        run_steps(done + seq![failing] + rest, b) == (run_steps(done, b).0, failing.spec_run(run_steps(done, b).0).1),
    decreases done.len(),
{
    let all = done + seq![failing] + rest;
    if done.len() == 0 {
        assert(all[0] == failing);
    } else {
        assert(all[0] == done[0]);
        assert(all.skip(1) =~= done.skip(1) + seq![failing] + rest);
        lemma_run_stops_at_first_error(done.skip(1), failing, rest, done[0].spec_run(b).0);
    }
}

/// A pipeline of lowercase, a failing step, and accent stripping reports the
/// failing step's error and leaves the buffer that lowercase alone makes:
/// accent stripping never runs.
pub proof fn lemma_pipeline_stops_at_failure<C: Normalizer>(steps: Seq<Step<C>>, b: BufferModel)
    requires
        steps.len() == 3,
        steps[0] == Step::<C>::Builtin(Strategy::Lowercase),
        steps[1].spec_run(strategy_run(Strategy::Lowercase, b).0).1 is Some,
        steps[2] == Step::<C>::Builtin(Strategy::StripAccents),
    ensures
        run_steps(steps, b) == (
            strategy_run(Strategy::Lowercase, b).0,
            steps[1].spec_run(strategy_run(Strategy::Lowercase, b).0).1,
        ),
{
    let lowered = strategy_run(Strategy::Lowercase, b).0;
    assert(steps[0].spec_run(b) == (lowered, None::<NormError>));
    assert(steps.skip(1)[0] == steps[1]);
    assert(run_steps(steps.skip(1), lowered) == (lowered, steps[1].spec_run(lowered).1));
    assert(run_steps(steps, b) == run_steps(steps.skip(1), lowered));
}

/// The span that an edit of `[a, b)` gives its new characters is the union of
/// the spans of the removed characters: it contains each non-empty one, starts
/// where the first of them starts and ends where the last of them ends; where
/// they cover nothing, a pure insertion (`a == b`) included, it is empty.
pub proof fn lemma_covered_span_is_union(
    original: Seq<char>,
    normalized: Seq<char>,
    al: Seq<(usize, usize)>,
    a: int,
    b: int,
)
    requires
        aligned(original, normalized, al),
        0 <= a <= b <= al.len(),
    ensures
        forall|i: int|
            a <= i < b && nonempty(#[trigger] al[i]) ==> covered_span(al, a, b).0 <= al[i].0 && al[i].1
                <= covered_span(al, a, b).1,
        first_nonempty(al, a, b) < b ==> {
            &&& a <= first_nonempty(al, a, b) <= last_nonempty(al, a, b) < b
            &&& nonempty(al[first_nonempty(al, a, b)]) && nonempty(al[last_nonempty(al, a, b)])
            &&& covered_span(al, a, b) == (al[first_nonempty(al, a, b)].0, al[last_nonempty(al, a, b)].1)
        },
        (forall|i: int| a <= i < b ==> !nonempty(#[trigger] al[i])) ==> !nonempty(covered_span(al, a, b)),
        a == b ==> !nonempty(covered_span(al, a, b)),
{
    lemma_nonempty_ends(al, a, b);
    let f = first_nonempty(al, a, b);
    let l = last_nonempty(al, a, b);
    assert forall|i: int| a <= i < b && nonempty(#[trigger] al[i]) implies covered_span(al, a, b).0 <= al[i].0
        && al[i].1 <= covered_span(al, a, b).1 by {
        assert(f <= i && i <= l);
        assert(al[f].0 <= al[i].0 && al[f].1 <= al[i].1);
        assert(al[i].0 <= al[l].0 && al[i].1 <= al[l].1);
    }
    if forall|i: int| a <= i < b ==> !nonempty(#[trigger] al[i]) {
        if f < b {
            assert(nonempty(al[f]));
        }
    }
}

/// What `replace` of `[a, b)` by `t` leaves: the text is the old text before
/// `a`, then `t`, then the old text from `b`; each inserted position maps to
/// the union of the old spans of `[a, b)` (see `lemma_covered_span_is_union`),
/// which is empty for a pure insertion.
pub proof fn lemma_replace_result(before: BufferModel, after: BufferModel, a: int, b: int, t: Seq<char>)
    requires
        model_wf(before),
        0 <= a <= b <= before.normalized.len(),
        after.normalized == spliced(before.normalized, a, b, t),
        after.alignments == spliced(before.alignments, a, b, copies(covered_span(before.alignments, a, b), t.len())),
    ensures
        after.normalized == before.normalized.subrange(0, a) + t + before.normalized.subrange(b, before.normalized.len() as int),
        forall|i: int| a <= i < a + t.len() ==> #[trigger] after.alignments[i] == covered_span(before.alignments, a, b),
        forall|i: int, j: int|
            a <= i < a + t.len() && a <= j < b && nonempty(before.alignments[j]) ==> after.alignments[i].0
                <= #[trigger] before.alignments[j].0 && before.alignments[j].1 <= #[trigger] after.alignments[i].1,
        a == b ==> forall|i: int| a <= i < a + t.len() ==> !nonempty(#[trigger] after.alignments[i]),
{
    lemma_covered_span_is_union(before.original, before.normalized, before.alignments, a, b);
    assert forall|i: int| a <= i < a + t.len() implies #[trigger] after.alignments[i] == covered_span(before.alignments, a, b) by {
        assert(after.alignments[i] == copies(covered_span(before.alignments, a, b), t.len())[i - a]);
    }
}

} // verus!
