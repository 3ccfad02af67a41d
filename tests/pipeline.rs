use normkit::buffer::{AlignedBuffer, BufferModel, NormError};
use normkit::normalizer::{Normalizer, Pipeline, Step, Strategy};
use normkit::pattern::Pattern;
use normkit::unicode::{is_control, is_whitespace};

struct Failing;

impl Normalizer for Failing {
    fn spec_run(&self, b: BufferModel) -> (BufferModel, Option<NormError>) {
        (b, Some(NormError::Normalization("custom step failed".to_string())))
    }

    fn normalize(&self, _buf: &mut AlignedBuffer) -> Result<(), NormError> {
        Err(NormError::Normalization("custom step failed".to_string()))
    }
}

fn text(b: &AlignedBuffer) -> String {
    b.current_text().iter().collect()
}

fn run(steps: Vec<Step<Strategy>>, input: &str) -> (Result<(), NormError>, AlignedBuffer) {
    let mut b = AlignedBuffer::new(input);
    let r = Pipeline::new(steps).run(&mut b);
    (r, b)
}

#[test]
fn lowercase_maps_each_char() {
    let (r, b) = run(vec![Step::Builtin(Strategy::Lowercase)], "HeLLo ÀÉ");
    assert_eq!(r, Ok(()));
    assert_eq!(text(&b), "hello àé");
}

#[test]
fn lowercase_keeps_the_identity_table() {
    let (r, b) = run(vec![Step::Builtin(Strategy::Lowercase)], "ÀBİx");
    assert_eq!(r, Ok(()));
    assert_eq!(text(&b), "àbİx");
    assert_eq!(b.alignments(), &vec![(0, 1), (1, 2), (2, 3), (3, 4)]);
}

#[test]
fn lowercase_twice_is_lowercase_once() {
    let once = run(vec![Step::Builtin(Strategy::Lowercase)], "MiXeD ÇASE Ω").1;
    let twice = run(vec![Step::Builtin(Strategy::Lowercase), Step::Builtin(Strategy::Lowercase)], "MiXeD ÇASE Ω").1;
    assert_eq!(text(&once), "mixed çase ω");
    assert_eq!(text(&once), text(&twice));
}

#[test]
fn nfd_decomposes_with_shared_span() {
    let (r, b) = run(vec![Step::Builtin(Strategy::Nfd)], "éa");
    assert_eq!(r, Ok(()));
    assert_eq!(b.current_text(), &vec!['e', '\u{301}', 'a']);
    assert_eq!(b.alignments(), &vec![(0, 1), (0, 1), (1, 2)]);
}

#[test]
fn strip_accents_removes_marks() {
    let (r, b) = run(vec![Step::Builtin(Strategy::Nfd), Step::Builtin(Strategy::StripAccents)], "café");
    assert_eq!(r, Ok(()));
    assert_eq!(text(&b), "cafe");
    assert_eq!(b.alignment_at(3), Ok((3, 4)));
}

#[test]
fn strip_control_removes_control_chars() {
    let (r, b) = run(vec![Step::Builtin(Strategy::StripControl)], "a\u{0}b\u{7f}c\n");
    assert_eq!(r, Ok(()));
    assert_eq!(text(&b), "abc");
    assert_eq!(b.alignments(), &vec![(0, 1), (2, 3), (4, 5)]);
}

#[test]
fn replace_strategy_and_its_pattern_error() {
    let lit: Vec<char> = "--".chars().collect();
    let (r, b) = run(vec![Step::Builtin(Strategy::Replace(Pattern::Literal(lit), vec!['+']))], "a--b---c");
    assert_eq!(r, Ok(()));
    assert_eq!(text(&b), "a+b+-c");
    let (r, b) = run(
        vec![
            Step::Builtin(Strategy::Lowercase),
            Step::Builtin(Strategy::Replace(Pattern::Literal(Vec::new()), vec!['+'])),
            Step::Builtin(Strategy::Lowercase),
        ],
        "AB",
    );
    assert_eq!(r, Err(NormError::PatternError));
    assert_eq!(text(&b), "ab");
}

#[test]
fn pipeline_stops_at_first_failure() {
    let steps: Vec<Step<Failing>> = vec![
        Step::Builtin(Strategy::Lowercase),
        Step::Custom(Failing),
        Step::Builtin(Strategy::StripAccents),
    ];
    let mut b = AlignedBuffer::new("A\u{301}B");
    let r = Pipeline::new(steps).run(&mut b);
    assert_eq!(r, Err(NormError::Normalization("custom step failed".to_string())));
    assert_eq!(text(&b), "a\u{301}b");
    assert_eq!(b.alignments(), &vec![(0, 1), (1, 2), (2, 3)]);
}

#[test]
fn decompose_strip_lower_collapse() {
    let steps = vec![
        Step::Builtin(Strategy::Nfd),
        Step::Builtin(Strategy::StripAccents),
        Step::Builtin(Strategy::Lowercase),
        Step::Builtin(Strategy::CollapseWhitespace),
    ];
    let (r, b) = run(steps, "ÀA  b");
    assert_eq!(r, Ok(()));
    assert_eq!(text(&b), "aa b");
    assert_eq!(b.alignment_at(2), Ok((2, 4)));
    assert_eq!(b.alignments(), &vec![(0, 1), (1, 2), (2, 4), (4, 5)]);
}

#[test]
fn nested_pipeline_is_a_step() {
    let inner: Pipeline<Strategy> = Pipeline::new(vec![Step::Builtin(Strategy::Nfd), Step::Builtin(Strategy::StripAccents)]);
    let outer: Pipeline<Pipeline<Strategy>> = Pipeline::new(vec![Step::Custom(inner), Step::Builtin(Strategy::Lowercase)]);
    assert_eq!(outer.len(), 2);
    let mut b = AlignedBuffer::new("Ñu");
    assert_eq!(outer.normalize(&mut b), Ok(()));
    assert_eq!(text(&b), "nu");
}

#[test]
fn empty_pipeline_changes_nothing() {
    let (r, b) = run(Vec::new(), "Abc");
    assert_eq!(r, Ok(()));
    assert_eq!(text(&b), "Abc");
}

#[test]
fn character_classes() {
    assert!(is_whitespace(' ') && is_whitespace('\u{3000}') && is_whitespace('\t'));
    assert!(!is_whitespace('a') && !is_whitespace('\u{200b}'));
    assert!(is_control('\u{0}') && is_control('\u{9f}') && is_control('\n'));
    assert!(!is_control(' ') && !is_control('\u{a0}'));
}

#[test]
fn uppercase_maps_one_to_one() {
    let (r, b) = run(vec![Step::Builtin(Strategy::Uppercase)], "ßaé");
    assert_eq!(r, Ok(()));
    assert_eq!(text(&b), "ßAÉ");
    assert_eq!(b.alignments(), &vec![(0, 1), (1, 2), (2, 3)]);
}

#[test]
fn nfkd_decomposes_compatibility_forms() {
    let (r, b) = run(vec![Step::Builtin(Strategy::Nfkd)], "ﬁ①");
    assert_eq!(r, Ok(()));
    assert_eq!(text(&b), "fi1");
    assert_eq!(b.alignments(), &vec![(0, 1), (0, 1), (1, 2)]);
}

#[test]
fn table_stays_ordered_and_complete() {
    let steps = vec![
        Step::Builtin(Strategy::Nfd),
        Step::Builtin(Strategy::Uppercase),
        Step::Builtin(Strategy::StripAccents),
        Step::Builtin(Strategy::CollapseWhitespace),
        Step::Builtin(Strategy::Replace(Pattern::Literal(vec!['A']), vec!['a', 'a', 'a'])),
    ];
    let input = "  Ça  ß\u{1}  é ";
    let (r, b) = run(steps, input);
    assert_eq!(r, Ok(()));
    assert_eq!(text(&b), " Caaa ß\u{1} E ");
    let al = b.alignments();
    assert_eq!(al.len(), b.len());
    let n = input.chars().count();
    for i in 0..al.len() {
        assert!(al[i].0 <= al[i].1 && al[i].1 <= n);
        if i > 0 {
            assert!(al[i - 1].0 <= al[i].0 && al[i - 1].1 <= al[i].1);
        }
    }
}

#[test]
fn nfd_orders_combining_marks() {
    let (r, b) = run(vec![Step::Builtin(Strategy::Nfd)], "a\u{301}\u{316}b");
    assert_eq!(r, Ok(()));
    assert_eq!(b.current_text(), &vec!['a', '\u{316}', '\u{301}', 'b']);
    assert_eq!(b.alignments(), &vec![(0, 3), (0, 3), (0, 3), (3, 4)]);
}

#[test]
fn nfc_composes_a_segment() {
    let (r, b) = run(vec![Step::Builtin(Strategy::Nfc)], "e\u{301}x");
    assert_eq!(r, Ok(()));
    assert_eq!(text(&b), "éx");
    assert_eq!(b.alignments(), &vec![(0, 2), (2, 3)]);
}

#[test]
fn nfkc_folds_compatibility_forms() {
    let (r, b) = run(vec![Step::Builtin(Strategy::Nfkc)], "ﬁ");
    assert_eq!(r, Ok(()));
    assert_eq!(text(&b), "fi");
    assert_eq!(b.alignments(), &vec![(0, 1), (0, 1)]);
}

#[test]
fn nfc_does_not_join_two_segments() {
    let (r, b) = run(vec![Step::Builtin(Strategy::Nfc)], "\u{1100}\u{1161}");
    assert_eq!(r, Ok(()));
    assert_eq!(b.current_text(), &vec!['\u{1100}', '\u{1161}']);
    assert_eq!(b.alignments(), &vec![(0, 1), (1, 2)]);
}
