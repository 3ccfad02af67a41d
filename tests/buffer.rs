use normkit::buffer::{AlignedBuffer, NormError};
use normkit::pattern::Pattern;

fn chars(s: &str) -> Vec<char> {
    s.chars().collect()
}

fn text(b: &AlignedBuffer) -> String {
    b.current_text().iter().collect()
}

#[test]
fn new_buffer_is_identity() {
    let b = AlignedBuffer::new("héllo");
    assert_eq!(text(&b), "héllo");
    assert_eq!(b.len(), 5);
    for i in 0..5 {
        assert_eq!(b.alignment_at(i), Ok((i, i + 1)));
    }
    assert_eq!(b.alignment_at(5), Err(NormError::OutOfBounds));
}

#[test]
fn empty_buffer() {
    let b = AlignedBuffer::new("");
    assert_eq!(b.len(), 0);
    assert!(b.alignments().is_empty());
    assert_eq!(b.alignment_at(0), Err(NormError::OutOfBounds));
}

#[test]
fn replace_grow_shares_the_span() {
    let mut b = AlignedBuffer::new("abcdef");
    assert_eq!(b.replace(1, 3, &chars("WXYZ")), Ok(()));
    assert_eq!(text(&b), "aWXYZdef");
    assert_eq!(b.alignment_at(0), Ok((0, 1)));
    for i in 1..5 {
        assert_eq!(b.alignment_at(i), Ok((1, 3)));
    }
    assert_eq!(b.alignment_at(5), Ok((3, 4)));
    assert_eq!(b.original_text(), &chars("abcdef"));
}

#[test]
fn replace_shrink_and_delete() {
    let mut b = AlignedBuffer::new("abcdef");
    assert_eq!(b.replace(1, 4, &chars("Q")), Ok(()));
    assert_eq!(text(&b), "aQef");
    assert_eq!(b.alignments(), &vec![(0, 1), (1, 4), (4, 5), (5, 6)]);
    assert_eq!(b.replace(0, 2, &Vec::new()), Ok(()));
    assert_eq!(text(&b), "ef");
    assert_eq!(b.alignments(), &vec![(4, 5), (5, 6)]);
}

#[test]
fn replace_pure_insertion() {
    let mut b = AlignedBuffer::new("abc");
    assert_eq!(b.replace(1, 1, &chars("-")), Ok(()));
    assert_eq!(text(&b), "a-bc");
    assert_eq!(b.alignment_at(1), Ok((1, 1)));
    assert_eq!(b.replace(0, 0, &chars(">")), Ok(()));
    assert_eq!(b.alignment_at(0), Ok((0, 0)));
    assert_eq!(b.replace(5, 5, &chars("<")), Ok(()));
    assert_eq!(text(&b), ">a-bc<");
    assert_eq!(b.alignment_at(5), Ok((3, 3)));
}

#[test]
fn replace_out_of_bounds_changes_nothing() {
    let mut b = AlignedBuffer::new("abc");
    assert_eq!(b.replace(2, 4, &chars("x")), Err(NormError::OutOfBounds));
    assert_eq!(b.replace(2, 1, &chars("x")), Err(NormError::OutOfBounds));
    assert_eq!(text(&b), "abc");
    assert_eq!(b.alignments(), &vec![(0, 1), (1, 2), (2, 3)]);
}

#[test]
fn match_replace_resumes_after_replacement() {
    let mut b = AlignedBuffer::new("a");
    assert_eq!(b.for_each_match(&Pattern::Literal(chars("a")), &chars("aa")), Ok(()));
    assert_eq!(text(&b), "aa");
    assert_eq!(b.alignments(), &vec![(0, 1), (0, 1)]);
}

#[test]
fn match_replace_literal_many() {
    let mut b = AlignedBuffer::new("xabyabab");
    assert_eq!(b.for_each_match(&Pattern::Literal(chars("ab")), &chars("Z")), Ok(()));
    assert_eq!(text(&b), "xZyZZ");
    assert_eq!(b.alignments(), &vec![(0, 1), (1, 3), (3, 4), (4, 6), (6, 8)]);
}

#[test]
fn match_with_empty_literal_is_a_pattern_error() {
    let mut b = AlignedBuffer::new("abc");
    assert_eq!(b.for_each_match(&Pattern::Literal(Vec::new()), &chars("x")), Err(NormError::PatternError));
    assert_eq!(text(&b), "abc");
}

#[test]
fn whitespace_runs_collapse() {
    let mut b = AlignedBuffer::new("a \t\n b  c ");
    assert_eq!(b.for_each_match(&Pattern::WhitespaceRun, &chars(" ")), Ok(()));
    assert_eq!(text(&b), "a b c ");
    assert_eq!(b.alignment_at(1), Ok((1, 5)));
    assert_eq!(b.alignment_at(3), Ok((6, 8)));
    assert_eq!(b.alignment_at(5), Ok((9, 10)));
}

#[test]
fn transform_range_maps_in_place() {
    let mut b = AlignedBuffer::new("abcd");
    assert_eq!(b.transform_range(1, 3, |c: char| c.to_ascii_uppercase()), Ok(()));
    assert_eq!(text(&b), "aBCd");
    assert_eq!(b.alignments(), &vec![(0, 1), (1, 2), (2, 3), (3, 4)]);
    assert_eq!(b.transform_range(3, 5, |c: char| c), Err(NormError::OutOfBounds));
    assert_eq!(text(&b), "aBCd");
}

#[test]
fn from_utf8_checks_the_encoding() {
    assert_eq!(AlignedBuffer::from_utf8(&[0x61, 0xff]).err(), Some(NormError::InvalidEncoding));
    let b = AlignedBuffer::from_utf8("é!".as_bytes()).ok().unwrap();
    assert_eq!(text(&b), "é!");
    assert_eq!(b.alignments(), &vec![(0, 1), (1, 2)]);
}

#[test]
fn insertion_inside_a_shared_span_is_empty() {
    let mut b = AlignedBuffer::new("a");
    assert_eq!(b.replace(0, 1, &chars("XY")), Ok(()));
    assert_eq!(b.replace(1, 1, &chars("Z")), Ok(()));
    assert_eq!(text(&b), "XZY");
    assert_eq!(b.alignments(), &vec![(0, 1), (0, 0), (0, 1)]);
}

#[test]
fn union_skips_empty_spans() {
    let mut b = AlignedBuffer::new("abc");
    assert_eq!(b.replace(1, 1, &chars("-")), Ok(()));
    assert_eq!(b.replace(1, 3, &chars("Q")), Ok(()));
    assert_eq!(text(&b), "aQc");
    assert_eq!(b.alignments(), &vec![(0, 1), (1, 2), (2, 3)]);
}

#[test]
fn replacing_only_insertions_stays_empty() {
    let mut b = AlignedBuffer::new("abc");
    assert_eq!(b.replace(1, 1, &chars("--")), Ok(()));
    assert_eq!(b.replace(1, 3, &chars("+")), Ok(()));
    assert_eq!(text(&b), "a+bc");
    assert_eq!(b.alignments(), &vec![(0, 1), (1, 1), (1, 2), (2, 3)]);
}
