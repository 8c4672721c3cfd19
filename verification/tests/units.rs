//! The pieces one by one: line splitting, segment bytes, pattern parsing,
//! and report rendering.

use csplit_core::pattern::{parse_patterns, Pattern, RepeatKind};
use csplit_core::report::{destination_sizes, fmt_usize, render_report};
use csplit_core::source::LineSource;

fn toks(ts: &[&str]) -> Vec<Vec<u8>> {
    ts.iter().map(|s| s.as_bytes().to_vec()).collect()
}

#[test]
fn test_lines_keep_their_terminators() {
    let bytes = b"ab\ncd".to_vec();
    let src = LineSource::new(&bytes);
    assert_eq!(src.line_count(), 2);
    assert_eq!(src.line(0), &b"ab\n".to_vec());
    assert_eq!(src.line(1), &b"cd".to_vec());
    assert_eq!(src.body_of(0), b"ab");
    assert_eq!(src.body_of(1), b"cd");
    assert_eq!(src.segment_bytes(0, 2), bytes);
    assert_eq!(src.segment_bytes(1, 1), Vec::<u8>::new());
}

#[test]
fn test_empty_line_has_empty_body() {
    let bytes = b"\n\nx\n".to_vec();
    let src = LineSource::new(&bytes);
    assert_eq!(src.line_count(), 3);
    assert_eq!(src.line(0), &b"\n".to_vec());
    assert_eq!(src.body_of(0), b"");
    assert_eq!(src.body_of(2), b"x");
}

#[test]
fn test_parse_every_pattern_shape() {
    let pats = match parse_patterns(&toks(&["12", "/a/+2", "%b%-1", "{4}", "/c/", "{*}"])) {
        Ok(p) => p,
        Err(_) => panic!("pattern list was rejected"),
    };
    assert_eq!(pats.len(), 6);
    match &pats[0] {
        Pattern::LineNumber { n } => assert_eq!(*n, 12),
        _ => panic!("expected a line number"),
    }
    match &pats[1] {
        Pattern::RegexMatch { expr, offset } => {
            assert_eq!(expr, &b"a".to_vec());
            assert_eq!(*offset, 2);
        },
        _ => panic!("expected a regex match"),
    }
    match &pats[2] {
        Pattern::SuppressedRegexMatch { expr, offset } => {
            assert_eq!(expr, &b"b".to_vec());
            assert_eq!(*offset, -1);
        },
        _ => panic!("expected a suppressed regex match"),
    }
    match &pats[3] {
        Pattern::Repeat { kind: RepeatKind::Bounded { count } } => assert_eq!(*count, 4),
        _ => panic!("expected a bounded repetition"),
    }
    match &pats[4] {
        Pattern::RegexMatch { expr, offset } => {
            assert_eq!(expr, &b"c".to_vec());
            assert_eq!(*offset, 0);
        },
        _ => panic!("expected a regex match"),
    }
    match &pats[5] {
        Pattern::Repeat { kind: RepeatKind::Unbounded } => {},
        _ => panic!("expected an unbounded repetition"),
    }
}

#[test]
fn test_parse_expression_may_hold_the_delimiter() {
    // The closing delimiter is the last one: earlier ones belong to the
    // expression.
    let pats = match parse_patterns(&toks(&["/a/b/"])) {
        Ok(p) => p,
        Err(_) => panic!("pattern list was rejected"),
    };
    match &pats[0] {
        Pattern::RegexMatch { expr, offset } => {
            assert_eq!(expr, &b"a/b".to_vec());
            assert_eq!(*offset, 0);
        },
        _ => panic!("expected a regex match"),
    }
}

#[test]
fn test_fmt_decimal() {
    assert_eq!(fmt_usize(0), b"0".to_vec());
    assert_eq!(fmt_usize(7), b"7".to_vec());
    assert_eq!(fmt_usize(10), b"10".to_vec());
    assert_eq!(fmt_usize(1234567890), b"1234567890".to_vec());
}

#[test]
fn test_report_rendering() {
    assert_eq!(render_report(&vec![43, 57, 31, 14], false), b"43\n57\n31\n14\n".to_vec());
    assert_eq!(render_report(&vec![0], false), b"0\n".to_vec());
    assert_eq!(render_report(&Vec::new(), false), Vec::<u8>::new());
    assert_eq!(render_report(&vec![43, 57], true), Vec::<u8>::new());
}

#[test]
fn test_destination_sizes_follow_bytes() {
    let bytes = b"aa\nb\ncc\n".to_vec();
    let src = LineSource::new(&bytes);
    let o = match csplit_core::execute(&src, &toks(&["/b/", "/cc/"])) {
        Ok(o) => o,
        Err(_) => panic!("patterns were rejected"),
    };
    let sizes = destination_sizes(&o.destinations);
    assert_eq!(sizes, o.report);
    assert_eq!(sizes, vec![3, 2, 3]);
}
