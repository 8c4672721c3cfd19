//! Whole-engine scenarios: line numbers, regex matches with offsets,
//! suppression, repetition, the loop guard, and empty input.

use csplit_core::execute;
use csplit_core::pattern::SplitError;
use csplit_core::report::render_report;
use csplit_core::source::LineSource;
use csplit_core::SplitOutcome;

fn toks(ts: &[&str]) -> Vec<Vec<u8>> {
    ts.iter().map(|s| s.as_bytes().to_vec()).collect()
}

fn run(input: &str, ts: &[&str]) -> SplitOutcome {
    let bytes = input.as_bytes().to_vec();
    let src = LineSource::new(&bytes);
    match execute(&src, &toks(ts)) {
        Ok(o) => o,
        Err(_) => panic!("patterns were rejected"),
    }
}

fn line_of(len: usize) -> String {
    let mut s = "x".repeat(len - 1);
    s.push('\n');
    s
}

#[test]
fn test_split_by_line_numbers_scenario() {
    // 17 lines, split before lines 5, 10 and 15: four segments whose byte
    // sizes are 43, 57, 31 and 14, on four destinations numbered 0 to 3.
    let lens: [usize; 17] = [10, 11, 11, 11, 11, 11, 11, 12, 12, 6, 6, 6, 6, 7, 4, 5, 5];
    let mut input = String::new();
    for l in lens.iter() {
        input.push_str(&line_of(*l));
    }
    let o = run(&input, &["5", "10", "15"]);
    assert_eq!(o.segments.len(), 4);
    assert_eq!(o.destinations.len(), 4);
    assert_eq!(o.report, vec![43, 57, 31, 14]);
    let bounds: Vec<(usize, usize)> = o.segments.iter().map(|s| (s.lo, s.hi)).collect();
    assert_eq!(bounds, vec![(0, 4), (4, 9), (9, 14), (14, 17)]);
    assert!(o.segments.iter().all(|s| !s.suppressed));
    assert_eq!(render_report(&o.report, false), b"43\n57\n31\n14\n".to_vec());
    assert_eq!(render_report(&o.report, true), Vec::<u8>::new());
}

#[test]
fn test_suppressed_segment_consumes_no_destination() {
    // A suppressed pattern followed by two non-suppressed ones: exactly as
    // many destinations as non-suppressed patterns, and the discarded
    // leading segment takes no destination index and no report line.
    let input = "aa\nb\ncc\nd\nee\nf\n";
    let o = run(input, &["%b%", "/d/", "/f/+1"]);
    assert_eq!(o.segments.len(), 3);
    assert!(o.segments[0].suppressed);
    assert_eq!((o.segments[0].lo, o.segments[0].hi), (0, 1));
    assert_eq!(o.destinations.len(), 2);
    assert_eq!(o.destinations[0].bytes, b"b\ncc\n".to_vec());
    assert_eq!(o.destinations[1].bytes, b"d\nee\nf\n".to_vec());
    assert_eq!(o.report, vec![5, 7]);
}

#[test]
fn test_empty_input_yields_nothing() {
    for ts in [
        &["5"][..],
        &["/a/", "{*}"][..],
        &["%x%-2", "{3}"][..],
        &["1", "/end/+7"][..],
    ] {
        let o = run("", ts);
        assert_eq!(o.segments.len(), 0);
        assert_eq!(o.destinations.len(), 0);
        assert_eq!(o.report, Vec::<usize>::new());
        assert_eq!(render_report(&o.report, false), Vec::<u8>::new());
    }
}

#[test]
fn test_unbounded_repeat_with_stuck_offset_terminates() {
    // The offset drags every cut back to the previous one: the explicit
    // pattern yields one legal empty segment, the unbounded repetition
    // stops at once, and the tail carries the whole input.
    let o = run("a\n", &["/a/-1", "{*}"]);
    assert_eq!(o.segments.len(), 2);
    assert_eq!((o.segments[0].lo, o.segments[0].hi), (0, 0));
    assert_eq!((o.segments[1].lo, o.segments[1].hi), (0, 1));
    assert_eq!(o.report, vec![0, 2]);
}

#[test]
fn test_unbounded_repeat_guard_on_later_match() {
    // The repetition finds a further match but its cut cannot advance: the
    // guard ends it without emitting, and tail handling takes over.
    let o = run("a\na\na\n", &["/a/-1", "{*}"]);
    assert_eq!(o.segments.len(), 2);
    assert_eq!((o.segments[0].lo, o.segments[0].hi), (0, 0));
    assert_eq!((o.segments[1].lo, o.segments[1].hi), (0, 3));
    assert_eq!(o.report, vec![0, 6]);
}

#[test]
fn test_bounded_repeat_may_emit_stalled_segments() {
    // Unlike the unbounded form, a bounded repetition is allowed to emit
    // zero-length, stalled segments up to its count.
    let o = run("a\na\n", &["/a/-1", "{2}"]);
    let bounds: Vec<(usize, usize)> = o.segments.iter().map(|s| (s.lo, s.hi)).collect();
    assert_eq!(bounds, vec![(0, 0), (0, 0), (0, 2)]);
    assert_eq!(o.report, vec![0, 0, 4]);
}

#[test]
fn test_repeat_splits_at_every_empty_line() {
    let input = "ab\ncd\n\nef\n\ngh\n";
    let o = run(input, &["/^$/", "{*}"]);
    assert_eq!(o.report, vec![6, 4, 4]);
    assert_eq!(o.destinations[0].bytes, b"ab\ncd\n".to_vec());
    assert_eq!(o.destinations[1].bytes, b"\nef\n".to_vec());
    assert_eq!(o.destinations[2].bytes, b"\ngh\n".to_vec());
}

#[test]
fn test_repeat_with_positive_offset() {
    let o = run("ab\ncd\n\nef\n\ngh\n", &["/^$/1", "{*}"]);
    assert_eq!(o.report, vec![7, 4, 3]);
}

#[test]
fn test_repeat_with_negative_offset() {
    let o = run("ab\ncd\n\nef\n\ngh\n", &["/^$/-1", "{*}"]);
    assert_eq!(o.report, vec![3, 4, 7]);
}

#[test]
fn test_bounded_repeat_stops_at_count() {
    // Four empty-line boundaries available, but the count takes only two.
    let input = "a\n\nb\n\nc\n\nd\n\ne\n";
    let o = run(input, &["/^$/", "{1}"]);
    // Cuts at lines 1 and 3; tail covers the rest.
    assert_eq!(o.report, vec![2, 3, 9]);
}

#[test]
fn test_regex_without_match_falls_through_to_tail() {
    // The second pattern never matches: it and everything after it are
    // abandoned, and one final segment carries the remaining input.
    let o = run("a\nb\nc\nd\n", &["/b/", "/zzz/", "/c/"]);
    assert_eq!(o.report, vec![2, 6]);
    assert_eq!(o.destinations[1].bytes, b"b\nc\nd\n".to_vec());
}

#[test]
fn test_line_number_past_end_is_clamped() {
    let o = run("a\nb\n", &["9"]);
    assert_eq!(o.report, vec![4]);
    assert_eq!(o.segments.len(), 1);
}

#[test]
fn test_rerun_is_identical() {
    // Same input, same pattern list, clean destination namespace: the
    // destinations are byte-identical and the report is the same.
    let input = "ab\ncd\n\nef\n\ngh\n";
    let ts = ["/^$/", "{*}"];
    let first = run(input, &ts);
    let second = run(input, &ts);
    assert_eq!(first.report, second.report);
    assert_eq!(first.destinations.len(), second.destinations.len());
    for (d1, d2) in first.destinations.iter().zip(second.destinations.iter()) {
        assert_eq!(d1.bytes, d2.bytes);
        assert_eq!((d1.lo, d1.hi), (d2.lo, d2.hi));
    }
}

#[test]
fn test_segments_reconstruct_input() {
    // Suppressed and non-suppressed segments together cover the whole
    // input, in order, with nothing dropped and nothing duplicated.
    let input = "aa\nb\ncc\nd\nee\nf\n";
    let bytes = input.as_bytes().to_vec();
    let src = LineSource::new(&bytes);
    let o = match execute(&src, &toks(&["%b%", "/d/-1", "{9}"])) {
        Ok(o) => o,
        Err(_) => panic!("patterns were rejected"),
    };
    let mut rebuilt: Vec<u8> = Vec::new();
    let mut at = 0;
    for s in o.segments.iter() {
        assert_eq!(s.lo, at);
        let mut piece = src.segment_bytes(s.lo, s.hi);
        rebuilt.append(&mut piece);
        at = s.hi;
    }
    assert_eq!(at, 6);
    assert_eq!(rebuilt, bytes);
}

#[test]
fn test_invalid_patterns_produce_no_outcome() {
    let bytes = b"a\nb\n".to_vec();
    let src = LineSource::new(&bytes);
    for ts in [
        &["{3}"][..],             // repetition with nothing to repeat
        &["5", "{2}"][..],        // repetition after a line number
        &["/a/", "{*}", "{2}"][..], // repetition after a repetition
        &["5", "3"][..],          // line numbers out of order
        &["7", "7"][..],          // line numbers not strictly increasing
        &["0"][..],               // non-positive line number
        &["/(/"][..],             // regex that does not compile
        &["/a"][..],              // no closing delimiter
        &["abc"][..],             // no pattern shape at all
        &["/a/x"][..],            // malformed offset
        &[""][..],                // empty token
        &["{}"][..],              // empty repetition count
    ] {
        match execute(&src, &toks(ts)) {
            Err(e) => assert!(e == SplitError::InvalidPattern),
            Ok(_) => panic!("pattern list was accepted"),
        }
    }
}
