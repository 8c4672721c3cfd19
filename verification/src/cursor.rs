//! The split cursor: the stateful engine that walks the line source under a
//! sequence of patterns, computing cut points and yielding segments.
//!
//! The cursor keeps two positions: `prev`, the last committed cut point, and
//! `search`, the first line the next regex scan examines (one past the last
//! matched line, or the cut point, whichever is further). A resolved cut is
//! clamped to `[prev, line count]`, so an offset can produce an empty
//! segment but never revisit an already-emitted one. During an unbounded
//! repetition, a cut that fails to advance past `prev` terminates the
//! repetition at once, without emitting a further segment — the loop guard
//! that bounds every run by the input length. Once the patterns are
//! exhausted, or a regex finds no further match, one final non-suppressed
//! segment covers whatever input remains.

use vstd::prelude::*;

use crate::pattern::{exprs_valid, pat_views, Pattern, PatternModel, RepeatKind};
use crate::rx::{regex_is_match, regex_matches, regex_valid};
use crate::source::{line_body, LineSource};

verus! {

/// A segment boundary resolved by the split cursor: the half-open line
/// range `[lo, hi)`, and whether the segment's content is to be discarded.
pub struct Segment {
    pub lo: usize,
    pub hi: usize,
    pub suppressed: bool,
}

/// The mathematical shape of a segment.
pub ghost struct SegmentModel {
    pub lo: int,
    pub hi: int,
    pub suppressed: bool,
}

impl View for Segment {
    type V = SegmentModel;

    open spec fn view(&self) -> SegmentModel {
        SegmentModel { lo: self.lo as int, hi: self.hi as int, suppressed: self.suppressed }
    }
}

pub open spec fn seg_views(segs: Seq<Segment>) -> Seq<SegmentModel> {
    segs.map_values(|s: Segment| s@)
}

/// A cut is confined to `[lo, hi]`: an offset that would move it before the
/// previous cut resolves to the previous cut, one past the end resolves to
/// the end.
pub open spec fn clamp_cut(x: int, lo: int, hi: int) -> int {
    if x < lo {
        lo
    } else if x > hi {
        hi
    } else {
        x
    }
}

/// Where the next regex scan starts after a match at `m` produced the cut
/// `cut`: the line after the match, or the cut itself when a positive
/// offset reached further.
pub open spec fn next_search(m: int, cut: int) -> int {
    if m + 1 > cut {
        m + 1
    } else {
        cut
    }
}

/// The final segment: whatever input remains past the last cut, never
/// suppressed; nothing when the input is already fully consumed.
pub open spec fn tail_segs(prev: int, n: int) -> Seq<SegmentModel> {
    if prev < n {
        seq![SegmentModel { lo: prev, hi: n, suppressed: false }]
    } else {
        Seq::empty()
    }
}

/// Index of the first line at or after `from` whose body matches `pat`.
pub open spec fn find_match(lines: Seq<Seq<u8>>, pat: Seq<u8>, from: int) -> Option<int>
    decreases lines.len() - from,
{
    if from < 0 || from >= lines.len() {
        None
    } else if regex_matches(pat, line_body(lines[from])) {
        Some(from)
    } else {
        find_match(lines, pat, from + 1)
    }
}

pub proof fn lemma_find_match(lines: Seq<Seq<u8>>, pat: Seq<u8>, from: int)
    requires
        0 <= from,
    ensures
        match find_match(lines, pat, from) {
            Some(m) => from <= m < lines.len() && regex_matches(pat, line_body(lines[m]))
                && forall|k: int|
                from <= k < m ==> !regex_matches(pat, line_body(#[trigger] lines[k])),
            None => forall|k: int|
                from <= k < lines.len() ==> !regex_matches(pat, line_body(#[trigger] lines[k])),
        },
    decreases lines.len() - from,
{
    if from < lines.len() && !regex_matches(pat, line_body(lines[from])) {
        lemma_find_match(lines, pat, from + 1);
    }
}

/// Segments of an unbounded repetition of one regex pattern, and the cut
/// point it leaves behind. It ends when no further match exists, or — the
/// loop guard — as soon as a resolved cut fails to advance past the
/// previous one, emitting nothing for the non-progressing attempt.
pub open spec fn repeat_unbounded(
    lines: Seq<Seq<u8>>,
    expr: Seq<u8>,
    off: int,
    sup: bool,
    prev: int,
    search: int,
) -> (Seq<SegmentModel>, int)
    decreases lines.len() - search,
    when 0 <= search
    via repeat_unbounded_dec
{
    match find_match(lines, expr, search) {
        None => (Seq::empty(), prev),
        Some(m) => {
            let cut = clamp_cut(m + off, prev, lines.len() as int);
            if cut <= prev {
                (Seq::empty(), prev)
            } else {
                let r = repeat_unbounded(lines, expr, off, sup, cut, next_search(m, cut));
                (seq![SegmentModel { lo: prev, hi: cut, suppressed: sup }] + r.0, r.1)
            }
        },
    }
}

#[via_fn]
proof fn repeat_unbounded_dec(
    lines: Seq<Seq<u8>>,
    expr: Seq<u8>,
    off: int,
    sup: bool,
    prev: int,
    search: int,
) {
    lemma_find_match(lines, expr, search);
}

/// Segments of a bounded repetition of one regex pattern; also the cut
/// point and search position it leaves behind, and whether it ran out of
/// matches (abandoning the patterns that follow). A bounded repetition may
/// legitimately emit empty, stalled segments up to its count.
pub open spec fn repeat_bounded(
    lines: Seq<Seq<u8>>,
    expr: Seq<u8>,
    off: int,
    sup: bool,
    prev: int,
    search: int,
    count: int,
) -> (Seq<SegmentModel>, int, int, bool)
    decreases count,
{
    if count <= 0 {
        (Seq::empty(), prev, search, false)
    } else {
        match find_match(lines, expr, search) {
            None => (Seq::empty(), prev, search, true),
            Some(m) => {
                let cut = clamp_cut(m + off, prev, lines.len() as int);
                let r = repeat_bounded(
                    lines,
                    expr,
                    off,
                    sup,
                    cut,
                    next_search(m, cut),
                    count - 1,
                );
                (seq![SegmentModel { lo: prev, hi: cut, suppressed: sup }] + r.0, r.1, r.2, r.3)
            },
        }
    }
}

/// The regex-class pattern directly before position `i`, if any: the
/// pattern a repetition at `i` re-applies.
pub open spec fn prev_rx(pats: Seq<PatternModel>, i: int) -> Option<(Seq<u8>, int, bool)> {
    if i < 1 {
        None
    } else {
        match pats[i - 1] {
            PatternModel::Regex { expr, off, suppressed } => Some((expr, off, suppressed)),
            _ => None,
        }
    }
}

/// The segments the cursor emits from pattern `i` on, starting at cut point
/// `prev` with the regex scan at `search`. A regex pattern without a match
/// abandons the remaining patterns; an unbounded repetition always ends in
/// tail handling; a repetition without a preceding regex-class pattern is
/// never produced by the parser and is passed over.
pub open spec fn run_from(
    lines: Seq<Seq<u8>>,
    pats: Seq<PatternModel>,
    i: int,
    prev: int,
    search: int,
) -> Seq<SegmentModel>
    decreases pats.len() - i,
{
    let n = lines.len() as int;
    if i < 0 || i >= pats.len() {
        tail_segs(prev, n)
    } else {
        match pats[i] {
            PatternModel::LineNumber { n: ln } => {
                let cut = clamp_cut(ln - 1, prev, n);
                let s2 = if search > cut {
                    search
                } else {
                    cut
                };
                seq![SegmentModel { lo: prev, hi: cut, suppressed: false }] + run_from(
                    lines,
                    pats,
                    i + 1,
                    cut,
                    s2,
                )
            },
            PatternModel::Regex { expr, off, suppressed } => {
                match find_match(lines, expr, search) {
                    None => tail_segs(prev, n),
                    Some(m) => {
                        let cut = clamp_cut(m + off, prev, n);
                        seq![SegmentModel { lo: prev, hi: cut, suppressed }] + run_from(
                            lines,
                            pats,
                            i + 1,
                            cut,
                            next_search(m, cut),
                        )
                    },
                }
            },
            PatternModel::RepeatBounded { count } => {
                match prev_rx(pats, i) {
                    Some(rx) => {
                        let r = repeat_bounded(lines, rx.0, rx.1, rx.2, prev, search, count);
                        if r.3 {
                            r.0 + tail_segs(r.1, n)
                        } else {
                            r.0 + run_from(lines, pats, i + 1, r.1, r.2)
                        }
                    },
                    None => run_from(lines, pats, i + 1, prev, search),
                }
            },
            PatternModel::RepeatUnbounded => {
                match prev_rx(pats, i) {
                    Some(rx) => {
                        let r = repeat_unbounded(lines, rx.0, rx.1, rx.2, prev, search);
                        r.0 + tail_segs(r.1, n)
                    },
                    None => run_from(lines, pats, i + 1, prev, search),
                }
            },
        }
    }
}

/// Every segment of a whole run: empty input yields no segments at all.
pub open spec fn split_spec(lines: Seq<Seq<u8>>, pats: Seq<PatternModel>) -> Seq<SegmentModel> {
    if lines.len() == 0 {
        Seq::empty()
    } else {
        run_from(lines, pats, 0, 0, 0)
    }
}

/// Scan forward from `start` for the first line whose body matches `expr`.
fn find_from(src: &LineSource, expr: &Vec<u8>, start: usize) -> (r: Option<usize>)
    requires
        regex_valid(expr@),
    ensures
        match r {
            Some(m) => find_match(src@, expr@, start as int) == Some(m as int),
            None => find_match(src@, expr@, start as int) is None,
        },
{
    let n = src.line_count();
    let mut i = start;
    if i >= n {
        return None;
    }
    while i < n
        invariant
            start <= i <= n,
            n == src@.len(),
            regex_valid(expr@),
            find_match(src@, expr@, start as int) == find_match(src@, expr@, i as int),
        decreases n - i,
    {
        if regex_is_match(expr.as_slice(), src.body_of(i)) {
            return Some(i);
        }
        i += 1;
    }
    None
}

/// Confine a raw cut position to `[prev, n]`.
fn clamp_exec(raw: i128, prev: usize, n: usize) -> (c: usize)
    requires
        prev <= n,
    ensures
        c as int == clamp_cut(raw as int, prev as int, n as int),
        prev <= c <= n,
{
    if raw <= prev as i128 {
        prev
    } else if raw >= n as i128 {
        n
    } else {
        raw as usize
    }
}

/// One unbounded repetition run, as `repeat_unbounded` describes it.
fn run_repeat_unbounded(
    src: &LineSource,
    expr: &Vec<u8>,
    off: i64,
    sup: bool,
    prev0: usize,
    search0: usize,
) -> (r: (Vec<Segment>, usize))
    requires
        regex_valid(expr@),
        prev0 <= src@.len(),
        search0 <= src@.len(),
    ensures
        ({
            let g = repeat_unbounded(src@, expr@, off as int, sup, prev0 as int, search0 as int);
            seg_views(r.0@) == g.0 && r.1 as int == g.1 && r.1 <= src@.len()
        }),
{
    let ghost target = repeat_unbounded(src@, expr@, off as int, sup, prev0 as int, search0 as int);
    let n = src.line_count();
    let mut out: Vec<Segment> = Vec::new();
    let mut prev = prev0;
    let mut search = search0;
    proof {
        assert(seg_views(out@) + target.0 =~= target.0);
    }
    loop
        invariant
            regex_valid(expr@),
            n == src@.len(),
            prev <= n,
            search <= n,
            target == repeat_unbounded(src@, expr@, off as int, sup, prev0 as int, search0 as int),
            ({
                let g = repeat_unbounded(src@, expr@, off as int, sup, prev as int, search as int);
                target.0 == seg_views(out@) + g.0 && target.1 == g.1
            }),
        decreases n - search,
    {
        let ghost g = repeat_unbounded(src@, expr@, off as int, sup, prev as int, search as int);
        match find_from(src, expr, search) {
            None => {
                proof {
                    assert(g.0 =~= Seq::<SegmentModel>::empty());
                    assert(g.1 == prev as int);
                    assert(seg_views(out@) + g.0 =~= seg_views(out@));
                    assert(target.0 == seg_views(out@));
                    assert(target.1 == prev as int);
                }
                return (out, prev);
            },
            Some(m) => {
                proof {
                    lemma_find_match(src@, expr@, search as int);
                }
                let cut = clamp_exec(m as i128 + off as i128, prev, n);
                if cut <= prev {
                    proof {
                        assert(g.0 =~= Seq::<SegmentModel>::empty());
                        assert(g.1 == prev as int);
                        assert(seg_views(out@) + g.0 =~= seg_views(out@));
                        assert(target.0 == seg_views(out@));
                        assert(target.1 == prev as int);
                    }
                    return (out, prev);
                }
                let s2 = if m + 1 > cut {
                    m + 1
                } else {
                    cut
                };
                let ghost pre = seg_views(out@);
                out.push(Segment { lo: prev, hi: cut, suppressed: sup });
                proof {
                    let gm = SegmentModel { lo: prev as int, hi: cut as int, suppressed: sup };
                    let g2 = repeat_unbounded(
                        src@,
                        expr@,
                        off as int,
                        sup,
                        cut as int,
                        s2 as int,
                    );
                    assert(g.0 == seq![gm] + g2.0 && g.1 == g2.1);
                    assert(seg_views(out@) =~= pre.push(gm));
                    assert(pre + (seq![gm] + g2.0) =~= pre.push(gm) + g2.0);
                }
                prev = cut;
                search = s2;
            },
        }
    }
}

/// One bounded repetition run, as `repeat_bounded` describes it.
fn run_repeat_bounded(
    src: &LineSource,
    expr: &Vec<u8>,
    off: i64,
    sup: bool,
    prev0: usize,
    search0: usize,
    count: u64,
) -> (r: (Vec<Segment>, usize, usize, bool))
    requires
        regex_valid(expr@),
        prev0 <= src@.len(),
        search0 <= src@.len(),
    ensures
        ({
            let g = repeat_bounded(
                src@,
                expr@,
                off as int,
                sup,
                prev0 as int,
                search0 as int,
                count as int,
            );
            seg_views(r.0@) == g.0 && r.1 as int == g.1 && r.2 as int == g.2 && r.3 == g.3 && r.1
                <= src@.len() && r.2 <= src@.len()
        }),
{
    let ghost target = repeat_bounded(
        src@,
        expr@,
        off as int,
        sup,
        prev0 as int,
        search0 as int,
        count as int,
    );
    let n = src.line_count();
    let mut out: Vec<Segment> = Vec::new();
    let mut prev = prev0;
    let mut search = search0;
    let mut left = count;
    proof {
        assert(seg_views(out@) + target.0 =~= target.0);
    }
    while left > 0
        invariant
            regex_valid(expr@),
            n == src@.len(),
            prev <= n,
            search <= n,
            left <= count,
            target == repeat_bounded(
                src@,
                expr@,
                off as int,
                sup,
                prev0 as int,
                search0 as int,
                count as int,
            ),
            ({
                let g = repeat_bounded(
                    src@,
                    expr@,
                    off as int,
                    sup,
                    prev as int,
                    search as int,
                    left as int,
                );
                target.0 == seg_views(out@) + g.0 && target.1 == g.1 && target.2 == g.2
                    && target.3 == g.3
            }),
        decreases left,
    {
        let ghost g = repeat_bounded(
            src@,
            expr@,
            off as int,
            sup,
            prev as int,
            search as int,
            left as int,
        );
        match find_from(src, expr, search) {
            None => {
                proof {
                    assert(g.0 =~= Seq::<SegmentModel>::empty());
                    assert(g.1 == prev as int && g.2 == search as int && g.3 == true);
                    assert(seg_views(out@) + g.0 =~= seg_views(out@));
                    assert(target.0 == seg_views(out@));
                }
                return (out, prev, search, true);
            },
            Some(m) => {
                proof {
                    lemma_find_match(src@, expr@, search as int);
                }
                let cut = clamp_exec(m as i128 + off as i128, prev, n);
                let s2 = if m + 1 > cut {
                    m + 1
                } else {
                    cut
                };
                let ghost pre = seg_views(out@);
                out.push(Segment { lo: prev, hi: cut, suppressed: sup });
                proof {
                    let gm = SegmentModel { lo: prev as int, hi: cut as int, suppressed: sup };
                    let g2 = repeat_bounded(
                        src@,
                        expr@,
                        off as int,
                        sup,
                        cut as int,
                        s2 as int,
                        left as int - 1,
                    );
                    assert(g.0 == seq![gm] + g2.0 && g.1 == g2.1 && g.2 == g2.2 && g.3 == g2.3);
                    assert(seg_views(out@) =~= pre.push(gm));
                    assert(pre + (seq![gm] + g2.0) =~= pre.push(gm) + g2.0);
                }
                prev = cut;
                search = s2;
                left -= 1;
            },
        }
    }
    proof {
        let g = repeat_bounded(src@, expr@, off as int, sup, prev as int, search as int, 0);
        assert(seg_views(out@) + g.0 =~= seg_views(out@));
    }
    (out, prev, search, false)
}

/// Walk the line source under the pattern list and return every segment, in
/// emission order, exactly as `split_spec` describes.
pub fn split(src: &LineSource, pats: &Vec<Pattern>) -> (segs: Vec<Segment>)
    requires
        exprs_valid(pat_views(pats@)),
    ensures
        seg_views(segs@) == split_spec(src@, pat_views(pats@)),
{
    let ghost gl = src@;
    let ghost gp = pat_views(pats@);
    let n = src.line_count();
    let mut segs: Vec<Segment> = Vec::new();
    if n == 0 {
        proof {
            assert(seg_views(segs@) =~= split_spec(gl, gp));
        }
        return segs;
    }
    let mut prev: usize = 0;
    let mut search: usize = 0;
    let mut i: usize = 0;
    proof {
        assert(seg_views(segs@) + run_from(gl, gp, 0, 0, 0) =~= run_from(gl, gp, 0, 0, 0));
    }
    while i < pats.len()
        invariant
            n == gl.len(),
            gl == src@,
            gp == pat_views(pats@),
            pats@.len() == gp.len(),
            exprs_valid(gp),
            i <= pats@.len(),
            prev <= n,
            search <= n,
            n > 0,
            seg_views(segs@) + run_from(gl, gp, i as int, prev as int, search as int)
                == split_spec(gl, gp),
        decreases pats@.len() - i,
    {
        let ghost pre = seg_views(segs@);
        let ghost rest = run_from(gl, gp, i as int, prev as int, search as int);
        proof {
            assert(gp[i as int] == pats@[i as int]@);
        }
        match &pats[i] {
            Pattern::LineNumber { n: ln } => {
                let cut = clamp_exec(*ln as i128 - 1, prev, n);
                let s2 = if search > cut {
                    search
                } else {
                    cut
                };
                segs.push(Segment { lo: prev, hi: cut, suppressed: false });
                proof {
                    let gm = SegmentModel { lo: prev as int, hi: cut as int, suppressed: false };
                    assert(rest == seq![gm] + run_from(gl, gp, i + 1, cut as int, s2 as int));
                    assert(seg_views(segs@) =~= pre.push(gm));
                    assert(pre + (seq![gm] + run_from(gl, gp, i + 1, cut as int, s2 as int))
                        =~= pre.push(gm) + run_from(gl, gp, i + 1, cut as int, s2 as int));
                }
                prev = cut;
                search = s2;
                i += 1;
            },
            Pattern::RegexMatch { expr, offset } => {
                match find_from(src, expr, search) {
                    None => {
                        proof {
                            assert(rest == tail_segs(prev as int, n as int));
                        }
                        if prev < n {
                            segs.push(Segment { lo: prev, hi: n, suppressed: false });
                            proof {
                                let gm = SegmentModel {
                                    lo: prev as int,
                                    hi: n as int,
                                    suppressed: false,
                                };
                                assert(seg_views(segs@) =~= pre.push(gm));
                                assert(pre + rest =~= pre.push(gm));
                            }
                        } else {
                            proof {
                                assert(pre + rest =~= pre);
                            }
                        }
                        return segs;
                    },
                    Some(m) => {
                        proof {
                            lemma_find_match(gl, expr@, search as int);
                        }
                        let cut = clamp_exec(m as i128 + *offset as i128, prev, n);
                        let s2 = if m + 1 > cut {
                            m + 1
                        } else {
                            cut
                        };
                        segs.push(Segment { lo: prev, hi: cut, suppressed: false });
                        proof {
                            let gm = SegmentModel {
                                lo: prev as int,
                                hi: cut as int,
                                suppressed: false,
                            };
                            let g2 = run_from(gl, gp, i + 1, cut as int, s2 as int);
                            assert(rest == seq![gm] + g2);
                            assert(seg_views(segs@) =~= pre.push(gm));
                            assert(pre + (seq![gm] + g2) =~= pre.push(gm) + g2);
                        }
                        prev = cut;
                        search = s2;
                        i += 1;
                    },
                }
            },
            Pattern::SuppressedRegexMatch { expr, offset } => {
                match find_from(src, expr, search) {
                    None => {
                        proof {
                            assert(rest == tail_segs(prev as int, n as int));
                        }
                        if prev < n {
                            segs.push(Segment { lo: prev, hi: n, suppressed: false });
                            proof {
                                let gm = SegmentModel {
                                    lo: prev as int,
                                    hi: n as int,
                                    suppressed: false,
                                };
                                assert(seg_views(segs@) =~= pre.push(gm));
                                assert(pre + rest =~= pre.push(gm));
                            }
                        } else {
                            proof {
                                assert(pre + rest =~= pre);
                            }
                        }
                        return segs;
                    },
                    Some(m) => {
                        proof {
                            lemma_find_match(gl, expr@, search as int);
                        }
                        let cut = clamp_exec(m as i128 + *offset as i128, prev, n);
                        let s2 = if m + 1 > cut {
                            m + 1
                        } else {
                            cut
                        };
                        segs.push(Segment { lo: prev, hi: cut, suppressed: true });
                        proof {
                            let gm = SegmentModel {
                                lo: prev as int,
                                hi: cut as int,
                                suppressed: true,
                            };
                            let g2 = run_from(gl, gp, i + 1, cut as int, s2 as int);
                            assert(rest == seq![gm] + g2);
                            assert(seg_views(segs@) =~= pre.push(gm));
                            assert(pre + (seq![gm] + g2) =~= pre.push(gm) + g2);
                        }
                        prev = cut;
                        search = s2;
                        i += 1;
                    },
                }
            },
            Pattern::Repeat { kind } => {
                let prior: Option<(&Vec<u8>, i64, bool)> = if i == 0 {
                    None
                } else {
                    match &pats[i - 1] {
                        Pattern::RegexMatch { expr, offset } => Some((expr, *offset, false)),
                        Pattern::SuppressedRegexMatch { expr, offset } => Some((
                            expr,
                            *offset,
                            true,
                        )),
                        _ => None,
                    }
                };
                proof {
                    if i > 0 {
                        assert(gp[i as int - 1] == pats@[i as int - 1]@);
                    }
                }
                match prior {
                    None => {
                        proof {
                            assert(prev_rx(gp, i as int) is None);
                            assert(rest == run_from(gl, gp, i + 1, prev as int, search as int));
                        }
                        i += 1;
                    },
                    Some((expr, off, sup)) => {
                        proof {
                            assert(prev_rx(gp, i as int) == Some((expr@, off as int, sup)));
                            assert(gp[i as int - 1] matches PatternModel::Regex { .. });
                            assert(regex_valid(expr@));
                        }
                        match kind {
                            RepeatKind::Bounded { count } => {
                                let (mut add, p2, s2, ab) = run_repeat_bounded(
                                    src,
                                    expr,
                                    off,
                                    sup,
                                    prev,
                                    search,
                                    *count,
                                );
                                let ghost g = repeat_bounded(
                                    gl,
                                    expr@,
                                    off as int,
                                    sup,
                                    prev as int,
                                    search as int,
                                    *count as int,
                                );
                                segs.append(&mut add);
                                proof {
                                    assert(seg_views(segs@) =~= pre + g.0);
                                }
                                if ab {
                                    proof {
                                        assert(rest == g.0 + tail_segs(p2 as int, n as int));
                                    }
                                    if p2 < n {
                                        let ghost pre2 = seg_views(segs@);
                                        segs.push(Segment { lo: p2, hi: n, suppressed: false });
                                        proof {
                                            let gm = SegmentModel {
                                                lo: p2 as int,
                                                hi: n as int,
                                                suppressed: false,
                                            };
                                            assert(seg_views(segs@) =~= pre2.push(gm));
                                            assert(pre + rest =~= pre2.push(gm));
                                        }
                                    } else {
                                        proof {
                                            assert(pre + rest =~= seg_views(segs@));
                                        }
                                    }
                                    return segs;
                                } else {
                                    proof {
                                        assert(rest == g.0 + run_from(
                                            gl,
                                            gp,
                                            i + 1,
                                            p2 as int,
                                            s2 as int,
                                        ));
                                        assert(pre + rest =~= seg_views(segs@) + run_from(
                                            gl,
                                            gp,
                                            i + 1,
                                            p2 as int,
                                            s2 as int,
                                        ));
                                    }
                                    prev = p2;
                                    search = s2;
                                    i += 1;
                                }
                            },
                            RepeatKind::Unbounded => {
                                let (mut add, p2) = run_repeat_unbounded(
                                    src,
                                    expr,
                                    off,
                                    sup,
                                    prev,
                                    search,
                                );
                                let ghost g = repeat_unbounded(
                                    gl,
                                    expr@,
                                    off as int,
                                    sup,
                                    prev as int,
                                    search as int,
                                );
                                segs.append(&mut add);
                                proof {
                                    assert(seg_views(segs@) =~= pre + g.0);
                                    assert(rest == g.0 + tail_segs(p2 as int, n as int));
                                }
                                if p2 < n {
                                    let ghost pre2 = seg_views(segs@);
                                    segs.push(Segment { lo: p2, hi: n, suppressed: false });
                                    proof {
                                        let gm = SegmentModel {
                                            lo: p2 as int,
                                            hi: n as int,
                                            suppressed: false,
                                        };
                                        assert(seg_views(segs@) =~= pre2.push(gm));
                                        assert(pre + rest =~= pre2.push(gm));
                                    }
                                } else {
                                    proof {
                                        assert(pre + rest =~= seg_views(segs@));
                                    }
                                }
                                return segs;
                            },
                        }
                    },
                }
            },
        }
    }
    let ghost pre = seg_views(segs@);
    proof {
        assert(run_from(gl, gp, i as int, prev as int, search as int) == tail_segs(
            prev as int,
            n as int,
        ));
    }
    if prev < n {
        segs.push(Segment { lo: prev, hi: n, suppressed: false });
        proof {
            let gm = SegmentModel { lo: prev as int, hi: n as int, suppressed: false };
            assert(seg_views(segs@) =~= pre.push(gm));
            assert(pre + tail_segs(prev as int, n as int) =~= pre.push(gm));
        }
    } else {
        proof {
            assert(pre + tail_segs(prev as int, n as int) =~= pre);
        }
    }
    segs
}

} // verus!
