//! What holds of every run of the engine: the segments partition the
//! input, destinations match the non-suppressed segments one for one, a
//! re-run is identical, a non-progressing unbounded repetition stops at
//! once, and empty input produces nothing.

use vstd::prelude::*;

use crate::cursor::{
    clamp_cut, find_match, lemma_find_match, next_search, prev_rx, repeat_bounded,
    repeat_unbounded, run_from, split_spec, tail_segs, SegmentModel,
};
use crate::pattern::PatternModel;
use crate::report::report_sizes;
use crate::sink::{segs_wf, sink_spec, DestinationModel};
use crate::source::concat_range;

verus! {

/// The segments `segs` run back to back: the first starts at cut point
/// `prev`, each next one starts where the previous ended, and the last
/// ends at `fin`, all within an input of `n` lines.
pub open spec fn chain_to(segs: Seq<SegmentModel>, prev: int, fin: int, n: int) -> bool
    decreases segs.len(),
{
    if segs.len() == 0 {
        prev == fin && 0 <= fin <= n
    } else {
        &&& segs[0].lo == prev
        &&& 0 <= prev <= segs[0].hi <= n
        &&& chain_to(segs.drop_first(), segs[0].hi, fin, n)
    }
}

/// What a chain gives elementwise: bounds, the endpoints, and adjacency.
proof fn lemma_chain_props(segs: Seq<SegmentModel>, prev: int, fin: int, n: int)
    requires
        chain_to(segs, prev, fin, n),
    ensures
        prev <= fin <= n,
        0 <= prev,
        segs_wf(segs, n),
        segs.len() > 0 ==> segs[0].lo == prev && segs[segs.len() - 1].hi == fin,
        forall|k: int| 0 <= k < segs.len() - 1 ==> (#[trigger] segs[k]).hi == segs[k + 1].lo,
        forall|k: int| 0 <= k < segs.len() ==> prev <= (#[trigger] segs[k]).lo,
    decreases segs.len(),
{
    if segs.len() > 0 {
        reveal_with_fuel(chain_to, 2);
        let rest = segs.drop_first();
        lemma_chain_props(rest, segs[0].hi, fin, n);
        assert forall|k: int| 0 <= k < segs.len() implies 0 <= (#[trigger] segs[k]).lo
            <= segs[k].hi <= n && prev <= segs[k].lo by {
            if k > 0 {
                assert(rest[k - 1] == segs[k]);
            }
        }
        assert forall|k: int| 0 <= k < segs.len() - 1 implies (#[trigger] segs[k]).hi == segs[k
            + 1].lo by {
            if k > 0 {
                assert(rest[k - 1] == segs[k] && rest[k] == segs[k + 1]);
            } else {
                if segs.len() > 1 {
                    assert(rest[0] == segs[1]);
                }
            }
        }
        if segs.len() > 1 {
            assert(segs[segs.len() - 1] == rest[rest.len() - 1]);
        }
    }
}

proof fn lemma_chain_single(s: SegmentModel, n: int)
    requires
        0 <= s.lo <= s.hi <= n,
    ensures
        chain_to(seq![s], s.lo, s.hi, n),
{
    reveal_with_fuel(chain_to, 2);
    assert(seq![s].drop_first() =~= Seq::<SegmentModel>::empty());
}

proof fn lemma_chain_concat(
    a: Seq<SegmentModel>,
    b: Seq<SegmentModel>,
    prev: int,
    mid: int,
    fin: int,
    n: int,
)
    requires
        chain_to(a, prev, mid, n),
        chain_to(b, mid, fin, n),
    ensures
        chain_to(a + b, prev, fin, n),
    decreases a.len(),
{
    if a.len() == 0 {
        assert(a + b =~= b);
    } else {
        lemma_chain_concat(a.drop_first(), b, a[0].hi, mid, fin, n);
        assert((a + b).drop_first() =~= a.drop_first() + b);
        assert((a + b)[0] == a[0]);
    }
}

proof fn lemma_tail_chain(prev: int, n: int)
    requires
        0 <= prev <= n,
    ensures
        chain_to(tail_segs(prev, n), prev, n, n),
{
    if prev < n {
        lemma_chain_single(SegmentModel { lo: prev, hi: n, suppressed: false }, n);
    }
}

proof fn lemma_repeat_unbounded_chain(
    lines: Seq<Seq<u8>>,
    expr: Seq<u8>,
    off: int,
    sup: bool,
    prev: int,
    search: int,
)
    requires
        0 <= prev <= lines.len(),
        0 <= search,
    ensures
        ({
            let r = repeat_unbounded(lines, expr, off, sup, prev, search);
            chain_to(r.0, prev, r.1, lines.len() as int)
        }),
    decreases lines.len() - search,
{
    let n = lines.len() as int;
    lemma_find_match(lines, expr, search);
    match find_match(lines, expr, search) {
        None => {},
        Some(m) => {
            let cut = clamp_cut(m + off, prev, n);
            if cut > prev {
                let s2 = next_search(m, cut);
                lemma_repeat_unbounded_chain(lines, expr, off, sup, cut, s2);
                let r2 = repeat_unbounded(lines, expr, off, sup, cut, s2);
                let s0 = SegmentModel { lo: prev, hi: cut, suppressed: sup };
                lemma_chain_single(s0, n);
                lemma_chain_concat(seq![s0], r2.0, prev, cut, r2.1, n);
            }
        },
    }
}

proof fn lemma_repeat_bounded_chain(
    lines: Seq<Seq<u8>>,
    expr: Seq<u8>,
    off: int,
    sup: bool,
    prev: int,
    search: int,
    count: int,
)
    requires
        0 <= prev <= lines.len(),
        0 <= search,
    ensures
        ({
            let r = repeat_bounded(lines, expr, off, sup, prev, search, count);
            chain_to(r.0, prev, r.1, lines.len() as int) && 0 <= r.2
        }),
    decreases count,
{
    let n = lines.len() as int;
    if count > 0 {
        lemma_find_match(lines, expr, search);
        match find_match(lines, expr, search) {
            None => {},
            Some(m) => {
                let cut = clamp_cut(m + off, prev, n);
                let s2 = next_search(m, cut);
                lemma_repeat_bounded_chain(lines, expr, off, sup, cut, s2, count - 1);
                let r2 = repeat_bounded(lines, expr, off, sup, cut, s2, count - 1);
                let s0 = SegmentModel { lo: prev, hi: cut, suppressed: sup };
                lemma_chain_single(s0, n);
                lemma_chain_concat(seq![s0], r2.0, prev, cut, r2.1, n);
            },
        }
    }
}

proof fn lemma_run_from_chain(
    lines: Seq<Seq<u8>>,
    pats: Seq<PatternModel>,
    i: int,
    prev: int,
    search: int,
)
    requires
        0 <= prev <= lines.len(),
        0 <= search,
    ensures
        chain_to(
            run_from(lines, pats, i, prev, search),
            prev,
            lines.len() as int,
            lines.len() as int,
        ),
    decreases pats.len() - i,
{
    let n = lines.len() as int;
    if i < 0 || i >= pats.len() {
        lemma_tail_chain(prev, n);
    } else {
        match pats[i] {
            PatternModel::LineNumber { n: ln } => {
                let cut = clamp_cut(ln - 1, prev, n);
                let s2 = if search > cut {
                    search
                } else {
                    cut
                };
                lemma_run_from_chain(lines, pats, i + 1, cut, s2);
                let s0 = SegmentModel { lo: prev, hi: cut, suppressed: false };
                lemma_chain_single(s0, n);
                lemma_chain_concat(seq![s0], run_from(lines, pats, i + 1, cut, s2), prev, cut, n, n);
            },
            PatternModel::Regex { expr, off, suppressed } => {
                lemma_find_match(lines, expr, search);
                match find_match(lines, expr, search) {
                    None => {
                        lemma_tail_chain(prev, n);
                    },
                    Some(m) => {
                        let cut = clamp_cut(m + off, prev, n);
                        let s2 = next_search(m, cut);
                        lemma_run_from_chain(lines, pats, i + 1, cut, s2);
                        let s0 = SegmentModel { lo: prev, hi: cut, suppressed };
                        lemma_chain_single(s0, n);
                        lemma_chain_concat(
                            seq![s0],
                            run_from(lines, pats, i + 1, cut, s2),
                            prev,
                            cut,
                            n,
                            n,
                        );
                    },
                }
            },
            PatternModel::RepeatBounded { count } => {
                match prev_rx(pats, i) {
                    Some(rx) => {
                        lemma_repeat_bounded_chain(lines, rx.0, rx.1, rx.2, prev, search, count);
                        let r = repeat_bounded(lines, rx.0, rx.1, rx.2, prev, search, count);
                        lemma_chain_props(r.0, prev, r.1, n);
                        if r.3 {
                            lemma_tail_chain(r.1, n);
                            lemma_chain_concat(r.0, tail_segs(r.1, n), prev, r.1, n, n);
                        } else {
                            lemma_run_from_chain(lines, pats, i + 1, r.1, r.2);
                            lemma_chain_concat(
                                r.0,
                                run_from(lines, pats, i + 1, r.1, r.2),
                                prev,
                                r.1,
                                n,
                                n,
                            );
                        }
                    },
                    None => {
                        lemma_run_from_chain(lines, pats, i + 1, prev, search);
                    },
                }
            },
            PatternModel::RepeatUnbounded => {
                match prev_rx(pats, i) {
                    Some(rx) => {
                        lemma_repeat_unbounded_chain(lines, rx.0, rx.1, rx.2, prev, search);
                        let r = repeat_unbounded(lines, rx.0, rx.1, rx.2, prev, search);
                        lemma_chain_props(r.0, prev, r.1, n);
                        lemma_tail_chain(r.1, n);
                        lemma_chain_concat(r.0, tail_segs(r.1, n), prev, r.1, n, n);
                    },
                    None => {
                        lemma_run_from_chain(lines, pats, i + 1, prev, search);
                    },
                }
            },
        }
    }
}

/// The segments of a run — suppressed and non-suppressed alike — partition
/// the input's lines: they run back to back from line 0 to the end, with
/// nothing dropped and nothing duplicated, and there are none exactly when
/// the input is empty.
pub open spec fn is_partition(segs: Seq<SegmentModel>, n: int) -> bool {
    &&& (segs.len() == 0 <==> n == 0)
    &&& segs_wf(segs, n)
    &&& (segs.len() > 0 ==> segs[0].lo == 0 && segs[segs.len() - 1].hi == n)
    &&& forall|k: int| 0 <= k < segs.len() - 1 ==> (#[trigger] segs[k]).hi == segs[k + 1].lo
}

/// The concatenation of all segments' line ranges, in emission order,
/// reconstructs the input exactly.
pub proof fn lemma_split_partitions(lines: Seq<Seq<u8>>, pats: Seq<PatternModel>)
    ensures
        is_partition(split_spec(lines, pats), lines.len() as int),
{
    let segs = split_spec(lines, pats);
    if lines.len() == 0 {
    } else {
        lemma_run_from_chain(lines, pats, 0, 0, 0);
        lemma_chain_props(segs, 0, lines.len() as int, lines.len() as int);
        assert(segs.len() > 0);
    }
}

/// The bytes of the segments' line ranges, laid end to end in emission
/// order.
pub open spec fn segs_bytes(lines: Seq<Seq<u8>>, segs: Seq<SegmentModel>) -> Seq<u8>
    decreases segs.len(),
{
    if segs.len() == 0 {
        Seq::empty()
    } else {
        concat_range(lines, segs[0].lo, segs[0].hi) + segs_bytes(lines, segs.drop_first())
    }
}

proof fn lemma_concat_range_split(lines: Seq<Seq<u8>>, a: int, b: int, c: int)
    requires
        0 <= a <= b <= c <= lines.len(),
    ensures
        concat_range(lines, a, c) == concat_range(lines, a, b) + concat_range(lines, b, c),
    decreases b - a,
{
    if a == b {
        assert(concat_range(lines, a, b) =~= Seq::<u8>::empty());
        assert(concat_range(lines, a, c) =~= concat_range(lines, a, b) + concat_range(
            lines,
            b,
            c,
        ));
    } else {
        lemma_concat_range_split(lines, a + 1, b, c);
        assert(concat_range(lines, a, c) == lines[a] + concat_range(lines, a + 1, c));
        assert(lines[a] + (concat_range(lines, a + 1, b) + concat_range(lines, b, c)) =~= (
        lines[a] + concat_range(lines, a + 1, b)) + concat_range(lines, b, c));
    }
}

proof fn lemma_chain_bytes(lines: Seq<Seq<u8>>, segs: Seq<SegmentModel>, prev: int, fin: int)
    requires
        chain_to(segs, prev, fin, lines.len() as int),
    ensures
        segs_bytes(lines, segs) == concat_range(lines, prev, fin),
    decreases segs.len(),
{
    if segs.len() == 0 {
        assert(segs_bytes(lines, segs) =~= concat_range(lines, prev, fin));
    } else {
        let rest = segs.drop_first();
        lemma_chain_props(rest, segs[0].hi, fin, lines.len() as int);
        lemma_chain_bytes(lines, rest, segs[0].hi, fin);
        lemma_concat_range_split(lines, prev, segs[0].hi, fin);
    }
}

/// Byte-level reconstruction: the contents of all segments' line ranges,
/// in emission order, are exactly the whole input's bytes.
pub proof fn lemma_split_reconstructs(lines: Seq<Seq<u8>>, pats: Seq<PatternModel>)
    ensures
        segs_bytes(lines, split_spec(lines, pats)) == concat_range(lines, 0, lines.len() as int),
{
    if lines.len() == 0 {
        assert(segs_bytes(lines, split_spec(lines, pats)) =~= concat_range(
            lines,
            0,
            lines.len() as int,
        ));
    } else {
        lemma_run_from_chain(lines, pats, 0, 0, 0);
        lemma_chain_bytes(lines, split_spec(lines, pats), 0, lines.len() as int);
    }
}

/// The number of non-suppressed segments in `segs`.
pub open spec fn count_kept(segs: Seq<SegmentModel>) -> int
    decreases segs.len(),
{
    if segs.len() == 0 {
        0
    } else {
        count_kept(segs.drop_last()) + if segs.last().suppressed {
            0int
        } else {
            1int
        }
    }
}

/// Exactly one destination per non-suppressed segment, in emission order;
/// a destination's index is its position in the sink's output, so indices
/// are contiguous and start at 0, and suppressed segments consume none.
pub proof fn lemma_one_destination_per_kept_segment(lines: Seq<Seq<u8>>, segs: Seq<SegmentModel>)
    ensures
        sink_spec(lines, segs).len() == count_kept(segs),
        0 <= count_kept(segs) <= segs.len(),
    decreases segs.len(),
{
    if segs.len() > 0 {
        lemma_one_destination_per_kept_segment(lines, segs.drop_last());
    }
}

/// Re-running the engine on the same input and pattern list produces
/// byte-identical destinations and an identical report: the whole outcome
/// is a function of the input lines and the patterns alone.
pub proof fn lemma_rerun_identical(
    lines: Seq<Seq<u8>>,
    pats: Seq<PatternModel>,
    d1: Seq<DestinationModel>,
    d2: Seq<DestinationModel>,
)
    requires
        d1 == sink_spec(lines, split_spec(lines, pats)),
        d2 == sink_spec(lines, split_spec(lines, pats)),
    ensures
        d1 == d2,
        report_sizes(d1) == report_sizes(d2),
{
}

/// The loop guard: when the next match of an unbounded repetition resolves
/// to a cut that cannot advance past the previous one — or when no match
/// remains — the repetition ends at once, emitting nothing and leaving the
/// cut point untouched. An unbounded repetition therefore never scans past
/// the end of input more than once.
pub proof fn lemma_unbounded_repeat_stalls(
    lines: Seq<Seq<u8>>,
    expr: Seq<u8>,
    off: int,
    sup: bool,
    prev: int,
    search: int,
)
    requires
        0 <= search,
        match find_match(lines, expr, search) {
            Some(m) => clamp_cut(m + off, prev, lines.len() as int) <= prev,
            None => true,
        },
    ensures
        repeat_unbounded(lines, expr, off, sup, prev, search) == (
            Seq::<SegmentModel>::empty(),
            prev,
        ),
{
}

/// Empty input yields zero segments, zero destinations and an empty
/// report, whatever the pattern list.
pub proof fn lemma_empty_input(pats: Seq<PatternModel>)
    ensures
        split_spec(Seq::<Seq<u8>>::empty(), pats) == Seq::<SegmentModel>::empty(),
        sink_spec(Seq::<Seq<u8>>::empty(), split_spec(Seq::<Seq<u8>>::empty(), pats))
            == Seq::<DestinationModel>::empty(),
        report_sizes(
            sink_spec(Seq::<Seq<u8>>::empty(), split_spec(Seq::<Seq<u8>>::empty(), pats)),
        ) == Seq::<int>::empty(),
{
}

} // verus!
