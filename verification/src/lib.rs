//! A line/pattern-driven file-splitting engine: it partitions an input
//! text into a sequence of numbered segments according to a list of split
//! patterns (absolute line numbers, regular-expression matches with signed
//! offsets, and repetition operators), assigns each non-suppressed segment
//! the next numbered destination with exactly its line range's bytes, and
//! renders a report of the byte sizes, one per line.

pub mod cursor;
pub mod harness;
pub mod laws;
pub mod pattern;
pub mod report;
pub mod rx;
pub mod sink;
pub mod source;

use vstd::prelude::*;

use crate::cursor::{seg_views, split, split_spec, Segment};
use crate::laws::{is_partition, lemma_split_partitions};
use crate::pattern::{parse_patterns, parse_spec, pat_views, SplitError};
use crate::report::{destination_sizes, report_sizes, size_views};
use crate::sink::{collect_destinations, dest_views, sink_spec, Destination};
use crate::source::LineSource;

verus! {

/// Everything one run of the engine produces: the segments in emission
/// order (suppressed ones included), the numbered destinations for the
/// non-suppressed segments, and the byte size of each destination in
/// creation order.
pub struct SplitOutcome {
    pub segments: Vec<Segment>,
    pub destinations: Vec<Destination>,
    pub report: Vec<usize>,
}

/// Run the whole engine: parse the pattern-list tokens, walk the input
/// under them, and hand every non-suppressed segment's bytes to its
/// numbered destination. Fails with `InvalidPattern`, before any segment
/// or destination exists, exactly when the token list does not parse.
pub fn execute(src: &LineSource, tokens: &Vec<Vec<u8>>) -> (r: Result<SplitOutcome, SplitError>)
    ensures
        match r {
            Ok(o) => {
                &&& parse_spec(tokens.deep_view()) is Some
                &&& seg_views(o.segments@) == split_spec(
                    src@,
                    parse_spec(tokens.deep_view())->Some_0,
                )
                &&& is_partition(seg_views(o.segments@), src@.len() as int)
                &&& dest_views(o.destinations@) == sink_spec(src@, seg_views(o.segments@))
                &&& size_views(o.report@) == report_sizes(dest_views(o.destinations@))
            },
            Err(e) => parse_spec(tokens.deep_view()) is None && e == SplitError::InvalidPattern,
        },
{
    match parse_patterns(tokens) {
        Err(e) => Err(e),
        Ok(pats) => {
            let segs = split(src, &pats);
            proof {
                lemma_split_partitions(src@, pat_views(pats@));
            }
            let dests = collect_destinations(src, &segs);
            let report = destination_sizes(&dests);
            Ok(SplitOutcome { segments: segs, destinations: dests, report })
        },
    }
}

} // verus!
