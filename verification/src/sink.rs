//! The segment sink: consumes segments in emission order, discards the
//! suppressed ones, and gives each remaining segment the next sequentially
//! numbered destination together with exactly its line range's bytes.
//! Suppressed segments never consume a destination index.

use vstd::prelude::*;

use crate::cursor::{seg_views, Segment, SegmentModel};
use crate::source::{concat_range, LineSource};

verus! {

/// A numbered destination's content: its index is its position in the
/// sink's output order, starting at 0, skipping no numbers.
pub struct Destination {
    pub lo: usize,
    pub hi: usize,
    pub bytes: Vec<u8>,
}

/// The mathematical shape of a destination.
pub ghost struct DestinationModel {
    pub lo: int,
    pub hi: int,
    pub bytes: Seq<u8>,
}

impl View for Destination {
    type V = DestinationModel;

    open spec fn view(&self) -> DestinationModel {
        DestinationModel { lo: self.lo as int, hi: self.hi as int, bytes: self.bytes@ }
    }
}

pub open spec fn dest_views(dests: Seq<Destination>) -> Seq<DestinationModel> {
    dests.map_values(|d: Destination| d@)
}

/// Every segment stays within the first `n` lines and never runs
/// backwards.
pub open spec fn segs_wf(segs: Seq<SegmentModel>, n: int) -> bool {
    forall|k: int| 0 <= k < segs.len() ==> 0 <= (#[trigger] segs[k]).lo <= segs[k].hi <= n
}

/// The destinations for the non-suppressed segments, in emission order;
/// each receives exactly its segment's line range.
pub open spec fn sink_spec(lines: Seq<Seq<u8>>, segs: Seq<SegmentModel>) -> Seq<DestinationModel>
    decreases segs.len(),
{
    if segs.len() == 0 {
        Seq::empty()
    } else {
        let rest = sink_spec(lines, segs.drop_last());
        let s = segs.last();
        if s.suppressed {
            rest
        } else {
            rest.push(
                DestinationModel { lo: s.lo, hi: s.hi, bytes: concat_range(lines, s.lo, s.hi) },
            )
        }
    }
}

/// Consume the segments: discard the suppressed ones, transfer each other
/// segment's line range to the next numbered destination.
pub fn collect_destinations(src: &LineSource, segs: &Vec<Segment>) -> (dests: Vec<Destination>)
    requires
        segs_wf(seg_views(segs@), src@.len() as int),
    ensures
        dest_views(dests@) == sink_spec(src@, seg_views(segs@)),
{
    let mut dests: Vec<Destination> = Vec::new();
    let mut i: usize = 0;
    proof {
        assert(seg_views(segs@).take(0) =~= Seq::<SegmentModel>::empty());
        assert(dest_views(dests@) =~= sink_spec(src@, seg_views(segs@).take(0)));
    }
    while i < segs.len()
        invariant
            i <= segs@.len(),
            segs_wf(seg_views(segs@), src@.len() as int),
            dest_views(dests@) == sink_spec(src@, seg_views(segs@).take(i as int)),
        decreases segs@.len() - i,
    {
        let s = &segs[i];
        proof {
            assert(seg_views(segs@)[i as int] == segs@[i as int]@);
            assert(seg_views(segs@).take(i + 1).drop_last() =~= seg_views(segs@).take(i as int));
            assert(seg_views(segs@).take(i + 1).last() == segs@[i as int]@);
        }
        if !s.suppressed {
            let bytes = src.segment_bytes(s.lo, s.hi);
            let ghost gb = bytes@;
            let ghost pre = dest_views(dests@);
            dests.push(Destination { lo: s.lo, hi: s.hi, bytes });
            proof {
                assert(dest_views(dests@) =~= pre.push(
                    DestinationModel { lo: s.lo as int, hi: s.hi as int, bytes: gb },
                ));
            }
        }
        i += 1;
    }
    proof {
        assert(seg_views(segs@).take(segs@.len() as int) =~= seg_views(segs@));
    }
    dests
}

} // verus!
