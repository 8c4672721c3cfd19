//! The report emitter: one decimal byte count per produced destination, in
//! creation order, each on its own line; or nothing at all when the caller
//! suppresses reporting.

use vstd::prelude::*;

use crate::sink::{dest_views, Destination, DestinationModel};

verus! {

/// Decimal digits of `v`, most significant first.
pub open spec fn dec_rep(v: int) -> Seq<u8>
    decreases v,
    when v >= 0
{
    if v < 10 {
        seq![(48 + v) as u8]
    } else {
        dec_rep(v / 10).push((48 + v % 10) as u8)
    }
}

/// The byte sizes of the destinations, in creation order.
pub open spec fn report_sizes(dests: Seq<DestinationModel>) -> Seq<int>
    decreases dests.len(),
{
    if dests.len() == 0 {
        Seq::empty()
    } else {
        report_sizes(dests.drop_last()).push(dests.last().bytes.len() as int)
    }
}

/// The report's text: each size in decimal on a line of its own.
pub open spec fn report_text(sizes: Seq<int>) -> Seq<u8>
    decreases sizes.len(),
{
    if sizes.len() == 0 {
        Seq::empty()
    } else {
        report_text(sizes.drop_last()) + dec_rep(sizes.last()) + seq![10u8]
    }
}

pub open spec fn size_views(sizes: Seq<usize>) -> Seq<int> {
    sizes.map_values(|x: usize| x as int)
}

/// Render one size in decimal.
pub fn fmt_usize(v: usize) -> (s: Vec<u8>)
    ensures
        s@ == dec_rep(v as int),
    decreases v,
{
    if v < 10 {
        let mut s: Vec<u8> = Vec::new();
        s.push(48 + v as u8);
        proof {
            assert(s@ =~= dec_rep(v as int));
        }
        s
    } else {
        let mut s = fmt_usize(v / 10);
        s.push(48 + (v % 10) as u8);
        s
    }
}

/// The byte size of each destination, in creation order.
pub fn destination_sizes(dests: &Vec<Destination>) -> (sizes: Vec<usize>)
    ensures
        size_views(sizes@) == report_sizes(dest_views(dests@)),
{
    let mut sizes: Vec<usize> = Vec::new();
    let mut i: usize = 0;
    proof {
        assert(dest_views(dests@).take(0) =~= Seq::<DestinationModel>::empty());
        assert(size_views(sizes@) =~= report_sizes(dest_views(dests@).take(0)));
    }
    while i < dests.len()
        invariant
            i <= dests@.len(),
            size_views(sizes@) == report_sizes(dest_views(dests@).take(i as int)),
        decreases dests@.len() - i,
    {
        let ghost pre = size_views(sizes@);
        let n = dests[i].bytes.len();
        sizes.push(n);
        proof {
            assert(dest_views(dests@)[i as int] == dests@[i as int]@);
            assert(dest_views(dests@).take(i + 1).drop_last() =~= dest_views(dests@).take(
                i as int,
            ));
            assert(dest_views(dests@).take(i + 1).last() == dests@[i as int]@);
            assert(size_views(sizes@) =~= pre.push(n as int));
        }
        i += 1;
    }
    proof {
        assert(dest_views(dests@).take(dests@.len() as int) =~= dest_views(dests@));
    }
    sizes
}

/// Render the report, or nothing when reporting is suppressed; destinations
/// are unaffected either way.
pub fn render_report(sizes: &Vec<usize>, quiet: bool) -> (out: Vec<u8>)
    ensures
        out@ == if quiet {
            Seq::<u8>::empty()
        } else {
            report_text(size_views(sizes@))
        },
{
    let mut out: Vec<u8> = Vec::new();
    if quiet {
        return out;
    }
    let mut i: usize = 0;
    proof {
        assert(size_views(sizes@).take(0) =~= Seq::<int>::empty());
        assert(out@ =~= report_text(size_views(sizes@).take(0)));
    }
    while i < sizes.len()
        invariant
            i <= sizes@.len(),
            out@ == report_text(size_views(sizes@).take(i as int)),
        decreases sizes@.len() - i,
    {
        let ghost pre = out@;
        let v = sizes[i];
        let mut d = fmt_usize(v);
        let ghost dv = d@;
        out.append(&mut d);
        out.push(10);
        proof {
            assert(size_views(sizes@)[i as int] == sizes@[i as int] as int);
            assert(size_views(sizes@).take(i + 1).drop_last() =~= size_views(sizes@).take(
                i as int,
            ));
            assert(size_views(sizes@).take(i + 1).last() == sizes@[i as int] as int);
            assert(out@ =~= pre + dv + seq![10u8]);
        }
        i += 1;
    }
    proof {
        assert(size_views(sizes@).take(sizes@.len() as int) =~= size_views(sizes@));
    }
    out
}

} // verus!
