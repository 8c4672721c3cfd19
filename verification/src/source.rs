//! The line source: an indexed, re-readable view over the input as a
//! sequence of lines. Each line keeps its terminating line-feed byte, so the
//! lines concatenated in order are exactly the input bytes.

use vstd::prelude::*;

verus! {

/// Position of the first line-feed byte at or after `i`, or `b.len()` if
/// there is none.
pub open spec fn find_nl(b: Seq<u8>, i: int) -> int
    decreases b.len() - i,
{
    if i < 0 || i >= b.len() {
        b.len() as int
    } else if b[i] == 10 {
        i
    } else {
        find_nl(b, i + 1)
    }
}

pub proof fn lemma_find_nl(b: Seq<u8>, i: int)
    requires
        0 <= i <= b.len(),
    ensures
        i <= find_nl(b, i) <= b.len(),
        find_nl(b, i) < b.len() ==> b[find_nl(b, i)] == 10,
        forall|k: int| i <= k < find_nl(b, i) ==> b[k] != 10,
    decreases b.len() - i,
{
    if i < b.len() && b[i] != 10 {
        lemma_find_nl(b, i + 1);
    }
}

/// `find_nl` is pinned by any witness scan: if no line-feed stands in
/// `[i, j)` and `j` is the end or a line-feed, then `find_nl(b, i) == j`.
pub proof fn lemma_find_nl_at(b: Seq<u8>, i: int, j: int)
    requires
        0 <= i <= j <= b.len(),
        forall|k: int| i <= k < j ==> b[k] != 10,
        j == b.len() || b[j] == 10,
    ensures
        find_nl(b, i) == j,
    decreases j - i,
{
    if i < j {
        lemma_find_nl_at(b, i + 1, j);
    }
}

/// End (exclusive) of the line that starts at `i`: one past the first
/// line-feed, or the end of the input when the last line is unterminated.
pub open spec fn line_end(b: Seq<u8>, i: int) -> int {
    if find_nl(b, i) < b.len() {
        find_nl(b, i) + 1
    } else {
        b.len() as int
    }
}

/// The input bytes from `i` on, split into lines, each keeping its
/// terminating line-feed.
pub open spec fn lines_from(b: Seq<u8>, i: int) -> Seq<Seq<u8>>
    decreases b.len() - i,
    when 0 <= i
    via lines_from_dec
{
    if i >= b.len() {
        Seq::empty()
    } else {
        seq![b.subrange(i, line_end(b, i))] + lines_from(b, line_end(b, i))
    }
}

#[via_fn]
proof fn lines_from_dec(b: Seq<u8>, i: int) {
    if 0 <= i < b.len() {
        lemma_find_nl(b, i);
    }
}

/// The bytes of the lines `[lo, hi)` laid end to end.
pub open spec fn concat_range(lines: Seq<Seq<u8>>, lo: int, hi: int) -> Seq<u8>
    decreases hi - lo,
{
    if lo < 0 || lo >= hi || hi > lines.len() {
        Seq::empty()
    } else {
        lines[lo] + concat_range(lines, lo + 1, hi)
    }
}

pub proof fn lemma_concat_range_snoc(lines: Seq<Seq<u8>>, lo: int, hi: int)
    requires
        0 <= lo <= hi < lines.len(),
    ensures
        concat_range(lines, lo, hi + 1) == concat_range(lines, lo, hi) + lines[hi],
    decreases hi - lo,
{
    if lo == hi {
        assert(concat_range(lines, lo, hi + 1) =~= concat_range(lines, lo, hi) + lines[hi]);
    } else {
        lemma_concat_range_snoc(lines, lo + 1, hi);
        assert(concat_range(lines, lo, hi + 1) == lines[lo] + concat_range(lines, lo + 1, hi + 1));
        assert(concat_range(lines, lo, hi) == lines[lo] + concat_range(lines, lo + 1, hi));
        assert(lines[lo] + (concat_range(lines, lo + 1, hi) + lines[hi]) =~= (lines[lo]
            + concat_range(lines, lo + 1, hi)) + lines[hi]);
    }
}

proof fn lemma_concat_range_shift(x: Seq<u8>, s: Seq<Seq<u8>>, lo: int, hi: int)
    requires
        0 <= lo <= hi <= s.len(),
    ensures
        concat_range(seq![x] + s, lo + 1, hi + 1) == concat_range(s, lo, hi),
    decreases hi - lo,
{
    if lo < hi {
        lemma_concat_range_shift(x, s, lo + 1, hi);
        assert((seq![x] + s)[lo + 1] == s[lo]);
    } else {
        assert(concat_range(seq![x] + s, lo + 1, hi + 1) =~= concat_range(s, lo, hi));
    }
}

/// Splitting into lines loses nothing: the lines from position `i` on,
/// laid end to end, are exactly the input bytes from `i` on — every
/// line-break marker is preserved verbatim.
pub proof fn lemma_lines_reconstruct(b: Seq<u8>, i: int)
    requires
        0 <= i <= b.len(),
    ensures
        concat_range(lines_from(b, i), 0, lines_from(b, i).len() as int) == b.subrange(
            i,
            b.len() as int,
        ),
    decreases b.len() - i,
{
    if i == b.len() {
        assert(concat_range(lines_from(b, i), 0, 0) =~= b.subrange(i, b.len() as int));
    } else {
        lemma_find_nl(b, i);
        let e = line_end(b, i);
        let head = b.subrange(i, e);
        let rest = lines_from(b, e);
        lemma_lines_reconstruct(b, e);
        lemma_concat_range_shift(head, rest, 0, rest.len() as int);
        assert((seq![head] + rest)[0] == head);
        assert(head + b.subrange(e, b.len() as int) =~= b.subrange(i, b.len() as int));
    }
}

/// A materialized, indexable buffer of the input's lines. Negative offsets
/// and repeat-loop detection both revisit prior positions, so the source is
/// an explicit list of lines rather than a one-pass iterator.
pub struct LineSource {
    lines: Vec<Vec<u8>>,
}

impl View for LineSource {
    type V = Seq<Seq<u8>>;

    closed spec fn view(&self) -> Seq<Seq<u8>> {
        self.lines.deep_view()
    }
}

/// A line's text without its terminating line-feed, as handed to the
/// pattern matcher.
pub open spec fn line_body(l: Seq<u8>) -> Seq<u8> {
    if l.len() > 0 && l[l.len() - 1] == 10 {
        l.drop_last()
    } else {
        l
    }
}

impl LineSource {
    /// Split raw input into lines. Each line keeps its line-break byte, so
    /// output segments preserve the input verbatim.
    pub fn new(input: &Vec<u8>) -> (src: LineSource)
        ensures
            src@ == lines_from(input@, 0),
    {
        let n = input.len();
        let mut lines: Vec<Vec<u8>> = Vec::new();
        let mut start: usize = 0;
        while start < n
            invariant
                start <= n,
                n == input@.len(),
                lines.deep_view() + lines_from(input@, start as int) == lines_from(input@, 0),
            decreases n - start,
        {
            let ghost prev_lines = lines.deep_view();
            let mut j = start;
            while j < n && input[j] != 10
                invariant
                    start <= j <= n,
                    n == input@.len(),
                    forall|k: int| start <= k < j ==> input@[k] != 10,
                decreases n - j,
            {
                j += 1;
            }
            proof {
                lemma_find_nl_at(input@, start as int, j as int);
            }
            let e = if j < n {
                j + 1
            } else {
                n
            };
            let line = vstd::slice::slice_to_vec(
                vstd::slice::slice_subrange(input.as_slice(), start, e),
            );
            proof {
                assert(line_end(input@, start as int) == e as int);
                assert(line.deep_view() =~= line@);
            }
            lines.push(line);
            proof {
                assert(lines.deep_view() =~= prev_lines.push(input@.subrange(
                    start as int,
                    e as int,
                )));
                assert(prev_lines.push(input@.subrange(start as int, e as int)) + lines_from(
                    input@,
                    e as int,
                ) =~= prev_lines + lines_from(input@, start as int));
            }
            start = e;
        }
        proof {
            assert(lines.deep_view() + lines_from(input@, start as int) =~= lines.deep_view());
        }
        LineSource { lines }
    }

    /// The number of input lines.
    pub fn line_count(&self) -> (n: usize)
        ensures
            n == self@.len(),
    {
        self.lines.len()
    }

    /// The full text of line `i`, terminator included.
    pub fn line(&self, i: usize) -> (l: &Vec<u8>)
        requires
            i < self@.len(),
        ensures
            l@ == self@[i as int],
    {
        &self.lines[i]
    }

    /// The text of line `i` without its terminating line-feed: the text a
    /// pattern is matched against.
    pub fn body_of(&self, i: usize) -> (c: &[u8])
        requires
            i < self@.len(),
        ensures
            c@ == line_body(self@[i as int]),
    {
        let sl = self.line(i).as_slice();
        if sl.len() > 0 && sl[sl.len() - 1] == 10 {
            let c = vstd::slice::slice_subrange(sl, 0, sl.len() - 1);
            proof {
                assert(c@ =~= line_body(self@[i as int]));
            }
            c
        } else {
            sl
        }
    }

    /// The bytes of lines `[lo, hi)` laid end to end: the content that a
    /// destination for the segment `[lo, hi)` receives.
    pub fn segment_bytes(&self, lo: usize, hi: usize) -> (out: Vec<u8>)
        requires
            lo <= hi <= self@.len(),
        ensures
            out@ == concat_range(self@, lo as int, hi as int),
    {
        let mut out: Vec<u8> = Vec::new();
        let mut i = lo;
        while i < hi
            invariant
                lo <= i <= hi <= self@.len(),
                out@ == concat_range(self@, lo as int, i as int),
            decreases hi - i,
        {
            let mut piece = vstd::slice::slice_to_vec(self.line(i).as_slice());
            out.append(&mut piece);
            proof {
                lemma_concat_range_snoc(self@, lo as int, i as int);
            }
            i += 1;
        }
        out
    }
}

} // verus!
