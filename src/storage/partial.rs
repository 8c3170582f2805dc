//! Pieces being assembled from blocks: each holds sorted, separated byte
//! segments, merged as blocks arrive.

use crate::request::Request;
use crate::storage::{info_fits, piece_sizes, piece_sizes_of, sha1_of_matches, BadBlock, Block, Storage};
use crate::torrent::TorrentInfo;
use crate::wire::extend_bytes;
use crate::digest::{digest_matches, sha1_of};
use crate::storage::count::{
    count_in, lemma_count_all, lemma_count_bound, lemma_count_none, lemma_count_same,
    lemma_count_split, lemma_count_sum,
};
use vstd::prelude::*;
use vstd::slice::slice_subrange;

verus! {

/// A run of bytes of a piece: `data` stands at offsets `start..end`.
#[derive(Debug)]
pub struct Segment {
    pub start: usize,
    pub end: usize,
    pub data: Vec<u8>,
}

pub open spec fn seg_wf(s: Segment) -> bool {
    s.end == s.start + s.data@.len()
}

pub open spec fn covers(s: Segment, x: int) -> bool {
    s.start <= x < s.end
}

/// Well-formed segments of a piece of `length` bytes: each non-empty and
/// within the piece, sorted by offset, and no two touching or overlapping.
pub open spec fn segs_wf(segs: Seq<Segment>, length: nat) -> bool {
    &&& forall|i: int|
        0 <= i < segs.len() ==> seg_wf(#[trigger] segs[i]) && segs[i].start < segs[i].end
            && segs[i].end <= length
    &&& forall|i: int, j: int| 0 <= i < j < segs.len() ==> #[trigger] segs[i].end < #[trigger] segs[j].start
}

/// The byte that the segments hold at offset `x`, if any.
pub open spec fn content(segs: Seq<Segment>, x: int) -> Option<u8> {
    if exists|k: int| 0 <= k < segs.len() && #[trigger] covers(segs[k], x) {
        let k = choose|k: int| 0 <= k < segs.len() && #[trigger] covers(segs[k], x);
        Some(segs[k].data@[x - segs[k].start])
    } else {
        None
    }
}

/// Offsets that the segments hold.
pub open spec fn stored_pred(segs: Seq<Segment>) -> spec_fn(int) -> bool {
    |x: int| content(segs, x) is Some
}

/// Offsets in `a..b` that the segments do not hold yet.
pub open spec fn newly_pred(segs: Seq<Segment>, a: int, b: int) -> spec_fn(int) -> bool {
    |x: int| a <= x < b && content(segs, x) is None
}

/// The number of bytes that a block at `a..b` adds to the segments.
pub open spec fn newly_covered(segs: Seq<Segment>, a: int, b: int) -> nat {
    count_in(newly_pred(segs, a, b), a, b)
}

/// The byte at `x` once `block` is merged in: bytes already held are kept,
/// the block fills in the rest of its range.
pub open spec fn merged_content(segs: Seq<Segment>, block: Segment, x: int) -> Option<u8> {
    if content(segs, x) is Some {
        content(segs, x)
    } else if covers(block, x) {
        Some(block.data@[x - block.start])
    } else {
        None
    }
}

pub proof fn lemma_content(segs: Seq<Segment>, length: nat, k: int, x: int)
    requires
        segs_wf(segs, length),
        0 <= k < segs.len(),
        covers(segs[k], x),
    ensures
        content(segs, x) == Some(segs[k].data@[x - segs[k].start]),
{
    let j = choose|j: int| 0 <= j < segs.len() && #[trigger] covers(segs[j], x);
    if j < k {
        assert(segs[j].end < segs[k].start);
    } else if k < j {
        assert(segs[k].end < segs[j].start);
    }
}

/// Every offset below `length` is held when the count of held offsets is
/// `length`.
pub proof fn lemma_full(f: spec_fn(int) -> bool, a: int, b: int)
    requires
        a <= b,
        count_in(f, a, b) == b - a,
    ensures
        forall|x: int| a <= x < b ==> #[trigger] f(x),
    decreases b - a,
{
    if b > a {
        lemma_count_bound(f, a, b - 1);
        lemma_full(f, a, b - 1);
    }
}

pub open spec fn min_start(a: int, b: int) -> int {
    if a < b {
        a
    } else {
        b
    }
}

pub open spec fn max_end(a: int, b: int) -> int {
    if a > b {
        a
    } else {
        b
    }
}

spec fn old_cursor_of(before: Seq<u8>, lo: int) -> int {
    lo + before.len()
}

proof fn lemma_merge_wf(
    segs: Seq<Segment>,
    len: nat,
    block: Segment,
    start: int,
    end: int,
    m: Segment,
    fin: Seq<Segment>,
)
    requires
        block.start < block.end,
        segs_wf(segs, len),
        seg_wf(block),
        block.end <= len,
        0 <= start <= end <= segs.len(),
        seg_wf(m),
        m.start <= block.start,
        block.end <= m.end <= len,
        start < end ==> m.start == min_start(segs[start].start as int, block.start as int),
        start < end ==> m.end == max_end(segs[end - 1].end as int, block.end as int),
        start == end ==> m.start == block.start && m.end == block.end,
        forall|i: int| 0 <= i < start ==> #[trigger] segs[i].end < block.start,
        forall|i: int| end <= i < segs.len() ==> #[trigger] segs[i].start > block.end,
        fin.len() == segs.len() - (end - start) + 1,
        forall|i: int|
            0 <= i < fin.len() ==> #[trigger] fin[i] == if i < start {
                segs[i]
            } else if i == start {
                m
            } else {
                segs[i + (end - start) - 1]
            },
    ensures
        segs_wf(fin, len),
{
    let c = end - start;
    assert forall|i: int| 0 <= i < fin.len() implies seg_wf(#[trigger] fin[i]) && fin[i].end <= len by {
        if i < start {
            assert(seg_wf(segs[i]));
        } else if i > start {
            assert(seg_wf(segs[i + c - 1]));
        }
    }
    assert forall|i: int, j: int| 0 <= i < j < fin.len() implies #[trigger] fin[i].end < #[trigger] fin[j].start by {
        if j < start {
            assert(segs[i].end < segs[j].start);
        } else if j == start {
            if start < end {
                assert(segs[i].end < segs[start].start);
            }
        } else if i < start {
            assert(segs[i].end < segs[j + c - 1].start);
        } else if i == start {
            if start < end {
                assert(segs[end - 1].end < segs[j + c - 1].start);
            }
        } else {
            assert(segs[i + c - 1].end < segs[j + c - 1].start);
        }
    }
}

proof fn lemma_merge_content(
    segs: Seq<Segment>,
    len: nat,
    block: Segment,
    start: int,
    end: int,
    m: Segment,
    fin: Seq<Segment>,
)
    requires
        segs_wf(segs, len),
        segs_wf(fin, len),
        seg_wf(block),
        0 <= start <= end <= segs.len(),
        m.start <= block.start,
        block.end <= m.end,
        start < end ==> m.start <= segs[start].start,
        start < end ==> segs[end - 1].end <= m.end,
        forall|x: int|
            m.start <= x < m.end ==> merged_content(segs, block, x) == Some(
                #[trigger] m.data@[x - m.start],
            ),
        fin.len() == segs.len() - (end - start) + 1,
        forall|i: int|
            0 <= i < fin.len() ==> #[trigger] fin[i] == if i < start {
                segs[i]
            } else if i == start {
                m
            } else {
                segs[i + (end - start) - 1]
            },
    ensures
        forall|x: int| #[trigger] content(fin, x) == merged_content(segs, block, x),
{
    let c = end - start;
    assert forall|x: int| #[trigger] content(fin, x) == merged_content(segs, block, x) by {
        if m.start <= x < m.end {
            assert(covers(fin[start], x));
            lemma_content(fin, len, start, x);
        } else {
            if exists|k: int| 0 <= k < segs.len() && #[trigger] covers(segs[k], x) {
                let k = choose|k: int| 0 <= k < segs.len() && #[trigger] covers(segs[k], x);
                lemma_content(segs, len, k, x);
                if k < start {
                    assert(fin[k] == segs[k]);
                    lemma_content(fin, len, k, x);
                } else if k >= end {
                    assert(fin[k - c + 1] == segs[k]);
                    lemma_content(fin, len, k - c + 1, x);
                } else {
                    assert(segs[start].start <= segs[k].start) by {
                        if start < k {
                            assert(segs[start].end < segs[k].start);
                            assert(seg_wf(segs[start]));
                        }
                    }
                    assert(segs[k].end <= segs[end - 1].end) by {
                        if k < end - 1 {
                            assert(segs[k].end < segs[end - 1].start);
                            assert(seg_wf(segs[end - 1]));
                        }
                    }
                }
            } else {
                if exists|k: int| 0 <= k < fin.len() && #[trigger] covers(fin[k], x) {
                    let k = choose|k: int| 0 <= k < fin.len() && #[trigger] covers(fin[k], x);
                    if k < start {
                        assert(covers(segs[k], x));
                    } else if k > start {
                        assert(covers(segs[k + c - 1], x));
                    }
                }
            }
        }
    }
}

proof fn lemma_merge_stored(
    segs: Seq<Segment>,
    fin: Seq<Segment>,
    len: nat,
    block: Segment,
    lo: int,
    hi: int,
)
    requires
        seg_wf(block),
        0 <= lo <= block.start,
        block.end <= hi <= len,
        forall|x: int| #[trigger] content(fin, x) == merged_content(segs, block, x),
    ensures
        count_in(stored_pred(fin), 0, len as int) == count_in(stored_pred(segs), 0, len as int)
            + newly_covered(segs, block.start as int, block.end as int),
        count_in(newly_pred(segs, block.start as int, block.end as int), lo, hi) == newly_covered(
            segs,
            block.start as int,
            block.end as int,
        ),
        count_in(stored_pred(fin), 0, len as int) <= len,
{
    let bs = block.start as int;
    let be = block.end as int;
    let np = newly_pred(segs, bs, be);
    let fs = stored_pred(fin);
    let os = stored_pred(segs);
    assert forall|x: int| 0 <= x < len implies (#[trigger] fs(x) <==> (os(x) || np(x))) by {
        assert(content(fin, x) == merged_content(segs, block, x));
    }
    lemma_count_sum(os, np, fs, 0, len as int);
    lemma_count_none(np, 0, lo);
    lemma_count_none(np, hi, len as int);
    lemma_count_split(np, 0, lo, len as int);
    lemma_count_split(np, lo, hi, len as int);
    lemma_count_none(np, lo, bs);
    lemma_count_none(np, be, hi);
    lemma_count_split(np, lo, bs, hi);
    lemma_count_split(np, bs, be, hi);
    lemma_count_bound(fs, 0, len as int);
}

/// The request for the gap before segment `k` (after the last segment
/// for `k == segs.len()`).
pub open spec fn gap_request(piece: usize, segs: Seq<Segment>, length: nat, k: int) -> Request {
    let offset = if k == 0 {
        0
    } else {
        segs[k - 1].end as int
    };
    let next = if k < segs.len() {
        segs[k].start as int
    } else {
        length as int
    };
    Request { piece, offset: offset as usize, length: (next - offset) as usize }
}

/// Storing a block whose every byte is already held changes no byte and
/// adds nothing.
pub proof fn lemma_overlapping_block_is_noop(segs: Seq<Segment>, block: Segment)
    requires
        seg_wf(block),
        forall|x: int| block.start <= x < block.end ==> #[trigger] content(segs, x) is Some,
    ensures
        newly_covered(segs, block.start as int, block.end as int) == 0,
        forall|x: int| #[trigger] merged_content(segs, block, x) == content(segs, x),
{
    lemma_count_none(
        newly_pred(segs, block.start as int, block.end as int),
        block.start as int,
        block.end as int,
    );
}

/// Two blocks that agree on their common bytes give the same piece
/// whichever is stored first.
pub proof fn lemma_merge_order_independent(
    s0: Seq<Segment>,
    s1: Seq<Segment>,
    s2: Seq<Segment>,
    t1: Seq<Segment>,
    t2: Seq<Segment>,
    b1: Segment,
    b2: Segment,
)
    requires
        seg_wf(b1),
        seg_wf(b2),
        forall|x: int|
            covers(b1, x) && covers(b2, x) ==> #[trigger] b1.data@[x - b1.start] == #[trigger] b2.data@[x
                - b2.start],
        forall|x: int| #[trigger] content(s1, x) == merged_content(s0, b1, x),
        forall|x: int| #[trigger] content(s2, x) == merged_content(s1, b2, x),
        forall|x: int| #[trigger] content(t1, x) == merged_content(s0, b2, x),
        forall|x: int| #[trigger] content(t2, x) == merged_content(t1, b1, x),
    ensures
        forall|x: int| #[trigger] content(s2, x) == content(t2, x),
{
    assert forall|x: int| #[trigger] content(s2, x) == content(t2, x) by {
        assert(content(s1, x) == merged_content(s0, b1, x));
        assert(content(t1, x) == merged_content(s0, b2, x));
        if covers(b1, x) && covers(b2, x) {
            assert(b1.data@[x - b1.start] == b2.data@[x - b2.start]);
        }
    }
}

/// A piece whose every byte is held is one segment over the whole piece.
pub proof fn lemma_complete_is_one_segment(segs: Seq<Segment>, len: nat)
    requires
        segs_wf(segs, len),
        len > 0,
        count_in(stored_pred(segs), 0, len as int) == len,
    ensures
        segs.len() == 1,
        segs[0].start == 0,
        segs[0].end == len,
{
    let f = stored_pred(segs);
    lemma_full(f, 0, len as int);
    assert(f(0));
    let k0 = choose|k: int| 0 <= k < segs.len() && #[trigger] covers(segs[k], 0);
    assert(segs.len() >= 1);
    let e = segs[0].end as int;
    if segs.len() >= 2 {
        assert(segs[0].end < segs[1].start);
        assert(seg_wf(segs[1]));
        assert(f(e));
        let k = choose|k: int| 0 <= k < segs.len() && #[trigger] covers(segs[k], e);
        if k > 0 {
            assert(segs[0].end < segs[k].start);
        }
    }
    if k0 > 0 {
        assert(segs[0].end < segs[k0].start);
    }
    assert(seg_wf(segs[0]));
    if e < len {
        assert(f(e));
        let k = choose|k: int| 0 <= k < segs.len() && #[trigger] covers(segs[k], e);
    }
}

/// Segments that hold exactly the offsets `a..b` are one segment over
/// `a..b`: the segment list is fixed by what it holds.
pub proof fn lemma_one_run(segs: Seq<Segment>, len: nat, a: int, b: int)
    requires
        segs_wf(segs, len),
        a < b,
        forall|x: int| (#[trigger] content(segs, x) is Some) <==> a <= x < b,
    ensures
        segs.len() == 1,
        segs[0].start == a,
        segs[0].end == b,
{
    assert(content(segs, a) is Some);
    let k = choose|k: int| 0 <= k < segs.len() && #[trigger] covers(segs[k], a);
    if segs.len() >= 2 {
        let e = segs[0].end as int;
        assert(segs[0].end < segs[1].start);
        assert(covers(segs[0], segs[0].start as int));
        lemma_content(segs, len, 0, segs[0].start as int);
        assert(covers(segs[1], segs[1].start as int));
        lemma_content(segs, len, 1, segs[1].start as int);
        if content(segs, e) is Some {
            let j = choose|j: int| 0 <= j < segs.len() && #[trigger] covers(segs[j], e);
            if j > 0 {
                assert(segs[0].end < segs[j].start);
            }
        }
        assert(false);
    }
    let s0 = segs[0];
    assert(covers(s0, s0.start as int));
    lemma_content(segs, len, 0, s0.start as int);
    assert(covers(s0, s0.end - 1));
    lemma_content(segs, len, 0, s0.end - 1);
    if s0.start > a {
        assert(covers(segs[k], a));
    }
    if s0.end < b {
        assert(content(segs, s0.end as int) is Some);
        let j = choose|j: int| 0 <= j < segs.len() && #[trigger] covers(segs[j], s0.end as int);
    }
}

impl Segment {
    pub fn new(offset: usize, data: Vec<u8>) -> (r: Segment)
        requires
            offset + data@.len() <= usize::MAX,
        ensures
            seg_wf(r),
            r == (Segment { start: offset, end: (offset + data@.len()) as usize, data: data }),
    {
        let end = offset + data.len();
        Segment { start: offset, end: end, data: data }
    }

    /// Whether the two segments overlap or touch.
    pub fn intersects(&self, other: &Segment) -> (r: bool)
        ensures
            r == (self.start <= other.end && other.start <= self.end),
    {
        self.start <= other.end && other.start <= self.end
    }
}

/// A piece being assembled.
pub struct PartialPiece {
    piece: usize,
    length: usize,
    segments: Vec<Segment>,
    /// Number of bytes held.
    stored: usize,
}

impl PartialPiece {
    pub closed spec fn piece_index(&self) -> nat {
        self.piece as nat
    }

    pub closed spec fn length(&self) -> nat {
        self.length as nat
    }

    pub closed spec fn segs(&self) -> Seq<Segment> {
        self.segments@
    }

    pub closed spec fn wf(&self) -> bool {
        &&& segs_wf(self.segments@, self.length as nat)
        &&& self.stored == count_in(stored_pred(self.segments@), 0, self.length as int)
    }

    /// A well-formed piece's segments are sorted, separated and within the
    /// piece.
    pub proof fn lemma_wf_layout(&self)
        requires
            self.wf(),
        ensures
            segs_wf(self.segs(), self.length()),
    {
    }

    /// An empty piece `piece` of `length` bytes.
    pub fn new(piece: usize, length: usize) -> (r: PartialPiece)
        ensures
            r.wf(),
            r.piece_index() == piece,
            r.length() == length,
            r.segs() == Seq::<Segment>::empty(),
    {
        let r = PartialPiece { piece: piece, length: length, segments: Vec::new(), stored: 0 };
        proof {
            lemma_count_none(stored_pred(r.segments@), 0, length as int);
        }
        r
    }

    pub fn piece(&self) -> (r: usize)
        ensures
            r == self.piece_index(),
    {
        self.piece
    }

    /// The segments, sorted by offset.
    pub fn segments(&self) -> (r: &Vec<Segment>)
        ensures
            r@ == self.segs(),
    {
        &self.segments
    }

    /// The run `start..end` of segments that touch or overlap `segment`:
    /// those before it end before it starts, those after it start after it
    /// ends.
    fn intersecting(&self, segment: &Segment) -> (r: (usize, usize))
        requires
            self.wf(),
        ensures
            r.0 <= r.1 <= self.segs().len(),
            forall|i: int| 0 <= i < r.0 ==> #[trigger] self.segs()[i].end < segment.start,
            forall|i: int|
                r.0 <= i < r.1 ==> #[trigger] self.segs()[i].end >= segment.start
                    && self.segs()[i].start <= segment.end,
            forall|i: int| r.1 <= i < self.segs().len() ==> #[trigger] self.segs()[i].start > segment.end,
    {
        let n = self.segments.len();
        let mut start: usize = 0;
        while start < n && self.segments[start].end < segment.start
            invariant
                start <= n == self.segs().len(),
                self.wf(),
                forall|i: int| 0 <= i < start ==> #[trigger] self.segs()[i].end < segment.start,
            decreases n - start,
        {
            start = start + 1;
        }
        let mut end: usize = start;
        while end < n && self.segments[end].start <= segment.end
            invariant
                start <= end <= n == self.segs().len(),
                self.wf(),
                start < n ==> self.segs()[start as int].end >= segment.start,
                forall|i: int|
                    start <= i < end ==> #[trigger] self.segs()[i].end >= segment.start
                        && self.segs()[i].start <= segment.end,
            decreases n - end,
        {
            proof {
                if end > start {
                    let s0 = self.segs()[start as int];
                    let se = self.segs()[end as int];
                    assert(s0.end < se.start);
                    assert(seg_wf(se));
                }
            }
            end = end + 1;
        }
        proof {
            assert forall|i: int| end <= i < n implies #[trigger] self.segs()[i].start
                > segment.end by {
                if i > end {
                    assert(self.segs()[end as int].end < self.segs()[i].start);
                }
            }
        }
        (start, end)
    }
    /// Merges `segment` into the piece. Where it overlaps bytes already
    /// held those are kept; the result is the number of bytes the piece did
    /// not hold before. A segment reaching past the piece is refused.
    #[verifier::rlimit(60)]
    pub fn add_segment(&mut self, segment: Segment) -> (r: Result<usize, BadBlock>)
        requires
            old(self).wf(),
            seg_wf(segment),
        ensures
            final(self).wf(),
            final(self).piece_index() == old(self).piece_index(),
            final(self).length() == old(self).length(),
            segment.end > old(self).length() ==> r is Err && final(self).segs() == old(self).segs(),
            segment.end <= old(self).length() ==> r == Ok::<usize, BadBlock>(
                newly_covered(old(self).segs(), segment.start as int, segment.end as int) as usize,
            ),
            segment.end <= old(self).length() ==> forall|x: int|
                #[trigger] content(final(self).segs(), x) == merged_content(
                    old(self).segs(),
                    segment,
                    x,
                ),
    {
        if segment.end > self.length {
            return Err(BadBlock);
        }
        if segment.start == segment.end {
            proof {
                lemma_count_none(
                    newly_pred(self.segments@, segment.start as int, segment.end as int),
                    segment.start as int,
                    segment.end as int,
                );
            }
            return Ok(0);
        }
        let ghost segs = self.segments@;
        let ghost len = self.length as nat;
        let ghost bs = segment.start as int;
        let ghost be = segment.end as int;
        let ghost np = newly_pred(segs, bs, be);
        let (start, end) = self.intersecting(&segment);
        let lo = if start < end && self.segments[start].start < segment.start {
            self.segments[start].start
        } else {
            segment.start
        };
        let hi = if start < end && self.segments[end - 1].end > segment.end {
            self.segments[end - 1].end
        } else {
            segment.end
        };
        proof {
            if start < end {
                assert(seg_wf(segs[start as int]));
                assert(seg_wf(segs[end - 1]));
                assert(segs[end - 1].end <= len);
            }
        }
        let mut merged: Vec<u8> = Vec::new();
        let mut cursor: usize = lo;
        let mut added: usize = 0;
        let count = end - start;
        let mut j: usize = 0;
        while j < count
            invariant
                segs_wf(segs, len),
                self.length == len,
                self.piece == old(self).piece,
                self.stored == old(self).stored,
                self.stored == count_in(stored_pred(segs), 0, len as int),
                seg_wf(segment),
                segment.start == bs,
                segment.end == be,
                be <= len,
                np == newly_pred(segs, bs, be),
                start + count == end <= segs.len(),
                j <= count,
                lo <= bs,
                be <= hi <= len,
                start < end ==> lo == min_start(segs[start as int].start as int, bs),
                start < end ==> hi == max_end(segs[end - 1].end as int, be),
                start == end ==> lo == bs && hi == be,
                forall|i: int| 0 <= i < start ==> #[trigger] segs[i].end < bs,
                forall|i: int| start <= i < end ==> #[trigger] segs[i].end >= bs && segs[i].start <= be,
                forall|i: int| end <= i < segs.len() ==> #[trigger] segs[i].start > be,
                self.segments@ == segs.subrange(0, start as int) + segs.subrange(
                    start + j,
                    segs.len() as int,
                ),
                j == 0 ==> cursor == lo,
                j > 0 ==> cursor == segs[start + j - 1].end,
                lo <= cursor,
                merged@.len() == cursor - lo,
                forall|x: int|
                    lo <= x < cursor ==> merged_content(segs, segment, x) == Some(
                        #[trigger] merged@[x - lo],
                    ),
                added == count_in(np, lo as int, cursor as int),
            decreases count - j,
        {
            let ghost k = start + j;
            let ghost before = merged@;
            let seg = self.segments.remove(start);
            assert(seg == segs[k]);
            assert(seg_wf(seg));
            proof {
                if j > 0 {
                    assert(segs[k - 1].end < segs[k].start);
                } else {
                    assert(cursor <= seg.start);
                }
            }
            if cursor < seg.start {
                proof {
                    assert(bs <= cursor);
                    assert forall|x: int| cursor <= x < seg.start implies content(segs, x) is None by {
                        if exists|i: int| 0 <= i < segs.len() && #[trigger] covers(segs[i], x) {
                            let i = choose|i: int| 0 <= i < segs.len() && #[trigger] covers(segs[i], x);
                            if i < k - 1 {
                                assert(segs[i].end < segs[k - 1].start);
                                assert(seg_wf(segs[k - 1]));
                            } else if i > k {
                                assert(segs[k].end < segs[i].start);
                            }
                        }
                    }
                    lemma_count_all(np, cursor as int, seg.start as int);
                    lemma_count_split(np, lo as int, cursor as int, seg.start as int);
                    lemma_count_bound(np, lo as int, cursor as int);
                }
                let from = cursor - segment.start;
                let to = seg.start - segment.start;
                extend_bytes(&mut merged, slice_subrange(segment.data.as_slice(), from, to));
                added = added + (seg.start - cursor);
            }
            let ghost mid = merged@;
            proof {
                assert forall|x: int| seg.start <= x < seg.end implies !np(x) && content(segs, x)
                    == Some(seg.data@[x - seg.start]) by {
                    lemma_content(segs, len, k, x);
                }
                lemma_count_none(np, seg.start as int, seg.end as int);
                lemma_count_split(np, lo as int, seg.start as int, seg.end as int);
            }
            if merged.len() == 0 {
                merged = seg.data;
            } else {
                extend_bytes(&mut merged, seg.data.as_slice());
            }
            assert(merged@ == mid + seg.data@);
            cursor = seg.end;
            j = j + 1;
            proof {
                assert forall|x: int| lo <= x < cursor implies merged_content(segs, segment, x)
                    == Some(#[trigger] merged@[x - lo]) by {
                    if x < old_cursor_of(before, lo as int) {
                        assert(merged@[x - lo] == before[x - lo]);
                    } else if x < seg.start {
                    } else {
                        assert(merged@[x - lo] == seg.data@[x - seg.start]);
                    }
                }
                assert(self.segments@ =~= segs.subrange(0, start as int) + segs.subrange(
                    start + j,
                    segs.len() as int,
                ));
            }
        }
        if cursor < hi {
            let ghost before = merged@;
            proof {
                assert(bs <= cursor);
                assert(hi == be);
                assert forall|x: int| cursor <= x < hi implies content(segs, x) is None by {
                    if exists|i: int| 0 <= i < segs.len() && #[trigger] covers(segs[i], x) {
                        let i = choose|i: int| 0 <= i < segs.len() && #[trigger] covers(segs[i], x);
                        if start <= i < end - 1 {
                            assert(segs[i].end < segs[end - 1].start);
                            assert(seg_wf(segs[end - 1]));
                        }
                    }
                }
                lemma_count_all(np, cursor as int, hi as int);
                lemma_count_split(np, lo as int, cursor as int, hi as int);
                lemma_count_bound(np, lo as int, cursor as int);
            }
            let from = cursor - segment.start;
            let to = hi - segment.start;
            extend_bytes(&mut merged, slice_subrange(segment.data.as_slice(), from, to));
            added = added + (hi - cursor);
            cursor = hi;
            assert forall|x: int| lo <= x < cursor implies merged_content(segs, segment, x)
                == Some(#[trigger] merged@[x - lo]) by {
                if x < lo + before.len() {
                    assert(merged@[x - lo] == before[x - lo]);
                }
            }
        }
        assert(cursor == hi);
        let m = Segment { start: lo, end: hi, data: merged };
        let ghost rest = self.segments@;
        self.segments.insert(start, m);
        let ghost fin = self.segments@;
        proof {
            assert(rest =~= segs.subrange(0, start as int) + segs.subrange(end as int, segs.len() as int));
            assert forall|i: int| 0 <= i < fin.len() implies #[trigger] fin[i] == if i < start {
                segs[i]
            } else if i == start {
                m
            } else {
                segs[i + count - 1]
            } by {}
            lemma_merge_wf(segs, len, segment, start as int, end as int, m, fin);
            lemma_merge_content(segs, len, segment, start as int, end as int, m, fin);
            lemma_merge_stored(segs, fin, len, segment, lo as int, hi as int);
        }
        self.stored = self.stored + added;
        Ok(added)
    }
    /// Number of bytes held.
    pub fn bytes_stored(&self) -> (r: usize)
        requires
            self.wf(),
        ensures
            r == count_in(stored_pred(self.segs()), 0, self.length() as int),
    {
        self.stored
    }

    /// Number of bytes still missing.
    pub fn bytes_missing(&self) -> (r: usize)
        requires
            self.wf(),
        ensures
            r == self.length() - count_in(stored_pred(self.segs()), 0, self.length() as int),
    {
        proof {
            lemma_count_bound(stored_pred(self.segments@), 0, self.length as int);
        }
        self.length - self.stored
    }

    /// Whether every byte of the piece is held; a complete piece of
    /// positive length is one segment over the whole piece.
    pub fn is_complete(&self) -> (r: bool)
        requires
            self.wf(),
        ensures
            r == (count_in(stored_pred(self.segs()), 0, self.length() as int) == self.length()),
            r ==> forall|x: int| 0 <= x < self.length() ==> #[trigger] content(self.segs(), x) is Some,
            r && self.length() > 0 ==> self.segs().len() == 1 && self.segs()[0].start == 0
                && self.segs()[0].end == self.length(),
    {
        proof {
            lemma_count_bound(stored_pred(self.segments@), 0, self.length as int);
            if self.stored == self.length {
                lemma_full(stored_pred(self.segments@), 0, self.length as int);
                assert forall|x: int| 0 <= x < self.length() implies #[trigger] content(self.segs(), x) is Some by {
                    assert(stored_pred(self.segments@)(x));
                }
                if self.length > 0 {
                    lemma_complete_is_one_segment(self.segments@, self.length as nat);
                }
            }
        }
        self.bytes_missing() == 0
    }

    /// Takes the segments out, leaving the piece empty.
    pub fn into_segments(self) -> (r: Vec<Segment>)
        ensures
            r@ == self.segs(),
    {
        self.segments
    }

    /// A request for each gap: before the first segment, between two
    /// segments, and after the last one, in order of offset.
    pub fn requests(&self) -> (r: Vec<Request>)
        requires
            self.wf(),
        ensures
            r@ == Seq::new(
                self.segs().len() + 1,
                |k: int| gap_request(self.piece_index() as usize, self.segs(), self.length(), k),
            ),
    {
        let mut out: Vec<Request> = Vec::new();
        let mut start: usize = 0;
        let mut k: usize = 0;
        let n = self.segments.len();
        while k < n
            invariant
                self.wf(),
                k <= n == self.segs().len(),
                k == 0 ==> start == 0,
                k > 0 ==> start == self.segs()[k - 1].end,
                start <= self.length,
                k < n ==> start <= self.segs()[k as int].start,
                out@ == Seq::new(
                    k as nat,
                    |i: int| gap_request(self.piece_index() as usize, self.segs(), self.length(), i),
                ),
            decreases n - k,
        {
            let seg = &self.segments[k];
            proof {
                assert(seg_wf(self.segs()[k as int]));
                if k + 1 < n {
                    assert(self.segs()[k as int].end < self.segs()[k + 1].start);
                }
            }
            out.push(Request::new(self.piece, start, seg.start - start));
            start = seg.end;
            k = k + 1;
            assert(out@ =~= Seq::new(
                k as nat,
                |i: int| gap_request(self.piece_index() as usize, self.segs(), self.length(), i),
            ));
        }
        out.push(Request::new(self.piece, start, self.length - start));
        assert(out@ =~= Seq::new(
            (n + 1) as nat,
            |i: int| gap_request(self.piece_index() as usize, self.segs(), self.length(), i),
        ));
        out
    }
}


/// The bytes of a piece of `len` bytes once `block` is merged into `segs`.
pub open spec fn assembled(segs: Seq<Segment>, block: Segment, len: nat) -> Seq<u8> {
    Seq::new(len, |x: int| merged_content(segs, block, x)->Some_0)
}

proof fn lemma_assembled(fin: Seq<Segment>, segs: Seq<Segment>, block: Segment, len: nat, data: Seq<u8>)
    requires
        segs_wf(fin, len),
        forall|x: int| #[trigger] content(fin, x) == merged_content(segs, block, x),
        len > 0 ==> fin.len() == 1 && fin[0].start == 0 && fin[0].end == len && data == fin[0].data@,
        len == 0 ==> (fin.len() > 0 ==> data == fin[0].data@) && (fin.len() == 0 ==> data.len() == 0),
    ensures
        data == assembled(segs, block, len),
{
    if len > 0 {
        assert forall|x: int| 0 <= x < len implies data[x] == assembled(segs, block, len)[x] by {
            lemma_content(fin, len, 0, x);
        }
        assert(data =~= assembled(segs, block, len));
    } else {
        if fin.len() > 0 {
            assert(seg_wf(fin[0]));
        }
        assert(data =~= assembled(segs, block, len));
    }
}

/// Two blocks that agree on their common bytes assemble the same piece
/// whichever of them the store took first.
pub proof fn lemma_assembled_order_independent(
    s0: Seq<Segment>,
    s1: Seq<Segment>,
    t1: Seq<Segment>,
    b1: Segment,
    b2: Segment,
    len: nat,
)
    requires
        seg_wf(b1),
        seg_wf(b2),
        forall|x: int|
            covers(b1, x) && covers(b2, x) ==> #[trigger] b1.data@[x - b1.start] == #[trigger] b2.data@[x
                - b2.start],
        forall|x: int| #[trigger] content(s1, x) == merged_content(s0, b1, x),
        forall|x: int| #[trigger] content(t1, x) == merged_content(s0, b2, x),
    ensures
        assembled(s1, b2, len) == assembled(t1, b1, len),
{
    assert forall|x: int| 0 <= x < len implies assembled(s1, b2, len)[x] == assembled(t1, b1, len)[x] by {
        assert(content(s1, x) == merged_content(s0, b1, x));
        assert(content(t1, x) == merged_content(s0, b2, x));
        if covers(b1, x) && covers(b2, x) {
            assert(b1.data@[x - b1.start] == b2.data@[x - b2.start]);
        }
    }
    assert(assembled(s1, b2, len) =~= assembled(t1, b1, len));
}

/// At most this many pieces are assembled at a time.
pub const MAX_PARTIAL_PIECES: usize = 100;

/// Whether some piece of `ps` is piece `p`.
pub open spec fn has_partial(ps: Seq<PartialPiece>, p: nat) -> bool {
    exists|i: int| 0 <= i < ps.len() && #[trigger] ps[i].piece_index() == p
}

/// The segments of the piece of `ps` that is piece `p`, if any.
pub open spec fn partial_segs(ps: Seq<PartialPiece>, p: nat) -> Option<Seq<Segment>> {
    if has_partial(ps, p) {
        let i = choose|i: int| 0 <= i < ps.len() && #[trigger] ps[i].piece_index() == p;
        Some(ps[i].segs())
    } else {
        None
    }
}

/// The bytes still missing from the first `n` pieces being assembled.
pub open spec fn partials_missing(ps: Seq<PartialPiece>, n: int) -> nat
    decreases n,
{
    if n <= 0 || n > ps.len() {
        0
    } else {
        partials_missing(ps, n - 1) + (ps[n - 1].length() - count_in(
            stored_pred(ps[n - 1].segs()),
            0,
            ps[n - 1].length() as int,
        )) as nat
    }
}

/// The gap requests of the first `n` pieces being assembled, in order.
pub open spec fn partials_requests(ps: Seq<PartialPiece>, n: int) -> Seq<Request>
    decreases n,
{
    if n <= 0 || n > ps.len() {
        Seq::empty()
    } else {
        partials_requests(ps, n - 1) + Seq::new(
            ps[n - 1].segs().len() + 1,
            |k: int| gap_request(ps[n - 1].piece_index() as usize, ps[n - 1].segs(), ps[n - 1].length(), k),
        )
    }
}

/// Every byte of a piece of `length` bytes is held once `block` is merged
/// into `segs`.
pub open spec fn completes(segs: Seq<Segment>, block: Segment, length: nat) -> bool {
    forall|x: int| 0 <= x < length ==> #[trigger] merged_content(segs, block, x) is Some
}

/// No two pieces of `ps` are the same piece.
pub open spec fn unique_pieces(ps: Seq<PartialPiece>) -> bool {
    forall|i: int, j: int| 0 <= i < j < ps.len() ==> #[trigger] ps[i].piece_index() != #[trigger] ps[j].piece_index()
}

proof fn lemma_segs_at(ps: Seq<PartialPiece>, i: int)
    requires
        unique_pieces(ps),
        0 <= i < ps.len(),
    ensures
        partial_segs(ps, ps[i].piece_index()) == Some(ps[i].segs()),
{
    let q = ps[i].piece_index();
    assert(has_partial(ps, q));
    let k = choose|k: int| 0 <= k < ps.len() && #[trigger] ps[k].piece_index() == q;
    if k < i {
        assert(ps[k].piece_index() != ps[i].piece_index());
    } else if k > i {
        assert(ps[i].piece_index() != ps[k].piece_index());
    }
}

/// Where `ps2` keeps every piece of `ps` but those of piece `p` (piece `i`
/// of `ps` at `f(i)`), and holds nothing else but pieces `p` (piece `j` of
/// `ps2` at `g(j)` in `ps`), the other pieces' segments stay.
proof fn lemma_other_partials(
    ps: Seq<PartialPiece>,
    ps2: Seq<PartialPiece>,
    p: nat,
    q: nat,
    f: spec_fn(int) -> int,
    g: spec_fn(int) -> int,
)
    requires
        unique_pieces(ps),
        unique_pieces(ps2),
        q != p,
        forall|i: int|
            0 <= i < ps.len() && ps[i].piece_index() != p ==> 0 <= #[trigger] f(i) < ps2.len()
                && ps2[f(i)] == ps[i],
        forall|j: int|
            0 <= j < ps2.len() && ps2[j].piece_index() != p ==> 0 <= #[trigger] g(j) < ps.len()
                && ps[g(j)] == ps2[j],
    ensures
        partial_segs(ps2, q) == partial_segs(ps, q),
{
    if has_partial(ps, q) {
        let i = choose|i: int| 0 <= i < ps.len() && #[trigger] ps[i].piece_index() == q;
        lemma_segs_at(ps, i);
        let j = f(i);
        lemma_segs_at(ps2, j);
    } else if has_partial(ps2, q) {
        let j = choose|j: int| 0 <= j < ps2.len() && #[trigger] ps2[j].piece_index() == q;
        let i = g(j);
        assert(ps[i].piece_index() == q);
    }
}

/// Pieces assembled from blocks over a store of whole pieces.
pub struct PartialStorage<S: Storage> {
    partial_pieces: Vec<PartialPiece>,
    backed_storage: S,
    pieces: usize,
    piece_lengths: Vec<usize>,
    digests: Vec<[u8; 20]>,
}

impl<S: Storage> PartialStorage<S> {
    pub closed spec fn partials(&self) -> Seq<PartialPiece> {
        self.partial_pieces@
    }

    pub closed spec fn backing(&self) -> S {
        self.backed_storage
    }

    pub closed spec fn piece_count(&self) -> nat {
        self.pieces as nat
    }

    /// The length of piece `p`.
    pub closed spec fn piece_len(&self, p: int) -> nat {
        self.piece_lengths@[p] as nat
    }

    /// The digest that piece `p` must match.
    pub closed spec fn piece_digest(&self, p: int) -> Seq<u8> {
        self.digests@[p]@
    }

    pub closed spec fn inv(&self) -> bool {
        &&& self.backed_storage.wf()
        &&& self.piece_lengths@.len() == self.pieces
        &&& self.digests@.len() == self.pieces
        &&& forall|i: int|
            #[trigger] self.backed_storage.piece_size_of(i) is Some ==> self.backed_storage.digest_of(i)
                == self.digests@[i]@
        &&& forall|i: int|
            0 <= i < self.partial_pieces@.len() ==> !self.backed_storage.holds(
                (#[trigger] self.partial_pieces@[i]).piece_index() as int,
            )
        &&& forall|i: int|
            #[trigger] self.backed_storage.piece_size_of(i) is Some ==> 0 <= i < self.pieces
                && self.backed_storage.piece_size_of(i) == Some(self.piece_lengths@[i] as nat)
        &&& self.partial_pieces@.len() <= MAX_PARTIAL_PIECES
        &&& forall|i: int|
            0 <= i < self.partial_pieces@.len() ==> {
                let pp = #[trigger] self.partial_pieces@[i];
                &&& pp.wf()
                &&& pp.piece_index() < self.pieces
                &&& pp.length() == self.piece_lengths@[pp.piece_index() as int]
            }
        &&& forall|i: int, j: int|
            0 <= i < j < self.partial_pieces@.len() ==> #[trigger] self.partial_pieces@[i].piece_index()
                != #[trigger] self.partial_pieces@[j].piece_index()
    }

    /// The pieces this store shows are those its backing store holds, and
    /// no piece the backing store holds is being assembled.
    pub proof fn lemma_holds_backing(&self)
        requires
            self.inv(),
        ensures
            forall|i: int| #[trigger] self.holds(i) == self.backing().holds(i),
            forall|i: int|
                0 <= i < self.partials().len() ==> !self.backing().holds(
                    (#[trigger] self.partials()[i]).piece_index() as int,
                ),
    {
    }

    /// The position of piece `piece` among the pieces being assembled.
    fn find_partial(&self, piece: usize) -> (r: Option<usize>)
        requires
            self.inv(),
        ensures
            r is None <==> !has_partial(self.partials(), piece as nat),
            r matches Some(i) ==> i < self.partials().len() && self.partials()[i as int].piece_index()
                == piece && partial_segs(self.partials(), piece as nat) == Some(
                self.partials()[i as int].segs(),
            ),
    {
        let mut i: usize = 0;
        while i < self.partial_pieces.len()
            invariant
                self.inv(),
                i <= self.partials().len(),
                forall|j: int| 0 <= j < i ==> #[trigger] self.partials()[j].piece_index() != piece,
            decreases self.partials().len() - i,
        {
            if self.partial_pieces[i].piece() == piece {
                proof {
                    let ps = self.partials();
                    let k = choose|k: int| 0 <= k < ps.len() && #[trigger] ps[k].piece_index() == piece;
                    if k != i {
                        if k < i {
                            assert(ps[k].piece_index() != ps[i as int].piece_index());
                        } else {
                            assert(ps[i as int].piece_index() != ps[k].piece_index());
                        }
                    }
                }
                return Some(i);
            }
            i = i + 1;
        }
        None
    }

    /// Starts assembling piece `piece` unless it is being assembled, the
    /// backing store holds it, or the limit of pieces in flight is reached.
    fn receiving_piece(&mut self, piece: usize)
        requires
            old(self).inv(),
            piece < old(self).piece_count(),
        ensures
            final(self).inv(),
            final(self).backing() == old(self).backing(),
            final(self).piece_count() == old(self).piece_count(),
            final(self).piece_lengths@ == old(self).piece_lengths@,
            final(self).digests@ == old(self).digests@,
            forall|p: int| #[trigger] final(self).piece_len(p) == old(self).piece_len(p),
            ({
                let fresh = !has_partial(old(self).partials(), piece as nat) && !old(self).backing().holds(piece as int) && old(self).partials().len() < MAX_PARTIAL_PIECES;
                &&& !fresh ==> final(self).partials() == old(self).partials()
                &&& fresh ==> final(self).partials() == old(self).partials().push(
                    final(self).partials().last(),
                ) && final(self).partials().last().segs() == Seq::<Segment>::empty()
                    && final(self).partials().last().piece_index() == piece
                    && final(self).partials().last().length() == old(self).piece_len(piece as int)
                    && final(self).partials().last().wf()
            }),
    {
        if self.partial_pieces.len() < MAX_PARTIAL_PIECES && self.find_partial(piece).is_none()
            && !self.backed_storage.has_piece(piece) {
            let piece_length = self.piece_lengths[piece];
            let new_piece = PartialPiece::new(piece, piece_length);
            let ghost before = self.partial_pieces@;
            self.partial_pieces.push(new_piece);
            proof {
                let ps = self.partial_pieces@;
                assert forall|i: int, j: int| 0 <= i < j < ps.len() implies #[trigger] ps[i].piece_index()
                    != #[trigger] ps[j].piece_index() by {
                    if j == ps.len() - 1 {
                        assert(before[i].piece_index() == ps[i].piece_index());
                    } else {
                        assert(before[i].piece_index() != before[j].piece_index());
                    }
                }
            }
        }
    }
    /// Stores a block. A block for an unknown piece or reaching past its
    /// piece is refused. A block for a piece that is neither being
    /// assembled nor can start to be (held already, or too many in flight)
    /// is dropped and counts nothing. Otherwise it is merged into its piece,
    /// keeping bytes already held, and the result is the number of new
    /// bytes; a piece that becomes complete goes to the backing store, and
    /// is refused if the backing store does not then hold it (its digest
    /// did not match).
    #[verifier::rlimit(100)]
    pub fn merge_block(&mut self, block: Block) -> (r: Result<usize, BadBlock>)
        requires
            old(self).inv(),
        ensures
            final(self).inv(),
            final(self).piece_count() == old(self).piece_count(),
            forall|p: int| #[trigger] final(self).piece_len(p) == old(self).piece_len(p),
            forall|p: int| #[trigger] old(self).backing().holds(p) ==> final(self).backing().holds(p),
            r is Err ==> final(self).backing() == old(self).backing(),
            forall|i: int| i != block.piece ==> #[trigger] final(self).backing().holds(i) == old(self).backing().holds(i),
            forall|i: int| #[trigger] final(self).backing().digest_of(i) == old(self).backing().digest_of(i),
            forall|i: int| #[trigger] final(self).piece_digest(i) == old(self).piece_digest(i),
            block.piece >= old(self).piece_count() ==> r == Err::<usize, BadBlock>(BadBlock)
                && final(self).partials() == old(self).partials() && final(self).backing() == old(self).backing(),
            block.piece < old(self).piece_count() && block.offset + block.data@.len() > old(self).piece_len(block.piece as int) ==> r == Err::<usize, BadBlock>(BadBlock)
                && final(self).partials() == old(self).partials() && final(self).backing() == old(self).backing(),
            block.piece < old(self).piece_count() && block.offset + block.data@.len() <= old(self).piece_len(block.piece as int) ==> ({
                let p = block.piece as nat;
                let before = partial_segs(old(self).partials(), p);
                let started = before is Some || (!old(self).backing().holds(p as int) && old(self).partials().len() < MAX_PARTIAL_PIECES);
                let base = if before is Some {
                    before->Some_0
                } else {
                    Seq::<Segment>::empty()
                };
                let seg = Segment {
                    start: block.offset,
                    end: (block.offset + block.data@.len()) as usize,
                    data: block.data,
                };
                let len = old(self).piece_len(p as int);
                &&& forall|q: nat|
                    q != p ==> #[trigger] partial_segs(final(self).partials(), q) == partial_segs(
                        old(self).partials(),
                        q,
                    )
                &&& !started ==> r == Ok::<usize, BadBlock>(0) && final(self).partials() == old(self).partials() && final(self).backing() == old(self).backing()
                &&& started && !completes(base, seg, len) ==> {
                    &&& r == Ok::<usize, BadBlock>(
                        newly_covered(base, seg.start as int, seg.end as int) as usize,
                    )
                    &&& partial_segs(final(self).partials(), p) is Some
                    &&& forall|x: int| #[trigger] content(
                        partial_segs(final(self).partials(), p)->Some_0,
                        x,
                    ) == merged_content(base, seg, x)
                }
                &&& started && completes(base, seg, len) ==> {
                    &&& partial_segs(final(self).partials(), p) is None
                    &&& r is Ok <==> sha1_of(assembled(base, seg, len)) == old(self).piece_digest(p as int)
                    &&& r is Ok && len > 0 && old(self).backing().accepts_whole(p as int)
                        && old(self).backing().piece_size_of(p as int) == Some(len)
                        ==> final(self).backing().holds(p as int)
                        && final(self).backing().piece_bytes(p as int) == assembled(base, seg, len)
                    &&& r is Err ==> final(self).backing() == old(self).backing()
                    &&& r is Ok ==> r == Ok::<usize, BadBlock>(
                        newly_covered(base, seg.start as int, seg.end as int) as usize,
                    )
                    &&& r is Err ==> r == Err::<usize, BadBlock>(BadBlock)
                }
            }),
    {
        if block.piece >= self.pieces {
            return Err(BadBlock);
        }
        let piece_index = block.piece;
        let length = self.piece_lengths[piece_index];
        if block.offset > length || block.data.len() > length - block.offset {
            return Err(BadBlock);
        }
        let ghost ps0 = self.partial_pieces@;
        let ghost seg_view = Segment {
            start: block.offset,
            end: (block.offset + block.data@.len()) as usize,
            data: block.data,
        };
        self.receiving_piece(piece_index);
        let ghost ps1 = self.partial_pieces@;
        proof {
            if ps1 != ps0 {
                assert(ps1[ps1.len() - 1].piece_index() == piece_index);
                lemma_segs_at(ps1, ps1.len() - 1);
            }
            assert(forall|p: int| #[trigger] self.piece_len(p) == old(self).piece_len(p));
            assert(self.piece_lengths@ =~= old(self).piece_lengths@);
            assert forall|q: nat| q != piece_index implies #[trigger] partial_segs(ps1, q)
                == partial_segs(ps0, q) by {
                lemma_other_partials(ps0, ps1, piece_index as nat, q, |i: int| i, |j: int| j);
            }
        }
        match self.find_partial(piece_index) {
            None => {
                assert(partial_segs(ps0, piece_index as nat) is None);
                assert(old(self).backing().holds(piece_index as int) || ps0.len() >= MAX_PARTIAL_PIECES);
                Ok(0)
            },
            Some(i) => {
                let segment = Segment::new(block.offset, block.data);
                assert(segment == seg_view);
                let ghost old_pp = self.partial_pieces@[i as int];
                assert(old_pp.length() == self.piece_lengths@[piece_index as int]);
                let added = match self.partial_pieces[i].add_segment(segment) {
                    Ok(a) => a,
                    Err(e) => {
                        return Err(e);
                    },
                };
                let ghost ps2 = self.partial_pieces@;
                let ghost new_pp = ps2[i as int];
                assert(self.piece_lengths@ == old(self).piece_lengths@);
                proof {
                    assert(ps2 == ps1.update(i as int, new_pp));
                    assert(unique_pieces(ps2)) by {
                        assert forall|a: int, b: int| 0 <= a < b < ps2.len() implies #[trigger] ps2[a].piece_index()
                            != #[trigger] ps2[b].piece_index() by {
                            assert(ps1[a].piece_index() != ps1[b].piece_index());
                        }
                    }
                    assert forall|q: nat| q != piece_index implies #[trigger] partial_segs(ps2, q)
                        == partial_segs(ps1, q) by {
                        lemma_other_partials(ps1, ps2, piece_index as nat, q, |a: int| a, |j: int| j);
                    }
                    lemma_segs_at(ps2, i as int);
                    if completes(old_pp.segs(), seg_view, old_pp.length()) {
                        assert forall|x: int| 0 <= x < old_pp.length() implies #[trigger] stored_pred(
                            new_pp.segs(),
                        )(x) by {
                            assert(merged_content(old_pp.segs(), seg_view, x) is Some);
                        }
                        lemma_count_all(stored_pred(new_pp.segs()), 0, old_pp.length() as int);
                    }
                }
                if self.partial_pieces[i].is_complete() {
                    assert(completes(old_pp.segs(), seg_view, old_pp.length())) by {
                        assert forall|x: int| 0 <= x < old_pp.length() implies #[trigger] merged_content(
                            old_pp.segs(),
                            seg_view,
                            x,
                        ) is Some by {
                            assert(content(new_pp.segs(), x) is Some);
                        }
                    }
                    let done = self.partial_pieces.remove(i);
                    let ghost ps3 = self.partial_pieces@;
                    proof {
                        assert forall|q: nat| q != piece_index implies #[trigger] partial_segs(ps3, q)
                            == partial_segs(ps2, q) by {
                            let k = i as int;
                            lemma_other_partials(
                                ps2,
                                ps3,
                                piece_index as nat,
                                q,
                                |a: int| if a < k { a } else { a - 1 },
                                |j: int| if j < k { j } else { j + 1 },
                            );
                        }
                        if has_partial(ps3, piece_index as nat) {
                            let k = choose|k: int| 0 <= k < ps3.len() && #[trigger] ps3[k].piece_index() == piece_index;
                            if k < i {
                                assert(ps2[k].piece_index() != ps2[i as int].piece_index());
                            } else {
                                assert(ps2[i as int].piece_index() != ps2[k + 1].piece_index());
                            }
                        }
                    }
                    let mut segs = done.into_segments();
                    let data = if segs.len() > 0 {
                        segs.remove(0).data
                    } else {
                        Vec::new()
                    };
                    proof {
                        lemma_assembled(new_pp.segs(), old_pp.segs(), seg_view, old_pp.length(), data@);
                    }
                    assert(self.digests@ == old(self).digests@);
                    if digest_matches(data.as_slice(), &self.digests[piece_index]) {
                        let whole = Block::new(piece_index, 0, data);
                        let _ = self.backed_storage.store_block(whole);
                        Ok(added)
                    } else {
                        Err(BadBlock)
                    }
                } else {
                    Ok(added)
                }
            },
        }
    }
    /// The gap requests of every piece being assembled, piece after piece.
    pub fn partial_requests(&self) -> (r: Vec<Request>)
        requires
            self.inv(),
        ensures
            r@ == partials_requests(self.partials(), self.partials().len() as int),
    {
        let mut out: Vec<Request> = Vec::new();
        let mut i: usize = 0;
        while i < self.partial_pieces.len()
            invariant
                self.inv(),
                i <= self.partials().len(),
                out@ == partials_requests(self.partials(), i as int),
            decreases self.partials().len() - i,
        {
            let reqs = self.partial_pieces[i].requests();
            let mut k: usize = 0;
            let ghost start = out@;
            while k < reqs.len()
                invariant
                    k <= reqs@.len(),
                    out@ == start + reqs@.subrange(0, k as int),
                decreases reqs@.len() - k,
            {
                out.push(reqs[k]);
                k = k + 1;
                assert(out@ =~= start + reqs@.subrange(0, k as int));
            }
            assert(reqs@.subrange(0, k as int) =~= reqs@);
            i = i + 1;
        }
        out
    }

    /// The bytes still missing from the pieces being assembled, or
    /// `usize::MAX` if that is more.
    fn partial_missing(&self) -> (r: usize)
        requires
            self.inv(),
        ensures
            r == min_nat(partials_missing(self.partials(), self.partials().len() as int), usize::MAX as nat),
    {
        let mut total: usize = 0;
        let mut i: usize = 0;
        while i < self.partial_pieces.len()
            invariant
                self.inv(),
                i <= self.partials().len(),
                total == min_nat(partials_missing(self.partials(), i as int), usize::MAX as nat),
            decreases self.partials().len() - i,
        {
            let m = self.partial_pieces[i].bytes_missing();
            total = total.saturating_add(m);
            i = i + 1;
        }
        total
    }
}

pub open spec fn min_nat(a: nat, b: nat) -> nat {
    if a < b {
        a
    } else {
        b
    }
}

impl<S: Storage> Storage for PartialStorage<S> {
    closed spec fn wf(&self) -> bool {
        self.inv()
    }

    closed spec fn holds(&self, index: int) -> bool {
        self.backed_storage.holds(index)
    }

    closed spec fn piece_bytes(&self, index: int) -> Seq<u8> {
        self.backed_storage.piece_bytes(index)
    }

    closed spec fn digest_of(&self, index: int) -> Seq<u8> {
        if 0 <= index < self.pieces {
            self.digests@[index]@
        } else {
            Seq::empty()
        }
    }

    /// What the backing store misses, and what the pieces being assembled
    /// miss, which may count some bytes twice.
    closed spec fn missing(&self) -> nat {
        min_nat(
            self.backed_storage.missing() + partials_missing(
                self.partial_pieces@,
                self.partial_pieces@.len() as int,
            ),
            usize::MAX as nat,
        )
    }

    /// Pieces stored here go through assembly, which may drop them when
    /// too many are in flight; this store promises nothing more.
    closed spec fn accepts_whole(&self, index: int) -> bool {
        false
    }

    closed spec fn store_outcome(&self, block: Block, after: Self, r: Result<usize, BadBlock>) -> bool {
        &&& (after.inv())
        &&& (after.piece_count() == self.piece_count())
        &&& (forall|p: int| #[trigger] after.piece_len(p) == self.piece_len(p))
        &&& (forall|p: int| #[trigger] self.backing().holds(p) ==> after.backing().holds(p))
        &&& (r is Err ==> after.backing() == self.backing())
        &&& (block.piece >= self.piece_count() ==> r == Err::<usize, BadBlock>(BadBlock)
                && after.partials() == self.partials() && after.backing() == self.backing())
        &&& (block.piece < self.piece_count() && block.offset + block.data@.len() > self.piece_len(block.piece as int) ==> r == Err::<usize, BadBlock>(BadBlock)
                && after.partials() == self.partials() && after.backing() == self.backing())
        &&& (block.piece < self.piece_count() && block.offset + block.data@.len() <= self.piece_len(block.piece as int) ==> ({
                let p = block.piece as nat;
                let before = partial_segs(self.partials(), p);
                let started = before is Some || (!self.backing().holds(p as int) && self.partials().len() < MAX_PARTIAL_PIECES);
                let base = if before is Some {
                    before->Some_0
                } else {
                    Seq::<Segment>::empty()
                };
                let seg = Segment {
                    start: block.offset,
                    end: (block.offset + block.data@.len()) as usize,
                    data: block.data,
                };
                let len = self.piece_len(p as int);
                &&& forall|q: nat|
                    q != p ==> #[trigger] partial_segs(after.partials(), q) == partial_segs(
                        self.partials(),
                        q,
                    )
                &&& !started ==> r == Ok::<usize, BadBlock>(0) && after.partials() == self.partials() && after.backing() == self.backing()
                &&& started && !completes(base, seg, len) ==> {
                    &&& r == Ok::<usize, BadBlock>(
                        newly_covered(base, seg.start as int, seg.end as int) as usize,
                    )
                    &&& partial_segs(after.partials(), p) is Some
                    &&& forall|x: int| #[trigger] content(
                        partial_segs(after.partials(), p)->Some_0,
                        x,
                    ) == merged_content(base, seg, x)
                }
                &&& started && completes(base, seg, len) ==> {
                    &&& partial_segs(after.partials(), p) is None
                    &&& r is Ok <==> sha1_of(assembled(base, seg, len)) == self.piece_digest(p as int)
                    &&& r is Err ==> after.backing() == self.backing()
                    &&& r is Ok ==> r == Ok::<usize, BadBlock>(
                        newly_covered(base, seg.start as int, seg.end as int) as usize,
                    )
                    &&& r is Err ==> r == Err::<usize, BadBlock>(BadBlock)
                }
            }))
    }

    closed spec fn fill_plan(&self) -> Seq<Request> {
        partials_requests(self.partial_pieces@, self.partial_pieces@.len() as int)
            + self.backed_storage.fill_plan()
    }

    closed spec fn piece_size_of(&self, index: int) -> Option<nat> {
        if 0 <= index < self.pieces {
            Some(self.piece_lengths@[index] as nat)
        } else {
            None
        }
    }

    fn piece_size(&self, index: usize) -> (r: Option<usize>) {
        if index < self.pieces {
            Some(self.piece_lengths[index])
        } else {
            None
        }
    }

    fn new(info: TorrentInfo) -> (r: Self)
        ensures
            r.partials() == Seq::<PartialPiece>::empty(),
            r.piece_count() == info.pieces@.len(),
            forall|i: int| 0 <= i < info.pieces@.len() ==> #[trigger] r.piece_len(i) == piece_sizes_of(info)[i]
                && r.piece_digest(i) == info.pieces@[i]@,
            forall|i: int| !#[trigger] r.backing().holds(i),
    {
        let piece_lengths = piece_sizes(&info);
        let pieces = info.pieces.len();
        let digests = info.pieces.clone();
        let backed = S::new(info);
        PartialStorage {
            partial_pieces: Vec::new(),
            backed_storage: backed,
            pieces: pieces,
            piece_lengths: piece_lengths,
            digests: digests,
        }
    }

    fn get_piece(&self, index: usize) -> (r: Option<&[u8]>) {
        let r = self.backed_storage.get_piece(index);
        proof {
            if r is Some {
                assert(r->Some_0@ == self.piece_bytes(index as int));
                assert(sha1_of_matches(r->Some_0@, self.digest_of(index as int)));
                assert(self.backed_storage.piece_size_of(index as int) is Some);
                assert(self.piece_size_of(index as int) == Some(r->Some_0@.len()));
            }
        }
        r
    }

    fn store_block(&mut self, block: Block) -> (r: Result<usize, BadBlock>)
        ensures
            final(self).inv(),
            final(self).piece_count() == old(self).piece_count(),
            forall|p: int| #[trigger] final(self).piece_len(p) == old(self).piece_len(p),
            forall|p: int| #[trigger] old(self).backing().holds(p) ==> final(self).backing().holds(p),
            r is Err ==> final(self).backing() == old(self).backing(),
            forall|i: int| i != block.piece ==> #[trigger] final(self).backing().holds(i) == old(self).backing().holds(i),
            forall|i: int| #[trigger] final(self).backing().digest_of(i) == old(self).backing().digest_of(i),
            forall|i: int| #[trigger] final(self).piece_digest(i) == old(self).piece_digest(i),
            block.piece >= old(self).piece_count() ==> r == Err::<usize, BadBlock>(BadBlock)
                && final(self).partials() == old(self).partials() && final(self).backing() == old(self).backing(),
            block.piece < old(self).piece_count() && block.offset + block.data@.len() > old(self).piece_len(block.piece as int) ==> r == Err::<usize, BadBlock>(BadBlock)
                && final(self).partials() == old(self).partials() && final(self).backing() == old(self).backing(),
            block.piece < old(self).piece_count() && block.offset + block.data@.len() <= old(self).piece_len(block.piece as int) ==> ({
                let p = block.piece as nat;
                let before = partial_segs(old(self).partials(), p);
                let started = before is Some || (!old(self).backing().holds(p as int) && old(self).partials().len() < MAX_PARTIAL_PIECES);
                let base = if before is Some {
                    before->Some_0
                } else {
                    Seq::<Segment>::empty()
                };
                let seg = Segment {
                    start: block.offset,
                    end: (block.offset + block.data@.len()) as usize,
                    data: block.data,
                };
                let len = old(self).piece_len(p as int);
                &&& forall|q: nat|
                    q != p ==> #[trigger] partial_segs(final(self).partials(), q) == partial_segs(
                        old(self).partials(),
                        q,
                    )
                &&& !started ==> r == Ok::<usize, BadBlock>(0) && final(self).partials() == old(self).partials() && final(self).backing() == old(self).backing()
                &&& started && !completes(base, seg, len) ==> {
                    &&& r == Ok::<usize, BadBlock>(
                        newly_covered(base, seg.start as int, seg.end as int) as usize,
                    )
                    &&& partial_segs(final(self).partials(), p) is Some
                    &&& forall|x: int| #[trigger] content(
                        partial_segs(final(self).partials(), p)->Some_0,
                        x,
                    ) == merged_content(base, seg, x)
                }
                &&& started && completes(base, seg, len) ==> {
                    &&& partial_segs(final(self).partials(), p) is None
                    &&& r is Ok <==> sha1_of(assembled(base, seg, len)) == old(self).piece_digest(p as int)
                    &&& r is Ok && len > 0 && old(self).backing().accepts_whole(p as int)
                        && old(self).backing().piece_size_of(p as int) == Some(len)
                        ==> final(self).backing().holds(p as int)
                        && final(self).backing().piece_bytes(p as int) == assembled(base, seg, len)
                    &&& r is Err ==> final(self).backing() == old(self).backing()
                    &&& r is Ok ==> r == Ok::<usize, BadBlock>(
                        newly_covered(base, seg.start as int, seg.end as int) as usize,
                    )
                    &&& r is Err ==> r == Err::<usize, BadBlock>(BadBlock)
                }
            }),
    {
        let r = self.merge_block(block);
        assert forall|i: int| #[trigger] self.piece_size_of(i) == old(self).piece_size_of(i) by {
            assert(self.piece_len(i) == old(self).piece_len(i));
        }
        assert forall|i: int| #[trigger] self.digest_of(i) == old(self).digest_of(i) by {
            assert(self.piece_digest(i) == old(self).piece_digest(i));
        }
        r
    }

    fn bytes_missing(&self) -> (r: usize) {
        let from_partials = self.partial_missing();
        self.backed_storage.bytes_missing().saturating_add(from_partials)
    }

    fn requests(&self) -> (r: Vec<Request>) {
        let mut out = self.partial_requests();
        let mut rest = self.backed_storage.requests();
        out.append(&mut rest);
        out
    }
}

} // verus!
