//! Whole pieces kept in memory. A piece grows from its start only; once it
//! is complete it must match its digest, or it is emptied again.

use crate::digest::{digest_matches, sha1_of};
use crate::request::Request;
use crate::storage::{
    info_fits, piece_sizes, piece_sizes_of, sha1_of_matches, BadBlock, Block, Storage,
};
use crate::torrent::TorrentInfo;
use crate::wire::extend_bytes;
use vstd::prelude::*;
use vstd::slice::slice_subrange;

verus! {

/// A piece and the prefix of it received so far.
pub struct Piece {
    pub index: usize,
    pub size: usize,
    pub data: Vec<u8>,
    pub hash: [u8; 20],
}

pub open spec fn piece_wf(p: Piece) -> bool {
    &&& p.data@.len() <= p.size
    &&& p.size > 0 && p.data@.len() == p.size ==> sha1_of(p.data@) == p.hash@
}

/// A complete piece of positive size: one that the store shows.
pub open spec fn piece_held(p: Piece) -> bool {
    p.size > 0 && p.data@.len() == p.size
}

/// The bytes still missing from the first `n` pieces.
pub open spec fn missing_sum(ps: Seq<Piece>, n: int) -> nat
    decreases n,
{
    if n <= 0 || n > ps.len() {
        0
    } else {
        missing_sum(ps, n - 1) + (ps[n - 1].size - ps[n - 1].data@.len()) as nat
    }
}

/// The sizes of the first `n` pieces.
pub open spec fn size_sum(ps: Seq<Piece>, n: int) -> nat
    decreases n,
{
    if n <= 0 || n > ps.len() {
        0
    } else {
        size_sum(ps, n - 1) + ps[n - 1].size as nat
    }
}

/// The request that fills piece `p`, if it is not complete.
pub open spec fn fill_request(p: Piece) -> Option<Request> {
    if p.data@.len() < p.size {
        Some(
            Request {
                piece: p.index,
                offset: p.data@.len() as usize,
                length: (p.size - p.data@.len()) as usize,
            },
        )
    } else {
        None
    }
}

/// The received prefix of `p` once `data` arrives at `offset`, and the
/// number of bytes it gained: data that extends the prefix is appended; a
/// piece that becomes complete but does not match its digest is emptied.
pub open spec fn after_block(p: Piece, offset: int, data: Seq<u8>) -> (Seq<u8>, nat) {
    let old_end = p.data@.len() as int;
    let new_end = offset + data.len();
    if new_end > old_end && offset <= old_end {
        let grown = p.data@ + data.subrange(old_end - offset, data.len() as int);
        (if new_end == p.size && sha1_of(grown) != p.hash@ {
            Seq::empty()
        } else {
            grown
        }, (new_end - old_end) as nat)
    } else {
        (p.data@, 0)
    }
}

/// The fill requests of the first `n` pieces, in order.
pub open spec fn fill_requests(ps: Seq<Piece>, n: int) -> Seq<Request>
    decreases n,
{
    if n <= 0 || n > ps.len() {
        Seq::empty()
    } else {
        fill_requests(ps, n - 1) + match fill_request(ps[n - 1]) {
            Some(r) => seq![r],
            None => Seq::empty(),
        }
    }
}

proof fn lemma_missing_le_size(ps: Seq<Piece>, n: int)
    requires
        0 <= n <= ps.len(),
        forall|i: int| 0 <= i < ps.len() ==> #[trigger] ps[i].data@.len() <= ps[i].size,
    ensures
        missing_sum(ps, n) <= size_sum(ps, n),
    decreases n,
{
    if n > 0 {
        lemma_missing_le_size(ps, n - 1);
    }
}

proof fn lemma_sum_prefix(ps: Seq<Piece>, k: int, n: int)
    requires
        0 <= k <= n <= ps.len(),
    ensures
        size_sum(ps, k) <= size_sum(ps, n),
    decreases n - k,
{
    if k < n {
        lemma_sum_prefix(ps, k, n - 1);
    }
}

proof fn lemma_sums_update(ps: Seq<Piece>, i: int, p: Piece, n: int)
    requires
        0 <= i < ps.len(),
        0 <= n <= ps.len(),
        p.size == ps[i].size,
        p.data@.len() <= p.size,
        ps[i].data@.len() <= ps[i].size,
    ensures
        size_sum(ps.update(i, p), n) == size_sum(ps, n),
        n > i ==> missing_sum(ps.update(i, p), n) + ps[i].size - ps[i].data@.len() == missing_sum(
            ps,
            n,
        ) + p.size - p.data@.len(),
        n <= i ==> missing_sum(ps.update(i, p), n) == missing_sum(ps, n),
    decreases n,
{
    if n > 0 {
        lemma_sums_update(ps, i, p, n - 1);
    }
}

impl Piece {
    pub fn is_complete(&self) -> (r: bool)
        ensures
            r == (self.data@.len() == self.size),
    {
        self.size == self.data.len()
    }

    /// An incomplete piece is not known to be wrong; a complete one must
    /// match its digest.
    pub fn is_correct(&self) -> (r: bool)
        ensures
            r == (self.data@.len() != self.size || sha1_of(self.data@) == self.hash@),
    {
        if !self.is_complete() {
            return true;
        }
        digest_matches(self.data.as_slice(), &self.hash)
    }

    /// Empties a complete piece that does not match its digest.
    pub fn validate(&mut self)
        ensures
            final(self).index == old(self).index,
            final(self).size == old(self).size,
            final(self).hash == old(self).hash,
            old(self).data@.len() == old(self).size && sha1_of(old(self).data@) != old(self).hash@
                ==> final(self).data@ == Seq::<u8>::empty(),
            !(old(self).data@.len() == old(self).size && sha1_of(old(self).data@) != old(
                self,
            ).hash@) ==> final(self).data@ == old(self).data@,
    {
        if !self.is_correct() {
            self.data.clear();
        }
    }

    /// The request for the rest of the piece, if anything is missing.
    pub fn create_fill_request(&self) -> (r: Option<Request>)
        requires
            self.data@.len() <= self.size,
        ensures
            r == fill_request(*self),
    {
        let missing_size = self.size - self.data.len();
        let offset = self.data.len();
        if missing_size > 0 {
            Some(Request::new(self.index, offset, missing_size))
        } else {
            None
        }
    }

    /// Takes `data` at `offset` where it extends the received prefix; the
    /// result is the number of bytes appended.
    fn extend_with(&mut self, offset: usize, data: &[u8]) -> (r: usize)
        requires
            piece_wf(*old(self)),
            offset + data@.len() <= old(self).size,
        ensures
            piece_wf(*final(self)),
            final(self).index == old(self).index,
            final(self).size == old(self).size,
            final(self).hash == old(self).hash,
            final(self).data@ == after_block(*old(self), offset as int, data@).0,
            r == after_block(*old(self), offset as int, data@).1,
    {
        let old_end = self.data.len();
        let new_end = offset + data.len();
        if new_end > old_end && offset <= old_end {
            let skip = old_end - offset;
            extend_bytes(&mut self.data, slice_subrange(data, skip, data.len()));
            self.validate();
            new_end - old_end
        } else {
            0
        }
    }
}

/// Whole pieces in memory.
pub struct MemoryStorage {
    pieces: Vec<Piece>,
}

impl MemoryStorage {
    pub closed spec fn pieces_view(&self) -> Seq<Piece> {
        self.pieces@
    }
}

impl MemoryStorage {
    /// Stores a block: a block for an unknown piece, or reaching past its
    /// piece, is refused; otherwise its piece becomes what `after_block`
    /// says, and the result is the number of bytes gained.
    pub fn add_block(&mut self, block: Block) -> (r: Result<usize, BadBlock>)
        requires
            old(self).wf(),
        ensures
            final(self).wf(),
            ({
                let ps = old(self).pieces_view();
                let i = block.piece as int;
                let refused = i >= ps.len() || block.offset + block.data@.len() > ps[i].size;
                &&& refused ==> r == Err::<usize, BadBlock>(BadBlock) && final(self).pieces_view() == ps
                &&& !refused ==> {
                    let (data, gained) = after_block(ps[i], block.offset as int, block.data@);
                    &&& r == Ok::<usize, BadBlock>(gained as usize)
                    &&& final(self).pieces_view().len() == ps.len()
                    &&& final(self).pieces_view()[i].data@ == data
                    &&& final(self).pieces_view()[i].size == ps[i].size
                    &&& final(self).pieces_view()[i].hash == ps[i].hash
                    &&& forall|k: int| 0 <= k < ps.len() && k != i ==> #[trigger] final(self).pieces_view()[k] == ps[k]
                }
            }),
    {
        if block.piece >= self.pieces.len() {
            return Err(BadBlock);
        }
        let i = block.piece;
        let size = self.pieces[i].size;
        if block.offset > size || block.data.len() > size - block.offset {
            return Err(BadBlock);
        }
        let ghost before = self.pieces@;
        assert(piece_wf(before[i as int]));
        let added = self.pieces[i].extend_with(block.offset, block.data.as_slice());
        proof {
            let ps = self.pieces@;
            assert(ps == before.update(i as int, ps[i as int]));
            lemma_sums_update(before, i as int, ps[i as int], before.len() as int);
            assert forall|k: int| 0 <= k < ps.len() implies piece_wf(#[trigger] ps[k]) && ps[k].index
                == k by {
                if k != i {
                    assert(ps[k] == before[k]);
                }
            }
        }
        Ok(added)
    }
}

impl Storage for MemoryStorage {
    closed spec fn wf(&self) -> bool {
        &&& forall|i: int|
            0 <= i < self.pieces@.len() ==> piece_wf(#[trigger] self.pieces@[i])
                && self.pieces@[i].index == i
        &&& size_sum(self.pieces@, self.pieces@.len() as int) <= usize::MAX
    }

    closed spec fn holds(&self, index: int) -> bool {
        0 <= index < self.pieces@.len() && piece_held(self.pieces@[index])
    }

    closed spec fn piece_bytes(&self, index: int) -> Seq<u8> {
        self.pieces@[index].data@
    }

    closed spec fn digest_of(&self, index: int) -> Seq<u8> {
        if 0 <= index < self.pieces@.len() {
            self.pieces@[index].hash@
        } else {
            Seq::empty()
        }
    }

    closed spec fn missing(&self) -> nat {
        missing_sum(self.pieces@, self.pieces@.len() as int)
    }

    closed spec fn accepts_whole(&self, index: int) -> bool {
        0 <= index < self.pieces@.len() && self.pieces@[index].data@.len() == 0
    }

    closed spec fn store_outcome(&self, block: Block, after: Self, r: Result<usize, BadBlock>) -> bool {
            ({
                let ps = self.pieces@;
                let i = block.piece as int;
                let refused = i >= ps.len() || block.offset + block.data@.len() > ps[i].size;
                &&& refused ==> r == Err::<usize, BadBlock>(BadBlock) && after.pieces@ == ps
                &&& !refused ==> {
                    let (data, gained) = after_block(ps[i], block.offset as int, block.data@);
                    &&& r == Ok::<usize, BadBlock>(gained as usize)
                    &&& after.pieces@.len() == ps.len()
                    &&& after.pieces@[i].data@ == data
                    &&& after.pieces@[i].size == ps[i].size
                    &&& after.pieces@[i].hash == ps[i].hash
                    &&& forall|k: int| 0 <= k < ps.len() && k != i ==> #[trigger] after.pieces@[k] == ps[k]
                }
            })
    }

    closed spec fn fill_plan(&self) -> Seq<Request> {
        fill_requests(self.pieces@, self.pieces@.len() as int)
    }

    closed spec fn piece_size_of(&self, index: int) -> Option<nat> {
        if 0 <= index < self.pieces@.len() {
            Some(self.pieces@[index].size as nat)
        } else {
            None
        }
    }

    fn piece_size(&self, index: usize) -> (r: Option<usize>) {
        if index < self.pieces.len() {
            Some(self.pieces[index].size)
        } else {
            None
        }
    }

    fn new(info: TorrentInfo) -> (r: Self)
        ensures
            r.pieces_view().len() == info.pieces@.len(),
            forall|i: int|
                0 <= i < info.pieces@.len() ==> (#[trigger] r.pieces_view()[i]).size
                    == piece_sizes_of(info)[i] && r.pieces_view()[i].hash@ == info.pieces@[i]@
                    && r.pieces_view()[i].data@.len() == 0 && r.digest_of(i) == info.pieces@[i]@
                    && r.accepts_whole(i),
            r.missing() == crate::storage::seq_sum(piece_sizes_of(info), info.pieces@.len() as int),
            r.missing() == crate::storage::total_length(info.files@),
    {
        let sizes = piece_sizes(&info);
        let ghost all = piece_sizes_of(info);
        let mut pieces: Vec<Piece> = Vec::new();
        let mut i: usize = 0;
        let n = info.pieces.len();
        proof {
            crate::storage::lemma_sizes_sum(info);
        }
        while i < n
            invariant
                i <= n == info.pieces@.len() == sizes@.len(),
                pieces@.len() == i,
                forall|k: int| 0 <= k < i ==> #[trigger] pieces@[k].size == sizes@[k] && pieces@[k].hash == info.pieces@[k],
                forall|k: int|
                    0 <= k < i ==> piece_wf(#[trigger] pieces@[k]) && pieces@[k].index == k
                        && pieces@[k].data@.len() == 0,
                all.len() == n,
                forall|k: int| 0 <= k < sizes@.len() ==> sizes@[k] == #[trigger] all[k],
                crate::storage::seq_sum(all, n as int) <= usize::MAX,
                size_sum(pieces@, i as int) == crate::storage::seq_sum(all, i as int),
            decreases n - i,
        {
            let p = Piece { index: i, size: sizes[i], data: Vec::new(), hash: info.pieces[i] };
            let ghost before = pieces@;
            pieces.push(p);
            proof {
                lemma_size_sum_push(before, p, i as int);
                assert(crate::storage::seq_sum(all, i + 1) == crate::storage::seq_sum(all, i as int)
                    + all[i as int]);
            }
            i = i + 1;
        }
        proof {
            crate::storage::lemma_seq_sum_prefix(all, n as int);
        }
        proof {
            lemma_missing_all(pieces@, n as int);
        }
        let r = MemoryStorage { pieces: pieces };
        assert forall|k: int| !#[trigger] r.holds(k) by {
            if 0 <= k < r.pieces@.len() {
                assert(r.pieces@[k].data@.len() == 0);
            }
        }
        r
    }

    fn get_piece(&self, index: usize) -> (r: Option<&[u8]>) {
        if index < self.pieces.len() {
            let piece = &self.pieces[index];
            assert(piece_wf(self.pieces@[index as int]));
            assert(piece.size > 0 && piece.data@.len() == piece.size ==> sha1_of_matches(
                piece.data@,
                piece.hash@,
            ));
            if piece.size > 0 && piece.data.len() == piece.size {
                let d = piece.data.as_slice();
                assert(d@ == self.piece_bytes(index as int));
                assert(self.piece_size_of(index as int) == Some(d@.len()));
                assert(sha1_of_matches(d@, self.digest_of(index as int)));
                Some(d)
            } else {
                None
            }
        } else {
            None
        }
    }

    fn store_block(&mut self, block: Block) -> (r: Result<usize, BadBlock>)
        ensures
            ({
                let ps = old(self).pieces_view();
                let i = block.piece as int;
                let refused = i >= ps.len() || block.offset + block.data@.len() > ps[i].size;
                &&& refused ==> r == Err::<usize, BadBlock>(BadBlock) && final(self).pieces_view() == ps
                &&& !refused ==> {
                    let (data, gained) = after_block(ps[i], block.offset as int, block.data@);
                    &&& r == Ok::<usize, BadBlock>(gained as usize)
                    &&& final(self).pieces_view().len() == ps.len()
                    &&& final(self).pieces_view()[i].data@ == data
                    &&& final(self).pieces_view()[i].size == ps[i].size
                    &&& final(self).pieces_view()[i].hash == ps[i].hash
                    &&& forall|k: int| 0 <= k < ps.len() && k != i ==> #[trigger] final(self).pieces_view()[k] == ps[k]
                }
            }),
    {
        let ghost before = self.pieces@;
        let ghost blk = block;
        let r = self.add_block(block);
        proof {
            let i = blk.piece as int;
            if old(self).accepts_whole(i) && old(self).piece_size_of(i) == Some(blk.data@.len())
                && blk.offset == 0 && blk.data@.len() > 0
                && crate::digest::sha1_of(blk.data@) == old(self).digest_of(i) {
                assert(blk.data@.subrange(0, blk.data@.len() as int) =~= blk.data@);
                assert(before[i].data@ + blk.data@ =~= blk.data@);
            }
            assert forall|k: int| #[trigger] old(self).holds(k) implies self.holds(k) by {
                assert(piece_wf(before[k]));
            }
        }
        r
    }

    fn bytes_missing(&self) -> (r: usize) {
        let mut total: usize = 0;
        let mut i: usize = 0;
        proof {
            lemma_missing_le_size(self.pieces@, self.pieces@.len() as int);
        }
        while i < self.pieces.len()
            invariant
                self.wf(),
                i <= self.pieces@.len(),
                total == missing_sum(self.pieces@, i as int),
            decreases self.pieces@.len() - i,
        {
            proof {
                assert(piece_wf(self.pieces@[i as int]));
                lemma_missing_le_size(self.pieces@, i + 1);
                lemma_sum_prefix(self.pieces@, i + 1, self.pieces@.len() as int);
            }
            let piece = &self.pieces[i];
            total = total + (piece.size - piece.data.len());
            i = i + 1;
        }
        total
    }

    fn requests(&self) -> (r: Vec<Request>) {
        let mut out: Vec<Request> = Vec::new();
        let mut i: usize = 0;
        while i < self.pieces.len()
            invariant
                self.wf(),
                i <= self.pieces@.len(),
                out@ == fill_requests(self.pieces@, i as int),
            decreases self.pieces@.len() - i,
        {
            assert(piece_wf(self.pieces@[i as int]));
            match self.pieces[i].create_fill_request() {
                Some(r) => out.push(r),
                None => {},
            }
            i = i + 1;
            assert(out@ =~= fill_requests(self.pieces@, i as int));
        }
        out
    }
}

proof fn lemma_missing_all(ps: Seq<Piece>, n: int)
    requires
        0 <= n <= ps.len(),
        forall|k: int| 0 <= k < ps.len() ==> (#[trigger] ps[k]).data@.len() == 0,
    ensures
        missing_sum(ps, n) == size_sum(ps, n),
    decreases n,
{
    if n > 0 {
        lemma_missing_all(ps, n - 1);
    }
}

proof fn lemma_size_sum_push(ps: Seq<Piece>, p: Piece, n: int)
    requires
        0 <= n <= ps.len(),
    ensures
        size_sum(ps.push(p), ps.len() + 1 as int) == size_sum(ps, ps.len() as int) + p.size,
{
    assert(ps.push(p)[ps.len() as int] == p);
    lemma_size_sum_push_all(ps, p, ps.len() as int);
    assert(size_sum(ps.push(p), ps.len() + 1 as int) == size_sum(ps.push(p), ps.len() as int)
        + p.size);
}

proof fn lemma_size_sum_push_all(ps: Seq<Piece>, p: Piece, n: int)
    requires
        0 <= n <= ps.len(),
    ensures
        size_sum(ps.push(p), n) == size_sum(ps, n),
    decreases n,
{
    if n > 0 {
        lemma_size_sum_push_all(ps, p, n - 1);
    }
}

} // verus!
