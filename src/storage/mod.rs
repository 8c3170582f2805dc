//! Piece storage: the interface the orchestrator consumes, an in-memory
//! store of whole pieces, and a layer that assembles pieces from blocks.

pub mod count;
pub mod dummy;
pub mod memory;
pub mod partial;

use crate::request::Request;
use crate::torrent::{File, TorrentInfo};
use vstd::prelude::*;

verus! {

/// A block that does not fit its piece, or a piece that failed its digest.
#[derive(Debug, PartialEq, Eq, Structural)]
pub struct BadBlock;

/// `data` for piece `piece` from offset `offset`.
#[derive(Debug)]
pub struct Block {
    pub piece: usize,
    pub offset: usize,
    pub data: Vec<u8>,
}

impl Block {
    pub fn new(piece: usize, offset: usize, data: Vec<u8>) -> (r: Block)
        ensures
            r == (Block { piece, offset, data }),
    {
        Block { piece: piece, offset: offset, data: data }
    }
}

/// The sum of the file lengths.
pub open spec fn total_length(files: Seq<File>) -> nat
    decreases files.len(),
{
    if files.len() == 0 {
        0
    } else {
        total_length(files.drop_last()) + files.last().length as nat
    }
}

/// The sizes of `n` pieces of at most `piece_length` bytes each, cut in
/// order from `remaining` bytes; pieces past the end are empty.
pub open spec fn sizes_from(remaining: nat, piece_length: nat, n: nat) -> Seq<nat>
    decreases n,
{
    if n == 0 {
        Seq::empty()
    } else {
        let s = if remaining > piece_length {
            piece_length
        } else {
            remaining
        };
        seq![s] + sizes_from((remaining - s) as nat, piece_length, (n - 1) as nat)
    }
}

/// The size of each piece of `info`.
pub open spec fn piece_sizes_of(info: TorrentInfo) -> Seq<nat> {
    sizes_from(total_length(info.files@), info.piece_length as nat, info.pieces@.len())
}

/// Metadata whose sizes fit the machine's integers.
pub open spec fn info_fits(info: TorrentInfo) -> bool {
    &&& total_length(info.files@) <= usize::MAX
    &&& info.piece_length <= usize::MAX
}

/// Metadata whose pieces cut the files exactly: every piece has bytes,
/// and the pieces together are as long as the files.
pub open spec fn layout_ok(info: TorrentInfo) -> bool {
    &&& forall|i: int| 0 <= i < info.pieces@.len() ==> #[trigger] piece_sizes_of(info)[i] > 0
    &&& seq_sum(piece_sizes_of(info), info.pieces@.len() as int) == total_length(info.files@)
}

/// Whether the sizes of `info` fit the machine's integers.
pub fn check_fits(info: &TorrentInfo) -> (r: bool)
    ensures
        r == info_fits(*info),
{
    let mut total: u128 = 0;
    let mut i: usize = 0;
    while i < info.files.len()
        invariant
            i <= info.files@.len(),
            total == total_length(info.files@.subrange(0, i as int)),
            total <= usize::MAX,
        decreases info.files@.len() - i,
    {
        proof {
            assert(info.files@.subrange(0, i + 1).drop_last() =~= info.files@.subrange(0, i as int));
            lemma_total_prefix(info.files@, i + 1);
        }
        total = total + info.files[i].length as u128;
        if total > usize::MAX as u128 {
            proof {
                lemma_total_prefix(info.files@, i + 1);
            }
            return false;
        }
        i = i + 1;
    }
    assert(info.files@.subrange(0, i as int) =~= info.files@);
    (info.piece_length as u128) <= usize::MAX as u128
}

/// Whether the pieces of `info` cut its files exactly.
pub fn check_layout(info: &TorrentInfo) -> (r: bool)
    requires
        info_fits(*info),
    ensures
        r == layout_ok(*info),
{
    let sizes = piece_sizes(info);
    let total = files_length(&info.files);
    let ghost all = piece_sizes_of(*info);
    let n = sizes.len();
    let mut sum: usize = 0;
    let mut i: usize = 0;
    proof {
        lemma_sizes_sum(*info);
        lemma_seq_sum_prefix(all, n as int);
    }
    while i < n
        invariant
            i <= n,
            n == sizes@.len(),
            n == info.pieces@.len(),
            n == all.len(),
            all == piece_sizes_of(*info),
            forall|k: int| 0 <= k < n ==> sizes@[k] == #[trigger] all[k],
            forall|k: int| 0 <= k <= n ==> #[trigger] seq_sum(all, k) <= seq_sum(all, n as int),
            seq_sum(all, n as int) <= total,
            total == total_length(info.files@),
            sum == seq_sum(all, i as int),
            forall|k: int| 0 <= k < i ==> #[trigger] all[k] > 0,
        decreases n - i,
    {
        if sizes[i] == 0 {
            assert(all[i as int] == 0);
            assert(!layout_ok(*info));
            return false;
        }
        assert(seq_sum(all, i + 1) == seq_sum(all, i as int) + all[i as int]);
        sum = sum + sizes[i];
        i = i + 1;
    }
    sum == total
}

proof fn lemma_sizes_bound(remaining: nat, piece_length: nat, n: nat)
    ensures
        sizes_from(remaining, piece_length, n).len() == n,
        forall|i: int|
            0 <= i < n ==> #[trigger] sizes_from(remaining, piece_length, n)[i] <= remaining,
    decreases n,
{
    if n > 0 {
        let s = if remaining > piece_length {
            piece_length
        } else {
            remaining
        };
        lemma_sizes_bound((remaining - s) as nat, piece_length, (n - 1) as nat);
        let t = sizes_from((remaining - s) as nat, piece_length, (n - 1) as nat);
        assert forall|i: int| 0 <= i < n implies #[trigger] sizes_from(
            remaining,
            piece_length,
            n,
        )[i] <= remaining by {
            if i > 0 {
                assert(sizes_from(remaining, piece_length, n)[i] == t[i - 1]);
            }
        }
    }
}

/// The sum of the file lengths of `files`.
pub fn files_length(files: &Vec<File>) -> (r: usize)
    requires
        total_length(files@) <= usize::MAX,
    ensures
        r == total_length(files@),
{
    let mut total: usize = 0;
    let mut i: usize = 0;
    while i < files.len()
        invariant
            i <= files@.len(),
            total == total_length(files@.subrange(0, i as int)),
            total_length(files@) <= usize::MAX,
        decreases files@.len() - i,
    {
        proof {
            assert(files@.subrange(0, i + 1).drop_last() =~= files@.subrange(0, i as int));
            lemma_total_prefix(files@, i + 1);
        }
        total = total + files[i].length as usize;
        i = i + 1;
    }
    assert(files@.subrange(0, i as int) =~= files@);
    total
}

proof fn lemma_total_prefix(files: Seq<File>, k: int)
    requires
        0 <= k <= files.len(),
    ensures
        total_length(files.subrange(0, k)) <= total_length(files),
    decreases files.len() - k,
{
    if k < files.len() {
        lemma_total_prefix(files, k + 1);
        assert(files.subrange(0, k + 1).drop_last() =~= files.subrange(0, k));
    } else {
        assert(files.subrange(0, k) =~= files);
    }
}

/// The size of each piece of `info`, in order.
pub fn piece_sizes(info: &TorrentInfo) -> (r: Vec<usize>)
    requires
        info_fits(*info),
    ensures
        r@.len() == info.pieces@.len(),
        piece_sizes_of(*info).len() == info.pieces@.len(),
        forall|i: int| 0 <= i < r@.len() ==> r@[i] == #[trigger] piece_sizes_of(*info)[i],
{
    let total = files_length(&info.files);
    let piece_length = info.piece_length as usize;
    let n = info.pieces.len();
    let mut sizes: Vec<usize> = Vec::new();
    let mut remaining: usize = total;
    let mut i: usize = 0;
    let ghost all = piece_sizes_of(*info);
    proof {
        lemma_sizes_bound(total as nat, piece_length as nat, n as nat);
    }
    while i < n
        invariant
            i <= n == info.pieces@.len(),
            piece_length == info.piece_length,
            all == sizes_from(total as nat, piece_length as nat, n as nat),
            all.len() == n,
            sizes@.len() == i,
            forall|k: int| 0 <= k < i ==> sizes@[k] == #[trigger] all[k],
            forall|k: int|
                0 <= k < n - i ==> #[trigger] sizes_from(
                    remaining as nat,
                    piece_length as nat,
                    (n - i) as nat,
                )[k] == all[k + i],
        decreases n - i,
    {
        let s = if remaining > piece_length {
            piece_length
        } else {
            remaining
        };
        let ghost rest = sizes_from((remaining - s) as nat, piece_length as nat, (n - i - 1) as nat);
        proof {
            lemma_sizes_bound(remaining as nat, piece_length as nat, (n - i) as nat);
            lemma_sizes_bound((remaining - s) as nat, piece_length as nat, (n - i - 1) as nat);
        }
        assert(sizes_from(remaining as nat, piece_length as nat, (n - i) as nat) == seq![s as nat]
            + rest);
        assert(sizes_from(remaining as nat, piece_length as nat, (n - i) as nat)[0] == s);
        assert forall|k: int| 0 <= k < n - i - 1 implies #[trigger] rest[k] == all[k + i + 1] by {
            assert(sizes_from(remaining as nat, piece_length as nat, (n - i) as nat)[k + 1]
                == rest[k]);
        }
        sizes.push(s);
        remaining = remaining - s;
        i = i + 1;
    }
    sizes
}

/// The sum of the first `n` sizes.
pub open spec fn seq_sum(s: Seq<nat>, n: int) -> nat
    decreases n,
{
    if n <= 0 || n > s.len() {
        0
    } else {
        seq_sum(s, n - 1) + s[n - 1]
    }
}

pub proof fn lemma_seq_sum_prefix(s: Seq<nat>, n: int)
    requires
        0 <= n <= s.len(),
    ensures
        forall|k: int| 0 <= k <= n ==> #[trigger] seq_sum(s, k) <= seq_sum(s, n),
    decreases n,
{
    if n > 0 {
        lemma_seq_sum_prefix(s, n - 1);
    }
}

proof fn lemma_sizes_from_sum(remaining: nat, piece_length: nat, n: nat)
    ensures
        seq_sum(sizes_from(remaining, piece_length, n), n as int) <= remaining,
    decreases n,
{
    if n > 0 {
        let s = if remaining > piece_length {
            piece_length
        } else {
            remaining
        };
        let all = sizes_from(remaining, piece_length, n);
        let rest = sizes_from((remaining - s) as nat, piece_length, (n - 1) as nat);
        lemma_sizes_from_sum((remaining - s) as nat, piece_length, (n - 1) as nat);
        lemma_sizes_bound(remaining, piece_length, n);
        lemma_sizes_bound((remaining - s) as nat, piece_length, (n - 1) as nat);
        lemma_seq_sum_shift(all, rest, s, n as int);
    }
}

proof fn lemma_seq_sum_shift(all: Seq<nat>, rest: Seq<nat>, s: nat, n: int)
    requires
        n >= 1,
        all.len() == n,
        rest.len() == n - 1,
        all == seq![s] + rest,
    ensures
        seq_sum(all, n) == s + seq_sum(rest, n - 1),
    decreases n,
{
    if n > 1 {
        let a2 = all.subrange(0, n - 1);
        let r2 = rest.subrange(0, n - 2);
        assert(a2 =~= seq![s] + r2);
        lemma_seq_sum_shift(a2, r2, s, n - 1);
        lemma_seq_sum_sub(all, n - 1);
        lemma_seq_sum_sub(rest, n - 2);
        assert(all[n - 1] == rest[n - 2]);
        assert(seq_sum(all, n) == seq_sum(all, n - 1) + all[n - 1]);
        assert(seq_sum(rest, n - 1) == seq_sum(rest, n - 2) + rest[n - 2]);
    } else {
        assert(seq_sum(all, 1) == seq_sum(all, 0) + all[0]);
    }
}

proof fn lemma_seq_sum_sub(s: Seq<nat>, k: int)
    requires
        0 <= k < s.len(),
    ensures
        seq_sum(s.subrange(0, k), k) == seq_sum(s, k),
    decreases k,
{
    if k > 0 {
        lemma_seq_sum_sub(s, k - 1);
        assert(s.subrange(0, k).subrange(0, k - 1) =~= s.subrange(0, k - 1));
        lemma_seq_sum_sub(s.subrange(0, k), k - 1);
    }
}

/// The piece sizes of `info` add up to no more than its total length.
pub proof fn lemma_sizes_sum(info: TorrentInfo)
    ensures
        seq_sum(piece_sizes_of(info), info.pieces@.len() as int) <= total_length(info.files@),
{
    lemma_sizes_from_sum(total_length(info.files@), info.piece_length as nat, info.pieces@.len());
}

/// A store of pieces, which shows only complete pieces that match their
/// digest.
pub trait Storage: Sized {
    spec fn wf(&self) -> bool;

    /// Whether piece `index` is complete and matched its digest.
    spec fn holds(&self, index: int) -> bool;

    /// The bytes of a held piece.
    spec fn piece_bytes(&self, index: int) -> Seq<u8>;

    /// The digest that piece `index` must match.
    spec fn digest_of(&self, index: int) -> Seq<u8>;

    /// The number of bytes still to download.
    spec fn missing(&self) -> nat;

    /// The length of piece `index`, where the store knows it.
    spec fn piece_size_of(&self, index: int) -> Option<nat>;

    /// The requests that would fill what is missing, in order.
    spec fn fill_plan(&self) -> Seq<Request>;

    /// Whether this store promises that piece `index`, stored whole at
    /// offset 0 with bytes that match its digest, is then held.
    spec fn accepts_whole(&self, index: int) -> bool;

    /// Storing `block` may leave the store as `after` with result `r`.
    spec fn store_outcome(&self, block: Block, after: Self, r: Result<usize, BadBlock>) -> bool;

    fn new(info: TorrentInfo) -> (r: Self)
        requires
            info_fits(info),
            layout_ok(info),
        ensures
            r.wf(),
            forall|i: int| !#[trigger] r.holds(i),
            forall|i: int|
                #[trigger] r.piece_size_of(i) is Some ==> 0 <= i < info.pieces@.len()
                    && r.piece_size_of(i) == Some(piece_sizes_of(info)[i]),
            forall|i: int|
                0 <= i < info.pieces@.len() && #[trigger] r.piece_size_of(i) is Some ==> r.digest_of(i)
                    == info.pieces@[i]@,
    ;

    /// The bytes of piece `index`, once it is complete and verified.
    fn get_piece(&self, index: usize) -> (r: Option<&[u8]>)
        requires
            self.wf(),
        ensures
            r is Some <==> self.holds(index as int),
            r matches Some(d) ==> d@ == self.piece_bytes(index as int) && sha1_of_matches(
                d@,
                self.digest_of(index as int),
            ) && self.piece_size_of(index as int) == Some(d@.len()),
    ;

    /// The length of piece `index`, where the store knows it.
    fn piece_size(&self, index: usize) -> (r: Option<usize>)
        requires
            self.wf(),
        ensures
            r matches Some(n) ==> self.piece_size_of(index as int) == Some(n as nat),
            r is None ==> self.piece_size_of(index as int) is None,
    ;

    /// Stores a block; the result is the number of new bytes accepted.
    fn store_block(&mut self, block: Block) -> (r: Result<usize, BadBlock>)
        requires
            old(self).wf(),
        ensures
            final(self).wf(),
            forall|i: int| #[trigger] old(self).holds(i) ==> final(self).holds(i),
            forall|i: int| #[trigger] final(self).piece_size_of(i) == old(self).piece_size_of(i),
            r is Err ==> forall|i: int| #[trigger] final(self).holds(i) == old(self).holds(i),
            forall|i: int| i != block.piece ==> #[trigger] final(self).holds(i) == old(self).holds(i),
            forall|i: int| i != block.piece ==> #[trigger] final(self).accepts_whole(i) == old(self).accepts_whole(i),
            forall|i: int| #[trigger] final(self).digest_of(i) == old(self).digest_of(i),
            old(self).accepts_whole(block.piece as int) && old(self).piece_size_of(block.piece as int) == Some(block.data@.len())
                && block.offset == 0 && block.data@.len() > 0
                && crate::digest::sha1_of(block.data@) == old(self).digest_of(block.piece as int)
                ==> final(self).holds(block.piece as int) && final(self).piece_bytes(block.piece as int) == block.data@,
            old(self).store_outcome(block, *final(self), r),
    ;

    fn bytes_missing(&self) -> (r: usize)
        requires
            self.wf(),
        ensures
            r == self.missing(),
    ;

    /// Requests that would fill what is missing.
    fn requests(&self) -> (r: Vec<Request>)
        requires
            self.wf(),
        ensures
            r@ == self.fill_plan(),
    ;

    fn is_complete(&self) -> (r: bool)
        requires
            self.wf(),
        ensures
            r == (self.missing() == 0),
    {
        self.bytes_missing() == 0
    }

    fn has_piece(&self, index: usize) -> (r: bool)
        requires
            self.wf(),
        ensures
            r == self.holds(index as int),
    {
        self.get_piece(index).is_some()
    }
}

/// Bytes whose digest is `hash`.
pub open spec fn sha1_of_matches(data: Seq<u8>, hash: Seq<u8>) -> bool {
    crate::digest::sha1_of(data) == hash
}

} // verus!
