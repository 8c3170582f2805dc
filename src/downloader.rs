//! The orchestrator's decisions: sessions to open, answers to requests from
//! peers, blocks taken into storage, and which requests go to which peer.
//! Time, sockets and the tracker stay with the caller, which hands in what
//! they produced.

use crate::peer::{apply_event, bit_at, event_output, Message, Peer, PeerView};
use crate::protocol::{self, DownloaderId, HandshakeInfo, InMessage};
use crate::request::{min, Request};
use crate::storage::{info_fits, layout_ok, BadBlock, Block, Storage};
use crate::torrent::TorrentInfo;
use crate::wire::copy_range;
use vstd::prelude::*;

verus! {

/// Requests sent on the wire ask for at most this many bytes.
pub const REQUEST_SIZE: usize = 16384;

/// At most this many sessions run at a time.
pub const MAX_PEERS: usize = 8;

/// At most this many requests go out in one round.
pub const MAX_REQUESTS: usize = 40;

/// Rounds of requests are this many milliseconds apart at least.
pub const REQUEST_INTERVAL_MS: u64 = 5000;

/// The port announced to the tracker.
pub const LISTEN_PORT: u16 = 6981;

/// The fixed start of our peer id.
pub open spec fn id_prefix() -> Seq<u8> {
    seq![45u8, 100u8, 106u8, 48u8, 48u8, 48u8, 49u8, 45u8]
}

/// A peer's endpoint: an IPv6 address (IPv4 mapped into it) and a TCP port.
#[derive(Debug, Clone, Copy, PartialEq, Eq, Structural, Hash)]
pub struct PeerAddress {
    pub ip: u128,
    pub port: u16,
}

impl PeerAddress {
    pub fn new(ip: u128, port: u16) -> (r: PeerAddress)
        ensures
            r == (PeerAddress { ip, port }),
    {
        PeerAddress { ip: ip, port: port }
    }
}

/// The alphanumeric character numbered `d`: digits, then lower case, then
/// upper case letters.
pub open spec fn alnum(d: nat) -> u8 {
    if d < 10 {
        (48 + d) as u8
    } else if d < 36 {
        (97 + d - 10) as u8
    } else {
        (65 + d - 36) as u8
    }
}

/// A digit or an ASCII letter.
pub open spec fn is_alnum(b: u8) -> bool {
    (48 <= b <= 57) || (97 <= b <= 122) || (65 <= b <= 90)
}

/// Relies on `rand::random` (rand 0.8): a value drawn from the thread-local
/// generator; nothing is promised of it.
pub assume_specification<T>[ rand::random::<T> ]() -> (r: T)
    where
        rand::distributions::Standard: rand::distributions::Distribution<T>,
;

fn alnum_byte(d: u64) -> (r: u8)
    requires
        d < 62,
    ensures
        r == alnum(d as nat),
{
    let digit = d as u8;
    if digit < 10 {
        48 + digit
    } else if digit < 36 {
        97 + (digit - 10)
    } else {
        65 + (digit - 36)
    }
}

/// The peer id made of twelve random draws: the fixed prefix, then the
/// alphanumeric character of each draw modulo 62.
pub fn id_from_draws(draws: &[u64]) -> (r: DownloaderId)
    requires
        draws@.len() == 12,
    ensures
        r.0@ == id_prefix() + Seq::new(12, |i: int| alnum((draws@[i] % 62) as nat)),
{
    let mut id: [u8; 20] = [45, 100, 106, 48, 48, 48, 49, 45, 0, 0, 0, 0, 0, 0, 0, 0, 0, 0, 0, 0];
    let mut i: usize = 8;
    while i < 20
        invariant
            8 <= i <= 20,
            draws@.len() == 12,
            id@.len() == 20,
            forall|k: int| 0 <= k < 8 ==> id@[k] == id_prefix()[k],
            forall|k: int| 8 <= k < i ==> id@[k] == alnum((draws@[k - 8] % 62) as nat),
        decreases 20 - i,
    {
        id[i] = alnum_byte(draws[i - 8] % 62);
        i = i + 1;
    }
    assert(id@ =~= id_prefix() + Seq::new(12, |i: int| alnum((draws@[i] % 62) as nat)));
    DownloaderId(id)
}

/// A fresh peer id: the fixed prefix and twelve random alphanumeric bytes.
pub fn generate_id() -> (r: DownloaderId)
    ensures
        r.0@.subrange(0, 8) == id_prefix(),
        r.0@.len() == 20,
        forall|i: int| 8 <= i < 20 ==> is_alnum(#[trigger] r.0@[i]),
{
    let mut draws: Vec<u64> = Vec::new();
    let mut k: usize = 0;
    while k < 12
        invariant
            k <= 12,
            draws@.len() == k,
        decreases 12 - k,
    {
        draws.push(rand::random::<u64>());
        k = k + 1;
    }
    let r = id_from_draws(draws.as_slice());
    proof {
        let full = id_prefix() + Seq::new(12, |i: int| alnum((draws@[i] % 62) as nat));
        assert(r.0@.subrange(0, 8) =~= id_prefix());
        assert forall|i: int| 8 <= i < 20 implies is_alnum(#[trigger] r.0@[i]) by {
            assert(r.0@[i] == full[i]);
        }
    }
    r
}

/// The sessions among the first `n` of `ps` that are alive, in order.
pub open spec fn alive_only(ps: Seq<Peer>, n: int) -> Seq<Peer>
    decreases n,
{
    if n <= 0 || n > ps.len() {
        Seq::empty()
    } else if ps[n - 1]@.alive {
        alive_only(ps, n - 1).push(ps[n - 1])
    } else {
        alive_only(ps, n - 1)
    }
}

/// No two sessions of `ps` are with the same peer.
pub open spec fn distinct_addresses(ps: Seq<Peer>) -> bool {
    forall|i: int, j: int| 0 <= i < j < ps.len() ==> #[trigger] ps[i]@.address != #[trigger] ps[j]@.address
}

/// Whether one of the first `n` sessions of `ps` is with `a`.
pub open spec fn address_among(ps: Seq<Peer>, n: int, a: PeerAddress) -> bool {
    exists|j: int| 0 <= j < n && #[trigger] ps[j]@.address == a
}

/// Whether some session of `ps` is with `a`.
pub open spec fn connected(ps: Seq<Peer>, a: PeerAddress) -> bool {
    exists|i: int| 0 <= i < ps.len() && #[trigger] ps[i]@.address == a
}

/// The state of a session just opened to `a`: unchoked and interested,
/// with those two messages waiting to go out.
pub open spec fn opened_view(a: PeerAddress, piece_count: nat, info_hash: Seq<u8>, id: Seq<u8>) -> PeerView {
    PeerView {
        address: a,
        info_hash,
        id,
        remote: None,
        piece_count,
        have: Seq::new(crate::peer::bitfield_len(piece_count), |i: int| 0u8),
        self_choked: false,
        self_interested: true,
        peer_choked: true,
        peer_interested: false,
        alive: true,
        outbox: seq![protocol::Message::Unchoke, protocol::Message::Interested],
    }
}

/// A block message for `piece` at `offset` carrying `bytes`.
pub open spec fn is_piece_reply(m: protocol::Message, piece: usize, offset: usize, bytes: Seq<u8>) -> bool {
    m matches protocol::Message::Piece(p, o, d) && p == piece && o == offset && d@ == bytes
}

/// Position `k` steps after `s`, going round `n` positions.
pub open spec fn rot(s: int, k: int, n: int) -> int {
    if s + k < n {
        s + k
    } else {
        s + k - n
    }
}

/// A request of at most `REQUEST_SIZE` bytes for a piece that peer `i`
/// advertises.
pub open spec fn fair_request(peers: Seq<Peer>, i: int, m: protocol::Message) -> bool {
    m matches protocol::Message::Request(p, o, l) && holds_piece(peers, p, i) && 0 < l <= REQUEST_SIZE
}

/// `after` is `before` with messages added to outboxes, each of them a
/// fair request.
pub open spec fn only_fair_requests_added(before: Seq<Peer>, after: Seq<Peer>) -> bool {
    &&& after.len() == before.len()
    &&& forall|i: int|
        0 <= i < before.len() ==> {
            &&& #[trigger] after[i].wf() == before[i].wf()
            &&& after[i]@ == (PeerView { outbox: after[i]@.outbox, ..before[i]@ })
            &&& after[i]@.outbox.len() >= before[i]@.outbox.len()
            &&& after[i]@.outbox.subrange(0, before[i]@.outbox.len() as int) == before[i]@.outbox
            &&& forall|j: int|
                before[i]@.outbox.len() <= j < after[i]@.outbox.len() ==> fair_request(
                    before,
                    i,
                    #[trigger] after[i]@.outbox[j],
                )
        }
}

/// Whether peer `i` advertises `piece`.
pub open spec fn holds_piece(peers: Seq<Peer>, piece: usize, i: int) -> bool {
    piece < peers[i]@.piece_count && bit_at(peers[i]@.have, piece as int)
}

/// The request split to its first wire-sized part, if it asks for anything.
pub open spec fn first_part(r: Request) -> Option<Request> {
    if r.length > 0 && r.offset + r.length <= usize::MAX {
        Some(Request { length: min(r.length as int, REQUEST_SIZE as int) as usize, ..r })
    } else {
        None
    }
}

/// Whether some request of `s` is for piece `p`.
pub open spec fn plans_piece(s: Seq<Request>, p: usize) -> bool {
    exists|k: int| 0 <= k < s.len() && #[trigger] s[k].piece == p
}

/// The first parts of the first `n` requests, at most `MAX_REQUESTS` of
/// them and at most one per piece.
pub open spec fn planned(reqs: Seq<Request>, n: int) -> Seq<Request>
    decreases n,
{
    if n <= 0 || n > reqs.len() {
        Seq::empty()
    } else {
        let before = planned(reqs, n - 1);
        if before.len() < MAX_REQUESTS && first_part(reqs[n - 1]) is Some && !plans_piece(
            before,
            reqs[n - 1].piece,
        ) {
            before.push(first_part(reqs[n - 1])->Some_0)
        } else {
            before
        }
    }
}

proof fn lemma_planned_bound(reqs: Seq<Request>, n: int)
    ensures
        planned(reqs, n).len() <= MAX_REQUESTS,
        forall|k: int| 0 <= k < planned(reqs, n).len() ==> (#[trigger] planned(reqs, n)[k]).length <= REQUEST_SIZE
            && planned(reqs, n)[k].length > 0,
    decreases n,
{
    if n > 0 && n <= reqs.len() {
        lemma_planned_bound(reqs, n - 1);
    }
}

/// The first parts of `reqs`, at most `MAX_REQUESTS` of them: one request of
/// at most `REQUEST_SIZE` bytes from each, and none for a piece already
/// planned, so a round asks for at most one part of each piece.
pub fn plan_requests(reqs: &Vec<Request>) -> (r: Vec<Request>)
    ensures
        r@ == planned(reqs@, reqs@.len() as int),
        r@.len() <= MAX_REQUESTS,
        forall|k: int| 0 <= k < r@.len() ==> (#[trigger] r@[k]).length <= REQUEST_SIZE && r@[k].length > 0,
        forall|a: int, b: int| 0 <= a < b < r@.len() ==> #[trigger] r@[a].piece != #[trigger] r@[b].piece,
{
    let mut out: Vec<Request> = Vec::new();
    let mut i: usize = 0;
    while i < reqs.len()
        invariant
            i <= reqs@.len(),
            out@ == planned(reqs@, i as int),
            forall|a: int, b: int| 0 <= a < b < out@.len() ==> #[trigger] out@[a].piece != #[trigger] out@[b].piece,
        decreases reqs@.len() - i,
    {
        proof {
            lemma_planned_bound(reqs@, i as int);
        }
        let r = reqs[i];
        let mut seen = false;
        let mut j: usize = 0;
        while j < out.len()
            invariant
                j <= out@.len(),
                seen == exists|k: int| 0 <= k < j && #[trigger] out@[k].piece == r.piece,
            decreases out@.len() - j,
        {
            if out[j].piece == r.piece {
                seen = true;
            }
            j = j + 1;
        }
        if out.len() < MAX_REQUESTS && r.length > 0 && r.offset <= usize::MAX - r.length && !seen {
            let mut parts = r.split_request(REQUEST_SIZE);
            match parts.next() {
                Some(part) => out.push(part),
                None => {},
            }
        }
        i = i + 1;
    }
    proof {
        lemma_planned_bound(reqs@, reqs@.len() as int);
    }
    out
}

/// The swarm orchestrator's state: the store, the sessions and the
/// transfer counters.
pub struct Downloader<S: Storage> {
    storage: S,
    peers: Vec<Peer>,
    downloaded: usize,
    uploaded: usize,
    info: HandshakeInfo,
    piece_count: usize,
    last_request_ms: u64,
}

impl<S: Storage> Downloader<S> {
    pub closed spec fn wf(&self) -> bool {
        &&& self.storage.wf()
        &&& forall|i: int| 0 <= i < self.peers@.len() ==> (#[trigger] self.peers@[i]).wf()
        &&& distinct_addresses(self.peers@)
    }

    /// No two sessions are with the same peer.
    pub proof fn lemma_distinct_sessions(&self)
        requires
            self.wf(),
        ensures
            distinct_addresses(self.peers_view()),
    {
    }

    pub closed spec fn peers_view(&self) -> Seq<Peer> {
        self.peers@
    }

    pub closed spec fn storage_view(&self) -> S {
        self.storage
    }

    pub closed spec fn piece_count_view(&self) -> nat {
        self.piece_count as nat
    }

    /// Our handshake: content digest and peer id.
    pub closed spec fn own_info(&self) -> (Seq<u8>, Seq<u8>) {
        (self.info.info_hash@, self.info.id.0@)
    }

    pub closed spec fn last_request_view(&self) -> nat {
        self.last_request_ms as nat
    }

    pub closed spec fn downloaded_view(&self) -> nat {
        self.downloaded as nat
    }

    pub closed spec fn uploaded_view(&self) -> nat {
        self.uploaded as nat
    }

    /// A downloader for the content with digest `info_hash`, with a fresh
    /// peer id and no session.
    pub fn new(info_hash: [u8; 20], info: TorrentInfo, now_ms: u64) -> (r: Downloader<S>)
        requires
            info_fits(info),
            layout_ok(info),
        ensures
            r.wf(),
            r.peers_view().len() == 0,
            r.downloaded_view() == 0,
            r.uploaded_view() == 0,
            r.own_info().0 == info_hash@,
            r.own_info().1.len() == 20,
            r.own_info().1.subrange(0, 8) == id_prefix(),
            forall|i: int| 8 <= i < 20 ==> is_alnum(#[trigger] r.own_info().1[i]),
            r.piece_count_view() == info.pieces@.len(),
            r.last_request_view() == now_ms,
            forall|i: int| !#[trigger] r.storage_view().holds(i),
    {
        let piece_count = info.pieces.len();
        let handshake = HandshakeInfo::new(info_hash, generate_id());
        let storage = S::new(info);
        Downloader {
            storage: storage,
            peers: Vec::new(),
            downloaded: 0,
            uploaded: 0,
            info: handshake,
            piece_count: piece_count,
            last_request_ms: now_ms,
        }
    }

    /// What we assert on handshake: the content digest and our peer id.
    pub fn handshake_info(&self) -> (r: HandshakeInfo)
        ensures
            (r.info_hash@, r.id.0@) == self.own_info(),
    {
        HandshakeInfo::new(self.info.info_hash, DownloaderId(self.info.id.0))
    }

    pub fn storage(&self) -> (r: &S)
        ensures
            *r == self.storage_view(),
    {
        &self.storage
    }

    pub fn is_complete(&self) -> (r: bool)
        requires
            self.wf(),
        ensures
            r == (self.storage_view().missing() == 0),
    {
        self.storage.is_complete()
    }

    /// Bytes downloaded, bytes uploaded, and bytes still missing, as the
    /// tracker is told.
    pub fn progress(&self) -> (r: (usize, usize, usize))
        requires
            self.wf(),
        ensures
            r == (self.downloaded_view() as usize, self.uploaded_view() as usize, self.storage_view().missing() as usize),
    {
        (self.downloaded, self.uploaded, self.storage.bytes_missing())
    }

    pub fn peer_count(&self) -> (r: usize)
        ensures
            r == self.peers_view().len(),
    {
        self.peers.len()
    }

    pub fn peer_address(&self, i: usize) -> (r: PeerAddress)
        requires
            i < self.peers_view().len(),
        ensures
            r == self.peers_view()[i as int]@.address,
    {
        self.peers[i].address()
    }

    pub fn peer_alive(&self, i: usize) -> (r: bool)
        requires
            i < self.peers_view().len(),
        ensures
            r == self.peers_view()[i as int]@.alive,
    {
        self.peers[i].is_alive()
    }

    /// The messages session `i` wants written to its connection.
    pub fn take_outgoing(&mut self, i: usize) -> (r: Vec<protocol::Message>)
        requires
            old(self).wf(),
            i < old(self).peers_view().len(),
        ensures
            final(self).wf(),
            r@ == old(self).peers_view()[i as int]@.outbox,
            final(self).peers_view() == old(self).peers_view().update(i as int, final(self).peers_view()[i as int]),
            final(self).peers_view()[i as int]@ == (PeerView { outbox: Seq::empty(), ..old(self).peers_view()[i as int]@ }),
            final(self).storage_view() == old(self).storage_view(),
    {
        let r = self.peers[i].take_outgoing();
        proof {
            assert forall|k: int| 0 <= k < self.peers@.len() implies (#[trigger] self.peers@[k]).wf() by {
                if k != i {
                    assert(self.peers@[k] == old(self).peers@[k]);
                }
            }
        }
        r
    }

    /// Answers a request from session `peer`: a request of more than
    /// `REQUEST_SIZE` bytes, or one past the end of its piece, ends the
    /// session; one for a piece we hold is answered with its bytes; others
    /// are ignored.
    fn answer_request(&mut self, peer: usize, piece: usize, offset: usize, length: usize)
        requires
            old(self).wf(),
            peer < old(self).peers_view().len(),
        ensures
            final(self).wf(),
            final(self).storage_view() == old(self).storage_view(),
            final(self).downloaded_view() == old(self).downloaded_view(),
            final(self).peers_view().len() == old(self).peers_view().len(),
            forall|i: int| 0 <= i < old(self).peers_view().len() && i != peer ==> #[trigger] final(self).peers_view()[i] == old(self).peers_view()[i],
            ({
                let v = old(self).peers_view()[peer as int]@;
                let st = old(self).storage_view();
                let bad = length > REQUEST_SIZE || (st.piece_size_of(piece as int) matches Some(n) && offset + length > n);
                &&& bad ==> final(self).peers_view()[peer as int]@ == (PeerView { alive: false, ..v })
                    && final(self).uploaded_view() == old(self).uploaded_view()
                &&& !bad && !st.holds(piece as int) ==> final(self).peers_view()[peer as int]@ == v
                    && final(self).uploaded_view() == old(self).uploaded_view()
                &&& !bad && st.holds(piece as int) ==> {
                    &&& final(self).uploaded_view() == min(old(self).uploaded_view() + length, usize::MAX as int)
                    &&& !v.alive ==> final(self).peers_view()[peer as int]@ == v
                    &&& v.alive ==> final(self).peers_view()[peer as int]@ == (PeerView {
                        outbox: final(self).peers_view()[peer as int]@.outbox,
                        ..v
                    })
                    &&& v.alive ==> final(self).peers_view()[peer as int]@.outbox.drop_last() == v.outbox
                    &&& v.alive ==> final(self).peers_view()[peer as int]@.outbox.len() == v.outbox.len() + 1
                    &&& v.alive ==> is_piece_reply(final(self).peers_view()[peer as int]@.outbox.last(), piece, offset, st.piece_bytes(piece as int).subrange(offset as int, offset + length))
                }
            }),
    {
        let ghost before = self.peers@;
        let past_end = match self.storage.piece_size(piece) {
            Some(size) => offset > size || length > size - offset,
            None => false,
        };
        if length > REQUEST_SIZE || past_end {
            self.peers[peer].disconnect();
            proof { self.lemma_peers_wf_kept(before, peer as int); }
            return ;
        }
        match self.storage.get_piece(piece) {
            Some(data) => {
                let bytes = copy_range(data, offset, offset + length);
                let ghost v = self.peers@[peer as int]@;
                self.peers[peer].send(Message::Piece(piece, offset, bytes));
                self.uploaded = self.uploaded.saturating_add(length);
                proof {
                    self.lemma_peers_wf_kept(before, peer as int);
                    if v.alive {
                        assert(self.peers@[peer as int]@.outbox.drop_last() =~= v.outbox);
                    }
                }
            },
            None => {},
        }
    }

    proof fn lemma_peers_wf_kept(&self, before: Seq<Peer>, peer: int)
        requires
            0 <= peer < before.len(),
            forall|i: int| 0 <= i < before.len() ==> (#[trigger] before[i]).wf(),
            self.peers@ == before.update(peer, self.peers@[peer]),
            self.peers@[peer].wf(),
            self.peers@[peer]@.address == before[peer]@.address,
            distinct_addresses(before),
            self.storage.wf(),
        ensures
            self.wf(),
            forall|i: int| 0 <= i < before.len() && i != peer ==> #[trigger] self.peers@[i] == before[i],
    {
        assert forall|i: int| 0 <= i < self.peers@.len() implies (#[trigger] self.peers@[i]).wf() by {
            if i != peer {
                assert(self.peers@[i] == before[i]);
            }
        }
        assert forall|i: int, j: int| 0 <= i < j < self.peers@.len() implies #[trigger] self.peers@[i]@.address
            != #[trigger] self.peers@[j]@.address by {
            assert(self.peers@[i]@.address == before[i]@.address);
            assert(self.peers@[j]@.address == before[j]@.address);
        }
    }

    /// Takes a block from session `peer` into storage; a refused block ends
    /// the session, an accepted one counts its new bytes as downloaded.
    fn accept_block(&mut self, peer: usize, piece: usize, offset: usize, data: Vec<u8>) -> (r: Result<usize, BadBlock>)
        requires
            old(self).wf(),
            peer < old(self).peers_view().len(),
        ensures
            final(self).wf(),
            final(self).uploaded_view() == old(self).uploaded_view(),
            final(self).peers_view().len() == old(self).peers_view().len(),
            forall|i: int| 0 <= i < old(self).peers_view().len() && i != peer ==> #[trigger] final(self).peers_view()[i] == old(self).peers_view()[i],
            r matches Ok(n) ==> final(self).peers_view()[peer as int]@ == old(self).peers_view()[peer as int]@
                && final(self).downloaded_view() == min(old(self).downloaded_view() + n, usize::MAX as int),
            r is Err ==> final(self).peers_view()[peer as int]@ == (PeerView { alive: false, ..old(self).peers_view()[peer as int]@ })
                && final(self).downloaded_view() == old(self).downloaded_view(),
            forall|i: int| #[trigger] old(self).storage_view().holds(i) ==> final(self).storage_view().holds(i),
            old(self).storage_view().store_outcome(Block { piece, offset, data }, final(self).storage_view(), r),
    {
        let ghost before = self.peers@;
        let block = Block::new(piece, offset, data);
        let r = self.storage.store_block(block);
        match r {
            Ok(new_bytes) => {
                self.downloaded = self.downloaded.saturating_add(new_bytes);
            },
            Err(_) => {
                self.peers[peer].disconnect();
                proof { self.lemma_peers_wf_kept(before, peer as int); }
            },
        }
        r
    }

    /// Handles one event from the connection of session `peer`: the session
    /// takes it in, and a request or a block it hands on is answered or
    /// stored. For a block, the result is what the store answered.
    pub fn handle_event(&mut self, peer: usize, event: InMessage) -> (r: Option<Result<usize, BadBlock>>)
        requires
            old(self).wf(),
            peer < old(self).peers_view().len(),
        ensures
            final(self).wf(),
            final(self).peers_view().len() == old(self).peers_view().len(),
            forall|i: int| 0 <= i < old(self).peers_view().len() && i != peer ==> #[trigger] final(self).peers_view()[i] == old(self).peers_view()[i],
            ({
                let v = old(self).peers_view()[peer as int]@;
                let out = event_output(v, event);
                let v1 = apply_event(v, event);
                &&& out is None ==> final(self).peers_view()[peer as int]@ == v1
                    && final(self).storage_view() == old(self).storage_view()
                    && final(self).downloaded_view() == old(self).downloaded_view()
                    && final(self).uploaded_view() == old(self).uploaded_view()
                &&& out matches Some(Message::Request(p, o, l)) ==> {
                    let st = old(self).storage_view();
                    let bad = l > REQUEST_SIZE || (st.piece_size_of(p as int) matches Some(n) && o + l > n);
                    &&& final(self).storage_view() == st
                    &&& final(self).downloaded_view() == old(self).downloaded_view()
                    &&& r is None
                    &&& bad ==> final(self).peers_view()[peer as int]@ == (PeerView { alive: false, ..v1 })
                        && final(self).uploaded_view() == old(self).uploaded_view()
                    &&& !bad && !st.holds(p as int) ==> final(self).peers_view()[peer as int]@ == v1
                        && final(self).uploaded_view() == old(self).uploaded_view()
                    &&& !bad && st.holds(p as int) ==> final(self).uploaded_view() == min(old(self).uploaded_view() + l, usize::MAX as int)
                        && final(self).peers_view()[peer as int]@.outbox.len() == v1.outbox.len() + 1
                        && final(self).peers_view()[peer as int]@.outbox.drop_last() == v1.outbox
                        && is_piece_reply(final(self).peers_view()[peer as int]@.outbox.last(), p, o, st.piece_bytes(p as int).subrange(o as int, o + l))
                }
                &&& out is None ==> r is None
                &&& out matches Some(Message::Piece(p, o, d)) ==> {
                    &&& final(self).uploaded_view() == old(self).uploaded_view()
                    &&& r is Some
                    &&& old(self).storage_view().store_outcome(Block { piece: p, offset: o, data: d }, final(self).storage_view(), r->Some_0)
                    &&& r->Some_0 matches Ok(n) ==> final(self).peers_view()[peer as int]@ == v1
                        && final(self).downloaded_view() == min(old(self).downloaded_view() + n, usize::MAX as int)
                    &&& r->Some_0 is Err ==> final(self).peers_view()[peer as int]@ == (PeerView { alive: false, ..v1 })
                        && final(self).downloaded_view() == old(self).downloaded_view()
                }
            }),
    {
        let ghost before = self.peers@;
        let out = self.peers[peer].receive(event);
        proof { self.lemma_peers_wf_kept(before, peer as int); }
        match out {
            Some(Message::Request(piece, offset, length)) => {
                self.answer_request(peer, piece, offset, length);
                None
            },
            Some(Message::Piece(piece, offset, data)) => Some(self.accept_block(peer, piece, offset, data)),
            None => None,
        }
    }

    /// Drops the sessions that are no longer alive.
    pub fn remove_dead_connections(&mut self)
        requires
            old(self).wf(),
        ensures
            final(self).wf(),
            final(self).peers_view() == alive_only(old(self).peers_view(), old(self).peers_view().len() as int),
            final(self).storage_view() == old(self).storage_view(),
            final(self).downloaded_view() == old(self).downloaded_view(),
            final(self).uploaded_view() == old(self).uploaded_view(),
    {
        let ghost all = self.peers@;
        let mut rest: Vec<Peer> = Vec::new();
        std::mem::swap(&mut rest, &mut self.peers);
        let mut kept: Vec<Peer> = Vec::new();
        let mut taken: usize = 0;
        proof {
            assert(all.len() == rest.len());
        }
        while rest.len() > 0
            invariant
                taken + rest@.len() == all.len(),
                all.len() <= usize::MAX,
                rest@ == all.subrange(taken as int, all.len() as int),
                kept@ == alive_only(all, taken as int),
                forall|i: int| 0 <= i < all.len() ==> (#[trigger] all[i]).wf(),
                forall|i: int| 0 <= i < kept@.len() ==> (#[trigger] kept@[i]).wf(),
                distinct_addresses(all),
                distinct_addresses(kept@),
                forall|i: int| 0 <= i < kept@.len() ==> address_among(all, taken as int, (#[trigger] kept@[i])@.address),
            decreases rest@.len(),
        {
            let p = rest.remove(0);
            assert(p == all[taken as int]);
            if p.is_alive() {
                let ghost before = kept@;
                kept.push(p);
                proof {
                    assert forall|i: int| 0 <= i < before.len() implies #[trigger] before[i]@.address != p@.address by {
                        assert(address_among(all, taken as int, before[i]@.address));
                        let j = choose|j: int| 0 <= j < taken && #[trigger] all[j]@.address == before[i]@.address;
                        assert(all[j]@.address != all[taken as int]@.address);
                    }
                    assert forall|a: int, b: int| 0 <= a < b < kept@.len() implies #[trigger] kept@[a]@.address
                        != #[trigger] kept@[b]@.address by {
                        if b == kept@.len() - 1 {
                            assert(kept@[a] == before[a]);
                        } else {
                            assert(kept@[a] == before[a] && kept@[b] == before[b]);
                        }
                    }
                    assert forall|i: int| 0 <= i < kept@.len() implies address_among(all, taken + 1, (#[trigger] kept@[i])@.address) by {
                        if i < before.len() {
                            assert(kept@[i] == before[i]);
                            assert(address_among(all, taken as int, before[i]@.address));
                            let j = choose|j: int| 0 <= j < taken && #[trigger] all[j]@.address == before[i]@.address;
                            assert(all[j]@.address == kept@[i]@.address);
                        } else {
                            assert(all[taken as int]@.address == kept@[i]@.address);
                        }
                    }
                }
            } else {
                proof {
                    assert forall|i: int| 0 <= i < kept@.len() implies address_among(all, taken + 1, (#[trigger] kept@[i])@.address) by {
                        assert(address_among(all, taken as int, kept@[i]@.address));
                        let j = choose|j: int| 0 <= j < taken && #[trigger] all[j]@.address == kept@[i]@.address;
                        assert(all[j]@.address == kept@[i]@.address);
                    }
                }
            }
            taken = taken + 1;
            assert(rest@ =~= all.subrange(taken as int, all.len() as int));
        }
        self.peers = kept;
    }

    /// A random one of the known peers that no session is with, if any.
    pub fn pick_peer(&self, known: &Vec<PeerAddress>, draw: usize) -> (r: Option<PeerAddress>)
        ensures
            r is None <==> forall|k: int| 0 <= k < known@.len() ==> connected(self.peers_view(), #[trigger] known@[k]),
            r matches Some(a) ==> known@.contains(a) && !connected(self.peers_view(), a),
    {
        let mut candidates: Vec<PeerAddress> = Vec::new();
        let mut k: usize = 0;
        while k < known.len()
            invariant
                k <= known@.len(),
                forall|j: int| 0 <= j < candidates@.len() ==> known@.contains(#[trigger] candidates@[j]) && !connected(self.peers@, candidates@[j]),
                candidates@.len() == 0 ==> forall|j: int| 0 <= j < k ==> connected(self.peers@, #[trigger] known@[j]),
            decreases known@.len() - k,
        {
            let a = known[k];
            let mut i: usize = 0;
            let mut found = false;
            while i < self.peers.len()
                invariant
                    i <= self.peers@.len(),
                    found == exists|j: int| 0 <= j < i && #[trigger] self.peers@[j]@.address == a,
                decreases self.peers@.len() - i,
            {
                if self.peers[i].address() == a {
                    found = true;
                }
                i = i + 1;
            }
            if !found {
                assert(known@[k as int] == a);
                candidates.push(a);
            }
            k = k + 1;
        }
        if candidates.len() == 0 {
            None
        } else {
            let a = candidates[draw % candidates.len()];
            Some(a)
        }
    }

    /// Opens sessions while fewer than `MAX_PEERS` run, each with a random
    /// known peer that no session is with; a new session is unchoked and
    /// interested. Returns the peers to connect to, in order.
    pub fn open_new_connections(&mut self, known: &Vec<PeerAddress>) -> (r: Vec<PeerAddress>)
        requires
            old(self).wf(),
        ensures
            final(self).wf(),
            final(self).storage_view() == old(self).storage_view(),
            final(self).downloaded_view() == old(self).downloaded_view(),
            final(self).uploaded_view() == old(self).uploaded_view(),
            final(self).peers_view().len() == old(self).peers_view().len() + r@.len(),
            old(self).peers_view().len() < MAX_PEERS ==> final(self).peers_view().len() <= MAX_PEERS,
            old(self).peers_view().len() >= MAX_PEERS ==> r@.len() == 0,
            old(self).peers_view().len() < MAX_PEERS ==> final(self).peers_view().len() == MAX_PEERS
                || forall|k: int| 0 <= k < known@.len() ==> connected(final(self).peers_view(), #[trigger] known@[k]),
            forall|a: int, b: int| 0 <= a < b < r@.len() ==> #[trigger] r@[a] != #[trigger] r@[b],
            final(self).peers_view().subrange(0, old(self).peers_view().len() as int) == old(self).peers_view(),
            forall|j: int| 0 <= j < r@.len() ==> {
                &&& known@.contains(#[trigger] r@[j])
                &&& !connected(old(self).peers_view(), r@[j])
                &&& final(self).peers_view()[old(self).peers_view().len() + j]@ == opened_view(
                    r@[j],
                    old(self).piece_count_view(),
                    old(self).own_info().0,
                    old(self).own_info().1,
                )
            },
    {
        let ghost before = self.peers@;
        let mut opened: Vec<PeerAddress> = Vec::new();
        while self.peers.len() < MAX_PEERS
            invariant
                self.wf(),
                self.storage == old(self).storage,
                self.downloaded == old(self).downloaded,
                self.uploaded == old(self).uploaded,
                self.info == old(self).info,
                self.piece_count == old(self).piece_count,
                before == old(self).peers@,
                before.len() < MAX_PEERS ==> self.peers@.len() <= MAX_PEERS,
                before.len() >= MAX_PEERS ==> opened@.len() == 0,
                forall|a: int, b: int| 0 <= a < b < opened@.len() ==> #[trigger] opened@[a] != #[trigger] opened@[b],
                self.peers@.len() == before.len() + opened@.len(),
                self.peers@.subrange(0, before.len() as int) == before,
                forall|j: int| 0 <= j < opened@.len() ==> {
                    &&& known@.contains(#[trigger] opened@[j])
                    &&& !connected(before, opened@[j])
                    &&& self.peers@[before.len() + j]@ == opened_view(
                        opened@[j],
                        self.piece_count as nat,
                        self.info.info_hash@,
                        self.info.id.0@,
                    )
                },
            ensures
                before.len() < MAX_PEERS ==> self.peers@.len() == MAX_PEERS || forall|k: int|
                    0 <= k < known@.len() ==> connected(self.peers@, #[trigger] known@[k]),
            decreases MAX_PEERS - self.peers@.len(),
        {
            let draw = rand::random::<usize>();
            match self.pick_peer(known, draw) {
                Some(address) => {
                    let mut peer = Peer::new(address, self.piece_count, self.handshake_info());
                    peer.set_choking(false);
                    peer.set_interested(true);
                    let ghost mid = self.peers@;
                    proof {
                        assert(!connected(before, address)) by {
                            if connected(before, address) {
                                let i = choose|i: int| 0 <= i < before.len() && #[trigger] before[i]@.address == address;
                                assert(mid[i] == before[i]);
                                assert(connected(mid, address));
                            }
                        }
                        assert(peer@.outbox =~= seq![protocol::Message::Unchoke, protocol::Message::Interested]);
                        assert forall|j: int| 0 <= j < opened@.len() implies #[trigger] opened@[j] != address by {
                            assert(mid[before.len() + j]@.address == opened@[j]);
                            if opened@[j] == address {
                                assert(connected(mid, address));
                            }
                        }
                        assert(peer@ == opened_view(address, self.piece_count as nat, self.info.info_hash@, self.info.id.0@));
                    }
                    self.peers.push(peer);
                    opened.push(address);
                    proof {
                        assert(self.peers@.subrange(0, before.len() as int) =~= mid.subrange(0, before.len() as int));
                        assert forall|j: int| 0 <= j < opened@.len() implies {
                            &&& known@.contains(#[trigger] opened@[j])
                            &&& !connected(before, opened@[j])
                            &&& self.peers@[before.len() + j]@ == opened_view(
                                opened@[j],
                                self.piece_count as nat,
                                self.info.info_hash@,
                                self.info.id.0@,
                            )
                        } by {
                            if j < opened@.len() - 1 {
                                assert(self.peers@[before.len() + j] == mid[before.len() + j]);
                            }
                        }
                    }
                },
                None => {
                    proof {
                        assert(self.peers_view() == self.peers@);
                    }
                    break;
                },
            }
        }
        opened
    }

    /// The first peer, going round from `start`, that advertises `piece`.
    pub fn pick_peer_for_request(&self, piece: usize, start: usize) -> (r: Option<usize>)
        requires
            self.wf(),
        ensures
            r is None <==> forall|i: int| 0 <= i < self.peers_view().len() ==> !#[trigger] holds_piece(self.peers_view(), piece, i),
            r matches Some(i) ==> i < self.peers_view().len() && holds_piece(self.peers_view(), piece, i as int)
                && exists|k: int| 0 <= k < self.peers_view().len() && i == #[trigger] rot(start as int % self.peers_view().len() as int, k, self.peers_view().len() as int)
                    && forall|j: int| 0 <= j < k ==> !#[trigger] holds_piece(self.peers_view(), piece, rot(start as int % self.peers_view().len() as int, j, self.peers_view().len() as int)),
    {
        let n = self.peers.len();
        if n == 0 {
            return None;
        }
        let s = start % n;
        let mut k: usize = 0;
        while k < n
            invariant
                self.wf(),
                n == self.peers@.len(),
                s < n,
                s == start as int % n as int,
                k <= n,
                forall|j: int| 0 <= j < k ==> !#[trigger] holds_piece(self.peers@, piece, rot(s as int, j, n as int)),
            decreases n - k,
        {
            let i = if k < n - s {
                s + k
            } else {
                k - (n - s)
            };
            if self.peers[i].does_have(piece) {
                assert(i == rot(s as int, k as int, n as int));
                assert(holds_piece(self.peers_view(), piece, i as int));
                return Some(i);
            }
            k = k + 1;
        }
        proof {
            assert forall|i: int| 0 <= i < n implies !#[trigger] holds_piece(self.peers@, piece, i) by {
                let j = if i >= s { i - s } else { i + n - s };
                assert(rot(s as int, j, n as int) == i);
            }
        }
        None
    }

    /// Sends a round of requests: the first part of each request the store
    /// makes, at most `MAX_REQUESTS`, each to a peer that advertises its
    /// piece, starting the search at a random peer. A round comes
    /// `REQUEST_INTERVAL_MS` after the previous one at the earliest. The
    /// result gives, for each planned request, the peer it was queued at.
    pub fn request_pieces(&mut self, now_ms: u64) -> (r: Vec<Option<usize>>)
        requires
            old(self).wf(),
        ensures
            final(self).wf(),
            final(self).storage_view() == old(self).storage_view(),
            final(self).downloaded_view() == old(self).downloaded_view(),
            final(self).uploaded_view() == old(self).uploaded_view(),
            only_fair_requests_added(old(self).peers_view(), final(self).peers_view()),
            now_ms < old(self).last_request_view() + REQUEST_INTERVAL_MS ==> final(self).peers_view()
                == old(self).peers_view() && final(self).last_request_view() == old(self).last_request_view()
                && r@.len() == 0,
            now_ms >= old(self).last_request_view() + REQUEST_INTERVAL_MS ==> ({
                let plan = planned(old(self).storage_view().fill_plan(), old(self).storage_view().fill_plan().len() as int);
                let ps = old(self).peers_view();
                &&& final(self).last_request_view() == now_ms
                &&& r@.len() == plan.len()
                &&& forall|j: int| 0 <= j < plan.len() ==> ((#[trigger] r@[j]) is None <==> forall|i: int|
                    0 <= i < ps.len() ==> !holds_piece(ps, plan[j].piece, i))
                &&& forall|j: int| 0 <= j < plan.len() && r@[j] is Some ==> r@[j]->Some_0 < ps.len()
                    && holds_piece(ps, plan[j].piece, r@[j]->Some_0 as int)
                &&& forall|i: int| 0 <= i < ps.len() ==> (#[trigger] final(self).peers_view()[i])@.outbox
                    == ps[i]@.outbox + if ps[i]@.alive {
                        sent_to(plan, r@, i, plan.len() as int)
                    } else {
                        Seq::empty()
                    }
            }),
    {
        let ghost before = self.peers@;
        proof {
            lemma_fair_refl(before);
        }
        let mut assigned: Vec<Option<usize>> = Vec::new();
        if now_ms < self.last_request_ms || now_ms - self.last_request_ms < REQUEST_INTERVAL_MS {
            return assigned;
        }
        self.last_request_ms = now_ms;
        let requests = self.storage.requests();
        let plan = plan_requests(&requests);
        let mut k: usize = 0;
        proof {
            assert forall|i: int| 0 <= i < before.len() implies (#[trigger] self.peers@[i])@.outbox
                == before[i]@.outbox + if before[i]@.alive {
                    sent_to(plan@, assigned@, i, 0)
                } else {
                    Seq::empty()
                } by {
                assert(before[i]@.outbox + Seq::<protocol::Message>::empty() =~= before[i]@.outbox);
            }
        }
        while k < plan.len()
            invariant
                self.wf(),
                self.storage == old(self).storage,
                self.downloaded == old(self).downloaded,
                self.uploaded == old(self).uploaded,
                self.last_request_ms == now_ms,
                before == old(self).peers@,
                k <= plan@.len(),
                assigned@.len() == k,
                forall|j: int| 0 <= j < plan@.len() ==> (#[trigger] plan@[j]).length <= REQUEST_SIZE && plan@[j].length > 0,
                only_fair_requests_added(before, self.peers@),
                forall|j: int| 0 <= j < k ==> ((#[trigger] assigned@[j]) is None <==> forall|i: int|
                    0 <= i < before.len() ==> !holds_piece(before, plan@[j].piece, i)),
                forall|j: int| 0 <= j < k && assigned@[j] is Some ==> assigned@[j]->Some_0 < before.len()
                    && holds_piece(before, plan@[j].piece, assigned@[j]->Some_0 as int),
                forall|i: int| 0 <= i < before.len() ==> (#[trigger] self.peers@[i])@.outbox
                    == before[i]@.outbox + if before[i]@.alive {
                        sent_to(plan@, assigned@, i, k as int)
                    } else {
                        Seq::empty()
                    },
            decreases plan@.len() - k,
        {
            let r = plan[k];
            let draw = rand::random::<usize>();
            proof {
                lemma_holds_same(before, self.peers@);
            }
            let ghost prev = assigned@;
            let ghost mid = self.peers@;
            let picked = self.pick_peer_for_request(r.piece, draw);
            proof {
                assert(self.peers_view() == mid);
                if picked is None {
                    assert forall|i: int| 0 <= i < before.len() implies !holds_piece(before, r.piece, i) by {
                        assert(!holds_piece(self.peers_view(), r.piece, i));
                    }
                } else {
                    assert(holds_piece(before, r.piece, picked->Some_0 as int)) by {
                        assert(holds_piece(self.peers_view(), r.piece, picked->Some_0 as int));
                    }
                }
                assert forall|q: int| 0 <= q < before.len() implies (#[trigger] mid[q])@.outbox
                    == before[q]@.outbox + if before[q]@.alive {
                        sent_to(plan@, prev, q, k as int)
                    } else {
                        Seq::empty()
                    } by {
                    assert(self.peers@[q] == mid[q]);
                }
            }
            match picked {
                Some(i) => {
                    self.peers[i].send(Message::Request(r.piece, r.offset, r.length));
                    assigned.push(Some(i));
                    proof {
                        lemma_fair_step(before, mid, self.peers@, i as int, protocol::Message::Request(r.piece, r.offset, r.length));
                        lemma_sent_step(plan@, prev, assigned@, k as int);
                        assert forall|q: int| 0 <= q < before.len() implies (#[trigger] self.peers@[q])@.outbox
                            == before[q]@.outbox + if before[q]@.alive {
                                sent_to(plan@, assigned@, q, k + 1)
                            } else {
                                Seq::empty()
                            } by {
                            assert(mid[q]@.alive == before[q]@.alive) by {
                                assert(mid[q].wf() == before[q].wf());
                            }
                            assert(mid[q]@.outbox == before[q]@.outbox + if before[q]@.alive {
                                sent_to(plan@, prev, q, k as int)
                            } else {
                                Seq::empty()
                            });
                            assert(sent_to(plan@, assigned@, q, k + 1) == sent_to(plan@, prev, q, k as int) + if assigned@[k as int] == Some(q as usize) {
                                seq![protocol::Message::Request(plan@[k as int].piece, plan@[k as int].offset, plan@[k as int].length)]
                            } else {
                                Seq::<protocol::Message>::empty()
                            });
                            if q != i {
                                assert(self.peers@[q] == mid[q]);
                                assert(self.peers.len() == self.peers@.len());
                                assert(assigned@[k as int] != Some(q as usize));
                                assert(sent_to(plan@, assigned@, q, k + 1) =~= sent_to(plan@, prev, q, k as int));
                            } else if before[q]@.alive {
                                assert(self.peers@[q]@.outbox =~= before[q]@.outbox + sent_to(plan@, assigned@, q, k + 1));
                            } else {
                                assert(self.peers@[q]@ == mid[q]@);
                            }
                        }
                    }
                },
                None => {
                    assigned.push(None);
                    proof {
                        lemma_sent_step(plan@, prev, assigned@, k as int);
                        assert forall|q: int| 0 <= q < before.len() implies (#[trigger] self.peers@[q])@.outbox
                            == before[q]@.outbox + if before[q]@.alive {
                                sent_to(plan@, assigned@, q, k + 1)
                            } else {
                                Seq::empty()
                            } by {
                            assert(sent_to(plan@, assigned@, q, k + 1) =~= sent_to(plan@, prev, q, k as int));
                        }
                    }
                },
            }
            k = k + 1;
        }
        assigned
    }
}

/// The requests of `plan` among its first `m` that `assign` gives to peer
/// `i`, in order, as wire messages.
pub open spec fn sent_to(plan: Seq<Request>, assign: Seq<Option<usize>>, i: int, m: int) -> Seq<protocol::Message>
    decreases m,
{
    if m <= 0 || m > plan.len() || m > assign.len() {
        Seq::empty()
    } else {
        sent_to(plan, assign, i, m - 1) + if assign[m - 1] == Some(i as usize) {
            seq![protocol::Message::Request(plan[m - 1].piece, plan[m - 1].offset, plan[m - 1].length)]
        } else {
            Seq::empty()
        }
    }
}

proof fn lemma_sent_prefix(plan: Seq<Request>, a: Seq<Option<usize>>, b: Seq<Option<usize>>, i: int, m: int)
    requires
        0 <= m <= a.len(),
        m <= b.len(),
        m <= plan.len(),
        forall|j: int| 0 <= j < m ==> a[j] == b[j],
    ensures
        sent_to(plan, a, i, m) == sent_to(plan, b, i, m),
    decreases m,
{
    if m > 0 {
        lemma_sent_prefix(plan, a, b, i, m - 1);
    }
}

proof fn lemma_sent_step(plan: Seq<Request>, prev: Seq<Option<usize>>, next: Seq<Option<usize>>, k: int)
    requires
        0 <= k < plan.len(),
        prev.len() == k,
        next.len() == k + 1,
        forall|j: int| 0 <= j < k ==> next[j] == prev[j],
    ensures
        forall|i: int| #[trigger] sent_to(plan, next, i, k + 1) == sent_to(plan, prev, i, k) + if next[k] == Some(i as usize) {
            seq![protocol::Message::Request(plan[k].piece, plan[k].offset, plan[k].length)]
        } else {
            Seq::<protocol::Message>::empty()
        },
{
    assert forall|i: int| #[trigger] sent_to(plan, next, i, k + 1) == sent_to(plan, prev, i, k) + if next[k] == Some(i as usize) {
        seq![protocol::Message::Request(plan[k].piece, plan[k].offset, plan[k].length)]
    } else {
        Seq::<protocol::Message>::empty()
    } by {
        lemma_sent_prefix(plan, next, prev, i, k);
    }
}

proof fn lemma_holds_same(before: Seq<Peer>, cur: Seq<Peer>)
    requires
        only_fair_requests_added(before, cur),
    ensures
        forall|p: usize, i: int| 0 <= i < before.len() ==> #[trigger] holds_piece(cur, p, i) == holds_piece(before, p, i),
{
    assert forall|p: usize, i: int| 0 <= i < before.len() implies #[trigger] holds_piece(cur, p, i) == holds_piece(before, p, i) by {
        assert(cur[i].wf() == before[i].wf());
    }
}

proof fn lemma_fair_refl(ps: Seq<Peer>)
    ensures
        only_fair_requests_added(ps, ps),
{
    assert forall|i: int| 0 <= i < ps.len() implies #[trigger] ps[i]@.outbox.subrange(0, ps[i]@.outbox.len() as int) == ps[i]@.outbox by {
        assert(ps[i]@.outbox.subrange(0, ps[i]@.outbox.len() as int) =~= ps[i]@.outbox);
    }
}

proof fn lemma_fair_step(before: Seq<Peer>, mid: Seq<Peer>, after: Seq<Peer>, i: int, m: protocol::Message)
    requires
        only_fair_requests_added(before, mid),
        0 <= i < mid.len(),
        holds_piece(mid, m->Request_0, i),
        m is Request,
        0 < m->Request_2 <= REQUEST_SIZE,
        after.len() == mid.len(),
        after == mid.update(i, after[i]),
        after[i].wf() == mid[i].wf(),
        !mid[i]@.alive ==> after[i]@ == mid[i]@,
        mid[i]@.alive ==> after[i]@ == (PeerView { outbox: mid[i]@.outbox.push(m), ..mid[i]@ }),
    ensures
        only_fair_requests_added(before, after),
{
    assert(mid[i]@.have == before[i]@.have);
    assert(mid[i]@.piece_count == before[i]@.piece_count);
    assert forall|k: int| 0 <= k < before.len() implies {
        &&& #[trigger] after[k].wf() == before[k].wf()
        &&& after[k]@ == (PeerView { outbox: after[k]@.outbox, ..before[k]@ })
        &&& after[k]@.outbox.len() >= before[k]@.outbox.len()
        &&& after[k]@.outbox.subrange(0, before[k]@.outbox.len() as int) == before[k]@.outbox
        &&& forall|j: int| before[k]@.outbox.len() <= j < after[k]@.outbox.len() ==> fair_request(before, k, #[trigger] after[k]@.outbox[j])
    } by {
        assert(mid[k].wf() == before[k].wf());
        if k != i {
            assert(after[k] == mid[k]);
        } else if mid[i]@.alive {
            let ob = before[k]@.outbox.len() as int;
            assert(after[k]@.outbox.subrange(0, ob) =~= mid[k]@.outbox.subrange(0, ob));
            assert forall|j: int| ob <= j < after[k]@.outbox.len() implies fair_request(before, k, #[trigger] after[k]@.outbox[j]) by {
                if j < mid[k]@.outbox.len() {
                    assert(after[k]@.outbox[j] == mid[k]@.outbox[j]);
                }
            }
        }
    }
}

} // verus!
