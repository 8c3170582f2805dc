//! Per-peer session bookkeeping: handshake identity, the peer's piece
//! bitfield and the four choke/interest flags. The session never touches the
//! connection itself: what it wants sent waits in an outbox, and whether the
//! connection is to be closed is read from `is_alive`.

use crate::downloader::PeerAddress;
use crate::protocol::{self, HandshakeInfo, InMessage};
use vstd::arithmetic::div_mod::lemma_fundamental_div_mod_converse;
use vstd::prelude::*;

verus! {

/// What a session hands to the orchestrator.
#[derive(Debug, Clone, PartialEq, Eq)]
pub enum Message {
    Request(usize, usize, usize),
    Piece(usize, usize, Vec<u8>),
}

/// Number of bytes of a bitfield for `n` pieces.
pub open spec fn bitfield_len(n: nat) -> nat {
    (n + 7) / 8
}

/// Whether bit `i` of `bits` is set; bit 0 is the high bit of byte 0.
pub open spec fn bit_at(bits: Seq<u8>, i: int) -> bool {
    (bits[i / 8] >> ((7 - i % 8) as u8)) & 1u8 == 1u8
}

/// `bits` with bit `i` set.
pub open spec fn with_bit(bits: Seq<u8>, i: int) -> Seq<u8> {
    bits.update(i / 8, bits[i / 8] | (1u8 << ((7 - i % 8) as u8)))
}

/// A bitfield for `n` pieces: the right length, and no bit set at a
/// position of `n` or more.
pub open spec fn valid_bitfield(bits: Seq<u8>, n: nat) -> bool {
    &&& bits.len() == bitfield_len(n)
    &&& forall|p: int| n <= p < 8 * bits.len() ==> !bit_at(bits, p)
}

/// The state of a session as its contracts speak of it.
pub struct PeerView {
    pub address: PeerAddress,
    pub info_hash: Seq<u8>,
    pub id: Seq<u8>,
    pub remote: Option<(Seq<u8>, Seq<u8>)>,
    pub piece_count: nat,
    pub have: Seq<u8>,
    pub self_choked: bool,
    pub self_interested: bool,
    pub peer_choked: bool,
    pub peer_interested: bool,
    pub alive: bool,
    pub outbox: Seq<protocol::Message>,
}

/// The session of one peer connection.
pub struct Peer {
    peer: PeerAddress,
    info: HandshakeInfo,
    peer_info: Option<HandshakeInfo>,
    piece_count: usize,
    have: Vec<u8>,
    self_choked: bool,
    self_interested: bool,
    peer_choked: bool,
    peer_interested: bool,
    alive: bool,
    outbox: Vec<protocol::Message>,
}

impl View for Peer {
    type V = PeerView;

    closed spec fn view(&self) -> PeerView {
        PeerView {
            address: self.peer,
            info_hash: self.info.info_hash@,
            id: self.info.id.0@,
            remote: match self.peer_info {
                Some(h) => Some((h.info_hash@, h.id.0@)),
                None => None,
            },
            piece_count: self.piece_count as nat,
            have: self.have@,
            self_choked: self.self_choked,
            self_interested: self.self_interested,
            peer_choked: self.peer_choked,
            peer_interested: self.peer_interested,
            alive: self.alive,
            outbox: self.outbox@,
        }
    }
}

/// The session after message `m` arrived on a live connection.
pub open spec fn apply_message(v: PeerView, m: protocol::Message) -> PeerView {
    match m {
        protocol::Message::Choke => PeerView { peer_choked: true, ..v },
        protocol::Message::Unchoke => PeerView { peer_choked: false, ..v },
        protocol::Message::Interested => PeerView { peer_interested: true, ..v },
        protocol::Message::NotInterested => PeerView { peer_interested: false, ..v },
        protocol::Message::Have(i) => if i < v.piece_count {
            PeerView { have: with_bit(v.have, i as int), ..v }
        } else {
            PeerView { alive: false, ..v }
        },
        protocol::Message::Bitfield(b) => if valid_bitfield(b@, v.piece_count) {
            PeerView { have: b@, ..v }
        } else {
            PeerView { alive: false, ..v }
        },
        _ => v,
    }
}

/// What message `m` hands to the orchestrator: requests and blocks only.
pub open spec fn delivered(m: protocol::Message) -> Option<Message> {
    match m {
        protocol::Message::Request(p, o, l) => Some(Message::Request(p, o, l)),
        protocol::Message::Piece(p, o, d) => Some(Message::Piece(p, o, d)),
        _ => None,
    }
}

/// The session after event `e`; a dead session ignores every event.
pub open spec fn apply_event(v: PeerView, e: InMessage) -> PeerView {
    if !v.alive {
        v
    } else {
        match e {
            InMessage::Error(_) => PeerView { alive: false, ..v },
            InMessage::Handshake(h) => if h.info_hash@ != v.info_hash || h.id.0@ == v.id {
                PeerView { alive: false, ..v }
            } else {
                PeerView { remote: Some((h.info_hash@, h.id.0@)), ..v }
            },
            InMessage::Normal(m) => apply_message(v, m),
        }
    }
}

/// What event `e` hands to the orchestrator.
pub open spec fn event_output(v: PeerView, e: InMessage) -> Option<Message> {
    if !v.alive {
        None
    } else {
        match e {
            InMessage::Normal(m) => delivered(m),
            _ => None,
        }
    }
}

/// A bitfield of another length than the piece count asks for, or with a
/// bit set at a position of the piece count or more, ends a live session;
/// a valid one replaces the peer's bitfield whole.
pub proof fn lemma_bitfield_validation(v: PeerView, bits: Vec<u8>)
    requires
        v.alive,
    ensures
        bits@.len() != bitfield_len(v.piece_count) ==> !apply_event(
            v,
            InMessage::Normal(protocol::Message::Bitfield(bits)),
        ).alive,
        forall|p: int|
            v.piece_count <= p < 8 * bits@.len() && #[trigger] bit_at(bits@, p) ==> !apply_event(
                v,
                InMessage::Normal(protocol::Message::Bitfield(bits)),
            ).alive,
        valid_bitfield(bits@, v.piece_count) ==> apply_event(
            v,
            InMessage::Normal(protocol::Message::Bitfield(bits)),
        ) == (PeerView { have: bits@, ..v }),
{
}

proof fn lemma_spare_bits(n: nat)
    ensures
        (8 - n % 8) % 8 == 8 * bitfield_len(n) - n,
        bitfield_len(n) == 0 ==> n == 0,
{
    let q = n / 8;
    let r = n % 8;
    lemma_fundamental_div_mod_converse(n as int, 8, q as int, r as int);
    if r == 0 {
        lemma_fundamental_div_mod_converse(n + 7 as int, 8, q as int, 7);
    } else {
        lemma_fundamental_div_mod_converse(n + 7 as int, 8, q + 1 as int, r - 1 as int);
    }
}

proof fn lemma_set_bit(b: u8, k: u8, j: u8)
    requires
        k < 8,
        j < 8,
    ensures
        ((b | (1u8 << k)) >> j) & 1u8 == if j == k {
            1u8
        } else {
            (b >> j) & 1u8
        },
{
    assert(((b | (1u8 << k)) >> j) & 1u8 == if j == k {
        1u8
    } else {
        (b >> j) & 1u8
    }) by (bit_vector)
        requires
            k < 8,
            j < 8,
    ;
}

/// Setting a bit sets that bit and leaves every other bit as it was.
pub proof fn lemma_with_bit(bits: Seq<u8>, i: int, p: int)
    requires
        0 <= i < 8 * bits.len(),
        0 <= p < 8 * bits.len(),
    ensures
        with_bit(bits, i).len() == bits.len(),
        bit_at(with_bit(bits, i), p) == (p == i || bit_at(bits, p)),
{
    let w = with_bit(bits, i);
    if p / 8 == i / 8 {
        lemma_set_bit(bits[i / 8], (7 - i % 8) as u8, (7 - p % 8) as u8);
    }
}

fn bytes_equal(a: &[u8; 20], b: &[u8; 20]) -> (r: bool)
    ensures
        r == (a@ == b@),
{
    let mut i: usize = 0;
    while i < 20
        invariant
            i <= 20,
            a@.len() == 20,
            b@.len() == 20,
            forall|j: int| 0 <= j < i ==> a@[j] == b@[j],
        decreases 20 - i,
    {
        if a[i] != b[i] {
            return false;
        }
        i = i + 1;
    }
    assert(a@ =~= b@);
    true
}

impl Peer {
    pub closed spec fn wf(&self) -> bool {
        self.have@.len() == bitfield_len(self.piece_count as nat)
    }

    /// A fresh session for a torrent of `piece_count` pieces: choked and not
    /// interested both ways, with an empty bitfield.
    pub fn new(peer: PeerAddress, piece_count: usize, info: HandshakeInfo) -> (r: Peer)
        ensures
            r.wf(),
            r@ == (PeerView {
                address: peer,
                info_hash: info.info_hash@,
                id: info.id.0@,
                remote: None,
                piece_count: piece_count as nat,
                have: Seq::new(bitfield_len(piece_count as nat), |i: int| 0u8),
                self_choked: true,
                self_interested: false,
                peer_choked: true,
                peer_interested: false,
                alive: true,
                outbox: Seq::empty(),
            }),
    {
        let bitfield_bytes = if piece_count % 8 == 0 {
            piece_count / 8
        } else {
            piece_count / 8 + 1
        };
        let have = vec![0u8; bitfield_bytes];
        let r = Peer {
            peer: peer,
            info: info,
            peer_info: None,
            piece_count: piece_count,
            have: have,
            self_choked: true,
            self_interested: false,
            peer_choked: true,
            peer_interested: false,
            alive: true,
            outbox: Vec::new(),
        };
        assert(r@.have =~= Seq::new(bitfield_len(piece_count as nat), |i: int| 0u8));
        r
    }

    pub fn address(&self) -> (r: PeerAddress)
        ensures
            r == self@.address,
    {
        self.peer
    }

    /// Whether the session still runs.
    pub fn is_alive(&self) -> (r: bool)
        ensures
            r == self@.alive,
    {
        self.alive
    }

    /// Ends the session; a second call does nothing more.
    pub fn disconnect(&mut self)
        ensures
            final(self)@ == (PeerView { alive: false, ..old(self)@ }),
            final(self).wf() == old(self).wf(),
    {
        self.alive = false;
    }

    /// Whether the peer advertises piece `piece`.
    pub fn does_have(&self, piece: usize) -> (r: bool)
        requires
            self.wf(),
        ensures
            r == (piece < self@.piece_count && bit_at(self@.have, piece as int)),
    {
        if piece >= self.piece_count {
            false
        } else {
            let byte = piece / 8;
            let bit = (7 - piece % 8) as u8;
            (self.have[byte] >> bit) & 1u8 == 1u8
        }
    }

    /// Messages waiting to be written to the connection, oldest first.
    pub fn take_outgoing(&mut self) -> (r: Vec<protocol::Message>)
        ensures
            r@ == old(self)@.outbox,
            final(self)@ == (PeerView { outbox: Seq::empty(), ..old(self)@ }),
            final(self).wf() == old(self).wf(),
    {
        let mut out: Vec<protocol::Message> = Vec::new();
        std::mem::swap(&mut out, &mut self.outbox);
        out
    }

    fn push_outgoing(&mut self, msg: protocol::Message)
        ensures
            final(self)@ == (PeerView { outbox: old(self)@.outbox.push(msg), ..old(self)@ }),
            final(self).wf() == old(self).wf(),
    {
        self.outbox.push(msg);
    }

    /// Queues a request or a block for the peer; a dead session sends nothing.
    pub fn send(&mut self, msg: Message)
        ensures
            final(self).wf() == old(self).wf(),
            !old(self)@.alive ==> final(self)@ == old(self)@,
            old(self)@.alive ==> final(self)@ == (PeerView {
                outbox: old(self)@.outbox.push(
                    match msg {
                        Message::Request(p, o, l) => protocol::Message::Request(p, o, l),
                        Message::Piece(p, o, d) => protocol::Message::Piece(p, o, d),
                    },
                ),
                ..old(self)@
            }),
    {
        if !self.alive {
            return ;
        }
        let msg = match msg {
            Message::Request(piece, off, len) => protocol::Message::Request(piece, off, len),
            Message::Piece(piece, off, data) => protocol::Message::Piece(piece, off, data),
        };
        self.push_outgoing(msg);
    }

    pub fn am_choked(&self) -> (r: bool)
        ensures
            r == self@.self_choked,
    {
        self.self_choked
    }

    pub fn am_interested(&self) -> (r: bool)
        ensures
            r == self@.self_interested,
    {
        self.self_interested
    }

    pub fn interested(&self) -> (r: bool)
        ensures
            r == self@.peer_interested,
    {
        self.peer_interested
    }

    pub fn choked(&self) -> (r: bool)
        ensures
            r == self@.peer_choked,
    {
        self.peer_choked
    }

    /// Chokes or unchokes the peer; a message goes out only on a change,
    /// and never from a dead session.
    pub fn set_choking(&mut self, choked: bool)
        ensures
            final(self).wf() == old(self).wf(),
            old(self)@.self_choked == choked ==> final(self)@ == old(self)@,
            old(self)@.self_choked != choked ==> final(self)@ == (PeerView {
                self_choked: choked,
                outbox: if old(self)@.alive {
                    old(self)@.outbox.push(
                        if choked {
                            protocol::Message::Choke
                        } else {
                            protocol::Message::Unchoke
                        },
                    )
                } else {
                    old(self)@.outbox
                },
                ..old(self)@
            }),
    {
        if self.self_choked != choked {
            self.self_choked = choked;
            if self.alive {
                if choked {
                    self.push_outgoing(protocol::Message::Choke);
                } else {
                    self.push_outgoing(protocol::Message::Unchoke);
                }
            }
        }
    }

    /// States or withdraws interest; a message goes out only on a change,
    /// and never from a dead session.
    pub fn set_interested(&mut self, interested: bool)
        ensures
            final(self).wf() == old(self).wf(),
            old(self)@.self_interested == interested ==> final(self)@ == old(self)@,
            old(self)@.self_interested != interested ==> final(self)@ == (PeerView {
                self_interested: interested,
                outbox: if old(self)@.alive {
                    old(self)@.outbox.push(
                        if interested {
                            protocol::Message::Interested
                        } else {
                            protocol::Message::NotInterested
                        },
                    )
                } else {
                    old(self)@.outbox
                },
                ..old(self)@
            }),
    {
        if self.self_interested != interested {
            self.self_interested = interested;
            if self.alive {
                if interested {
                    self.push_outgoing(protocol::Message::Interested);
                } else {
                    self.push_outgoing(protocol::Message::NotInterested);
                }
            }
        }
    }

    /// Takes a bitfield from the peer: a valid one replaces the bitfield
    /// whole, any other ends the session.
    fn store_bitfield(&mut self, bitfield: Vec<u8>)
        requires
            old(self).wf(),
        ensures
            final(self).wf(),
            valid_bitfield(bitfield@, old(self)@.piece_count) ==> final(self)@ == (PeerView {
                have: bitfield@,
                ..old(self)@
            }),
            !valid_bitfield(bitfield@, old(self)@.piece_count) ==> final(self)@ == (PeerView {
                alive: false,
                ..old(self)@
            }),
    {
        let len = bitfield.len();
        let ghost n = self.piece_count as nat;
        proof {
            lemma_spare_bits(n);
        }
        if len != self.have.len() {
            self.alive = false;
            return ;
        }
        if len == 0 {
            self.have = bitfield;
            return ;
        }
        let spare = (8 - self.piece_count % 8) % 8;
        let last_byte = bitfield[len - 1];
        let mut i: usize = 0;
        while i < spare
            invariant
                i <= spare,
                self@ == old(self)@,
                self.wf(),
                n == self.piece_count,
                len == self.have@.len(),
                spare == 8 * len - n,
                spare < 8,
                len == bitfield@.len(),
                len > 0,
                last_byte == bitfield@[len - 1],
                forall|p: int| 8 * len - i <= p < 8 * len ==> !bit_at(bitfield@, p),
            decreases spare - i,
        {
            let ghost p = 8 * len - 1 - i;
            proof {
                lemma_fundamental_div_mod_converse(p, 8, len - 1, 7 - i);
            }
            if (last_byte >> (i as u8)) & 1u8 == 1u8 {
                assert(bit_at(bitfield@, p));
                self.alive = false;
                return ;
            }
            i = i + 1;
        }
        self.have = bitfield;
    }

    /// Applies one message from the peer; requests and blocks are handed on.
    fn process_message(&mut self, msg: protocol::Message) -> (r: Option<Message>)
        requires
            old(self).wf(),
            old(self)@.alive,
        ensures
            final(self).wf(),
            final(self)@ == apply_message(old(self)@, msg),
            r == delivered(msg),
    {
        match msg {
            protocol::Message::Choke => self.peer_choked = true,
            protocol::Message::Unchoke => self.peer_choked = false,
            protocol::Message::Interested => self.peer_interested = true,
            protocol::Message::NotInterested => self.peer_interested = false,
            protocol::Message::Have(piece) => {
                if piece >= self.piece_count {
                    self.alive = false;
                } else {
                    let byte = piece / 8;
                    let bit = (7 - piece % 8) as u8;
                    let updated = self.have[byte] | (1u8 << bit);
                    self.have.set(byte, updated);
                    assert(self.have@ =~= with_bit(old(self)@.have, piece as int));
                }
            },
            protocol::Message::Bitfield(bits) => self.store_bitfield(bits),
            protocol::Message::Request(piece, off, len) => {
                return Some(Message::Request(piece, off, len));
            },
            protocol::Message::Piece(piece, off, data) => {
                return Some(Message::Piece(piece, off, data));
            },
            protocol::Message::Cancel(_, _, _) => {},
        }
        None
    }

    /// Handles one event from the connection. Handshakes and state messages
    /// are consumed here; requests and blocks are handed on. A handshake for
    /// another torrent, or from ourselves, ends the session, and a dead
    /// session ignores whatever still arrives.
    pub fn receive(&mut self, incoming: InMessage) -> (r: Option<Message>)
        requires
            old(self).wf(),
        ensures
            final(self).wf(),
            final(self)@ == apply_event(old(self)@, incoming),
            r == event_output(old(self)@, incoming),
    {
        if !self.alive {
            return None;
        }
        match incoming {
            InMessage::Error(_) => {
                self.alive = false;
                None
            },
            InMessage::Handshake(peer) => {
                if !bytes_equal(&peer.info_hash, &self.info.info_hash) {
                    self.disconnect();
                } else if bytes_equal(&peer.id.0, &self.info.id.0) {
                    self.disconnect();
                } else {
                    self.peer_info = Some(peer);
                }
                None
            },
            InMessage::Normal(msg) => self.process_message(msg),
        }
    }
}

} // verus!
