//! The peer wire protocol: handshake, message framing and the message codec.

use crate::wire::{
    be32, copy_range, extend_bytes, bytes_from_u32, lemma_be32_of_u32_be, lemma_u32_be_of_be32, u32_be, u32_from_bytes,
};
use crate::text::{dec_chars, push_decimal};
use vstd::prelude::*;
use vstd::string::StringExecFns;
use vstd::slice::slice_subrange;

verus! {

/// Frames whose advertised payload length reaches this bound are refused.
pub const MAX_FRAME_LEN: u32 = 1048576;

/// Length of the fixed handshake preamble.
pub const HANDSHAKE_LEN: usize = 68;

/// A 20-byte peer identifier.
#[derive(Debug, Clone)]
pub struct DownloaderId(pub [u8; 20]);

/// What each side asserts on handshake: the content digest and its peer id.
#[derive(Debug, Clone)]
pub struct HandshakeInfo {
    pub info_hash: [u8; 20],
    pub id: DownloaderId,
}

impl HandshakeInfo {
    pub fn new(info_hash: [u8; 20], id: DownloaderId) -> (r: HandshakeInfo)
        ensures
            r.info_hash@ == info_hash@,
            r.id.0@ == id.0@,
    {
        HandshakeInfo { info_hash: info_hash, id: id }
    }
}

/// A message after the handshake, as the owner of a connection sends it or
/// receives it.
#[derive(Debug, Clone, PartialEq, Eq)]
pub enum Message {
    Choke,
    Unchoke,
    Interested,
    NotInterested,
    Have(usize),
    Bitfield(Vec<u8>),
    Request(usize, usize, usize),
    Piece(usize, usize, Vec<u8>),
    Cancel(usize, usize, usize),
}

/// A message as it stands on the wire: a `Message` or a keep-alive.
#[derive(Debug, Clone, PartialEq, Eq)]
pub enum RawMessage {
    KeepAlive,
    Choke,
    Unchoke,
    Interested,
    NotInterested,
    Have(usize),
    Bitfield(Vec<u8>),
    Request(usize, usize, usize),
    Piece(usize, usize, Vec<u8>),
    Cancel(usize, usize, usize),
}

/// A terminal failure of a connection.
#[derive(Debug, Clone, PartialEq, Eq)]
pub enum Error {
    IoError(String),
    BadHandshake,
    NoHandshake,
    BadMessage,
    Closed,
}

/// What a connection hands upward to its owner.
#[derive(Debug, Clone)]
pub enum InMessage {
    Error(Error),
    Handshake(HandshakeInfo),
    Normal(Message),
}

/// Why a connection ended, for the log.
#[derive(Debug, Clone, PartialEq, Eq)]
pub enum ConnectionError {
    FailedToConnect(String),
    FailedToInit(String),
    MalformedMessage,
    BadMessageType(u8),
    BadMessageLength(u32),
    ConnectionClosed,
    ReadError(String),
    WriteError(String),
    BadHandshake,
    NoHandshake,
    Loopback,
}

/// The text that describes `e`.
pub open spec fn description_of(e: ConnectionError) -> Seq<char> {
    match e {
        ConnectionError::BadMessageLength(len) => "bad message length: "@ + dec_chars(len as nat),
        ConnectionError::BadMessageType(t) => "bad message type: "@ + dec_chars(t as nat),
        ConnectionError::ConnectionClosed => "connection closed"@,
        ConnectionError::FailedToConnect(m) => "failed to connect: "@ + m@,
        ConnectionError::FailedToInit(_) => "failed to initialize"@,
        ConnectionError::MalformedMessage => "received malformed message"@,
        ConnectionError::ReadError(m) => "read error: "@ + m@,
        ConnectionError::WriteError(m) => "write error: "@ + m@,
        ConnectionError::BadHandshake => "bad peer handshake"@,
        ConnectionError::NoHandshake => "peer didn't send handshake"@,
        ConnectionError::Loopback => "connected to myself"@,
    }
}

impl ConnectionError {
    pub fn description(&self) -> (r: String)
        ensures
            r@ == description_of(*self),
    {
        match self {
            ConnectionError::BadMessageLength(len) => {
                let mut s = String::from_str("bad message length: ");
                push_decimal(&mut s, *len as u64);
                s
            },
            ConnectionError::BadMessageType(typ) => {
                let mut s = String::from_str("bad message type: ");
                push_decimal(&mut s, *typ as u64);
                s
            },
            ConnectionError::ConnectionClosed => String::from_str("connection closed"),
            ConnectionError::FailedToConnect(e) => {
                let mut s = String::from_str("failed to connect: ");
                s.append(e.as_str());
                s
            },
            ConnectionError::FailedToInit(_) => String::from_str("failed to initialize"),
            ConnectionError::MalformedMessage => String::from_str("received malformed message"),
            ConnectionError::ReadError(e) => {
                let mut s = String::from_str("read error: ");
                s.append(e.as_str());
                s
            },
            ConnectionError::WriteError(e) => {
                let mut s = String::from_str("write error: ");
                s.append(e.as_str());
                s
            },
            ConnectionError::BadHandshake => String::from_str("bad peer handshake"),
            ConnectionError::NoHandshake => String::from_str("peer didn't send handshake"),
            ConnectionError::Loopback => String::from_str("connected to myself"),
        }
    }
}

/// The ASCII preamble: length byte 19 and "BitTorrent protocol".
pub open spec fn protocol_prefix() -> Seq<u8> {
    seq![
        19u8, 66u8, 105u8, 116u8, 84u8, 111u8, 114u8, 114u8, 101u8, 110u8, 116u8, 32u8, 112u8,
        114u8, 111u8, 116u8, 111u8, 99u8, 111u8, 108u8,
    ]
}

/// The 68 bytes of a handshake: preamble, eight zero bytes, digest, peer id.
pub open spec fn handshake_bytes(info: HandshakeInfo) -> Seq<u8> {
    protocol_prefix() + Seq::new(8, |i: int| 0u8) + info.info_hash@ + info.id.0@
}

/// The (digest, peer id) that a receive buffer starting with a well-formed
/// handshake carries; `None` where its preamble is wrong.
pub open spec fn handshake_of(s: Seq<u8>) -> Option<(Seq<u8>, Seq<u8>)> {
    if s.len() >= 68 && s.subrange(0, 20) == protocol_prefix() {
        Some((s.subrange(28, 48), s.subrange(48, 68)))
    } else {
        None
    }
}

pub open spec fn fits_u32(n: usize) -> bool {
    n < 4294967296
}

/// The payload of a frame: type tag and fields.
pub open spec fn payload_of(m: RawMessage) -> Seq<u8> {
    match m {
        RawMessage::KeepAlive => Seq::empty(),
        RawMessage::Choke => seq![0u8],
        RawMessage::Unchoke => seq![1u8],
        RawMessage::Interested => seq![2u8],
        RawMessage::NotInterested => seq![3u8],
        RawMessage::Have(i) => seq![4u8] + u32_be(i as nat),
        RawMessage::Bitfield(b) => seq![5u8] + b@,
        RawMessage::Request(p, o, l) => seq![6u8] + u32_be(p as nat) + u32_be(o as nat) + u32_be(
            l as nat,
        ),
        RawMessage::Piece(p, o, d) => seq![7u8] + u32_be(p as nat) + u32_be(o as nat) + d@,
        RawMessage::Cancel(p, o, l) => seq![8u8] + u32_be(p as nat) + u32_be(o as nat) + u32_be(
            l as nat,
        ),
    }
}

/// Every integer of the message fits in 32 bits, and so does its payload length.
pub open spec fn encodable(m: RawMessage) -> bool {
    match m {
        RawMessage::Have(i) => fits_u32(i),
        RawMessage::Bitfield(b) => b@.len() + 1 < 4294967296,
        RawMessage::Request(p, o, l) => fits_u32(p) && fits_u32(o) && fits_u32(l),
        RawMessage::Piece(p, o, d) => fits_u32(p) && fits_u32(o) && d@.len() + 9 < 4294967296,
        RawMessage::Cancel(p, o, l) => fits_u32(p) && fits_u32(o) && fits_u32(l),
        _ => true,
    }
}

/// A whole frame: the payload length, big-endian, then the payload.
pub open spec fn frame_of(m: RawMessage) -> Seq<u8> {
    u32_be(payload_of(m).len()) + payload_of(m)
}

/// A payload whose tag is known and whose length agrees with the tag.
pub open spec fn valid_payload(s: Seq<u8>) -> bool {
    ||| s.len() == 0
    ||| (s[0] <= 3 && s.len() == 1)
    ||| (s[0] == 4 && s.len() == 5)
    ||| s[0] == 5
    ||| ((s[0] == 6 || s[0] == 8) && s.len() == 13)
    ||| (s[0] == 7 && s.len() >= 9)
}

/// The same message on the wire as `m`, without the keep-alive.
pub open spec fn raw_of(m: Message) -> RawMessage {
    match m {
        Message::Choke => RawMessage::Choke,
        Message::Unchoke => RawMessage::Unchoke,
        Message::Interested => RawMessage::Interested,
        Message::NotInterested => RawMessage::NotInterested,
        Message::Have(i) => RawMessage::Have(i),
        Message::Bitfield(b) => RawMessage::Bitfield(b),
        Message::Request(p, o, l) => RawMessage::Request(p, o, l),
        Message::Piece(p, o, d) => RawMessage::Piece(p, o, d),
        Message::Cancel(p, o, l) => RawMessage::Cancel(p, o, l),
    }
}

impl RawMessage {
    /// Whether every integer of the message fits its 32-bit field.
    pub fn is_encodable(&self) -> (r: bool)
        ensures
            r == encodable(*self),
    {
        match self {
            RawMessage::Have(i) => (*i as u64) < 4294967296,
            RawMessage::Bitfield(b) => (b.len() as u64) < 4294967295,
            RawMessage::Request(p, o, l) => (*p as u64) < 4294967296 && (*o as u64) < 4294967296 && (*l as u64) < 4294967296,
            RawMessage::Piece(p, o, d) => (*p as u64) < 4294967296 && (*o as u64) < 4294967296 && (d.len() as u64) < 4294967287,
            RawMessage::Cancel(p, o, l) => (*p as u64) < 4294967296 && (*o as u64) < 4294967296 && (*l as u64) < 4294967296,
            _ => true,
        }
    }

    /// The message handed to the owner of the connection; a keep-alive
    /// hands nothing on.
    pub fn to_message(self) -> (r: Option<Message>)
        ensures
            self is KeepAlive ==> r is None,
            r matches Some(m) ==> raw_of(m) == self,
            !(self is KeepAlive) ==> r is Some,
    {
        match self {
            RawMessage::KeepAlive => None,
            RawMessage::Choke => Some(Message::Choke),
            RawMessage::Unchoke => Some(Message::Unchoke),
            RawMessage::Interested => Some(Message::Interested),
            RawMessage::NotInterested => Some(Message::NotInterested),
            RawMessage::Have(i) => Some(Message::Have(i)),
            RawMessage::Bitfield(b) => Some(Message::Bitfield(b)),
            RawMessage::Request(p, o, l) => Some(Message::Request(p, o, l)),
            RawMessage::Piece(p, o, d) => Some(Message::Piece(p, o, d)),
            RawMessage::Cancel(p, o, l) => Some(Message::Cancel(p, o, l)),
        }
    }

    pub fn from_message(msg: Message) -> (r: RawMessage)
        ensures
            r == raw_of(msg),
    {
        match msg {
            Message::Choke => RawMessage::Choke,
            Message::Unchoke => RawMessage::Unchoke,
            Message::Interested => RawMessage::Interested,
            Message::NotInterested => RawMessage::NotInterested,
            Message::Have(piece) => RawMessage::Have(piece),
            Message::Bitfield(bits) => RawMessage::Bitfield(bits),
            Message::Request(piece, off, len) => RawMessage::Request(piece, off, len),
            Message::Piece(piece, off, data) => RawMessage::Piece(piece, off, data),
            Message::Cancel(piece, off, len) => RawMessage::Cancel(piece, off, len),
        }
    }
}

/// Reads a big-endian 32-bit field from the first four bytes of `slice`.
pub fn usize_from_bytes(slice: &[u8]) -> (r: usize)
    requires
        slice@.len() >= 4,
    ensures
        r as nat == be32(slice@),
        fits_u32(r),
{
    u32_from_bytes(slice) as usize
}

/// The four big-endian bytes of `num`, which must fit in 32 bits.
pub fn bytes_from_usize(num: usize) -> (r: [u8; 4])
    requires
        fits_u32(num),
    ensures
        r@ == u32_be(num as nat),
{
    bytes_from_u32(num as u32)
}

fn push_u32_field(out: &mut Vec<u8>, n: usize)
    requires
        fits_u32(n),
    ensures
        final(out)@ == old(out)@ + u32_be(n as nat),
{
    let b = bytes_from_usize(n);
    extend_bytes(out, &b);
}

/// The frame of `msg`: its payload length, big-endian, then its payload.
pub fn encode_raw_message(msg: &RawMessage) -> (r: Vec<u8>)
    requires
        encodable(*msg),
    ensures
        r@ == frame_of(*msg),
{
    let mut out: Vec<u8> = Vec::new();
    match msg {
        RawMessage::KeepAlive => {
            push_u32_field(&mut out, 0);
        },
        RawMessage::Choke => {
            push_u32_field(&mut out, 1);
            out.push(0);
        },
        RawMessage::Unchoke => {
            push_u32_field(&mut out, 1);
            out.push(1);
        },
        RawMessage::Interested => {
            push_u32_field(&mut out, 1);
            out.push(2);
        },
        RawMessage::NotInterested => {
            push_u32_field(&mut out, 1);
            out.push(3);
        },
        RawMessage::Have(index) => {
            push_u32_field(&mut out, 5);
            out.push(4);
            push_u32_field(&mut out, *index);
        },
        RawMessage::Bitfield(bits) => {
            push_u32_field(&mut out, bits.len() + 1);
            out.push(5);
            extend_bytes(&mut out, bits.as_slice());
        },
        RawMessage::Request(piece, offset, len) => {
            push_u32_field(&mut out, 13);
            out.push(6);
            push_u32_field(&mut out, *piece);
            push_u32_field(&mut out, *offset);
            push_u32_field(&mut out, *len);
        },
        RawMessage::Piece(piece, offset, bytes) => {
            push_u32_field(&mut out, bytes.len() + 9);
            out.push(7);
            push_u32_field(&mut out, *piece);
            push_u32_field(&mut out, *offset);
            extend_bytes(&mut out, bytes.as_slice());
        },
        RawMessage::Cancel(piece, offset, len) => {
            push_u32_field(&mut out, 13);
            out.push(8);
            push_u32_field(&mut out, *piece);
            push_u32_field(&mut out, *offset);
            push_u32_field(&mut out, *len);
        },
    }
    assert(out@ =~= frame_of(*msg));
    out
}

/// The 68-byte handshake that announces `info`.
pub fn encode_handshake(info: &HandshakeInfo) -> (r: Vec<u8>)
    ensures
        r@ == handshake_bytes(*info),
{
    let prefix: [u8; 20] = [
        19, 66, 105, 116, 84, 111, 114, 114, 101, 110, 116, 32, 112, 114, 111, 116, 111, 99, 111,
        108,
    ];
    let zeros: [u8; 8] = [0, 0, 0, 0, 0, 0, 0, 0];
    let mut out: Vec<u8> = Vec::new();
    extend_bytes(&mut out, &prefix);
    extend_bytes(&mut out, &zeros);
    extend_bytes(&mut out, &info.info_hash);
    extend_bytes(&mut out, &info.id.0);
    assert(prefix@ =~= protocol_prefix());
    assert(zeros@ =~= Seq::new(8, |i: int| 0u8));
    assert(out@ =~= handshake_bytes(*info));
    out
}

fn field_at(slice: &[u8], at: usize) -> (r: usize)
    requires
        at <= 9,
        at + 4 <= slice@.len(),
    ensures
        fits_u32(r),
        u32_be(r as nat) == slice@.subrange(at as int, at + 4),
{
    let r = usize_from_bytes(slice_subrange(slice, at, at + 4));
    proof {
        lemma_u32_be_of_be32(slice@.subrange(at as int, at + 4));
    }
    r
}

/// Decodes the payload of one frame (the bytes after its length).
pub fn decode_raw_message(slice: &[u8]) -> (r: Result<RawMessage, Error>)
    ensures
        r is Ok <==> valid_payload(slice@),
        r is Err ==> r == Err::<RawMessage, Error>(Error::BadMessage),
        r matches Ok(m) ==> payload_of(m) == slice@ && (slice@.len() < 4294967296 ==> encodable(m)),
{
    let n = slice.len();
    if n == 0 {
        assert(payload_of(RawMessage::KeepAlive) =~= slice@);
        return Ok(RawMessage::KeepAlive);
    }
    let tag = slice[0];
    let r = if tag <= 3 {
        if n == 1 {
            if tag == 0 {
                Ok(RawMessage::Choke)
            } else if tag == 1 {
                Ok(RawMessage::Unchoke)
            } else if tag == 2 {
                Ok(RawMessage::Interested)
            } else {
                Ok(RawMessage::NotInterested)
            }
        } else {
            Err(Error::BadMessage)
        }
    } else if tag == 4 {
        if n == 5 {
            Ok(RawMessage::Have(field_at(slice, 1)))
        } else {
            Err(Error::BadMessage)
        }
    } else if tag == 5 {
        Ok(RawMessage::Bitfield(copy_range(slice, 1, n)))
    } else if tag == 6 || tag == 8 {
        if n == 13 {
            let piece = field_at(slice, 1);
            let offset = field_at(slice, 5);
            let length = field_at(slice, 9);
            if tag == 6 {
                Ok(RawMessage::Request(piece, offset, length))
            } else {
                Ok(RawMessage::Cancel(piece, offset, length))
            }
        } else {
            Err(Error::BadMessage)
        }
    } else if tag == 7 {
        if n >= 9 {
            let piece = field_at(slice, 1);
            let offset = field_at(slice, 5);
            let data = copy_range(slice, 9, n);
            Ok(RawMessage::Piece(piece, offset, data))
        } else {
            Err(Error::BadMessage)
        }
    } else {
        Err(Error::BadMessage)
    };
    proof {
        if r is Ok {
            let m = r->Ok_0;
            let s = slice@;
            assert(s =~= s.subrange(0, 1) + s.subrange(1, n as int));
            if tag == 6 || tag == 8 || tag == 7 {
                assert(s.subrange(1, n as int) =~= s.subrange(1, 5) + s.subrange(5, 9) + s.subrange(
                    9,
                    n as int,
                ));
            }
            if tag == 6 || tag == 8 {
                assert(s.subrange(9, n as int) =~= s.subrange(9, 13));
            }
            assert(payload_of(m) =~= s);
        }
    }
    r
}

/// Bytes received from a peer and not consumed yet.
pub struct ReceiveBuffer {
    data: Vec<u8>,
}

impl View for ReceiveBuffer {
    type V = Seq<u8>;

    closed spec fn view(&self) -> Seq<u8> {
        self.data@
    }
}

impl ReceiveBuffer {
    pub fn new() -> (r: ReceiveBuffer)
        ensures
            r@ == Seq::<u8>::empty(),
    {
        ReceiveBuffer { data: Vec::new() }
    }

    /// Appends bytes that were read from the peer.
    pub fn push_bytes(&mut self, bytes: &[u8])
        ensures
            final(self)@ == old(self)@ + bytes@,
    {
        extend_bytes(&mut self.data, bytes);
    }

    pub fn len(&self) -> (r: usize)
        ensures
            r == self@.len(),
    {
        self.data.len()
    }

    /// The advertised length of the next frame, once four bytes are here.
    pub fn next_message_length(&self) -> (r: Option<u32>)
        ensures
            self@.len() >= 4 ==> r == Some(be32(self@) as u32),
            self@.len() < 4 ==> r is None,
    {
        if self.data.len() >= 4 {
            Some(u32_from_bytes(self.data.as_slice()))
        } else {
            None
        }
    }

    /// Drops the first `count` bytes.
    pub fn remove_bytes(&mut self, count: usize)
        requires
            count <= old(self)@.len(),
        ensures
            final(self)@ == old(self)@.subrange(count as int, old(self)@.len() as int),
    {
        let rest = copy_range(self.data.as_slice(), count, self.data.len());
        self.data = rest;
    }

    /// Takes the next whole frame off the buffer and decodes it.
    /// `Ok(None)` while the frame is incomplete; a frame that is too long or
    /// malformed is an error and stays in the buffer.
    pub fn get_raw_message(&mut self) -> (r: Result<Option<RawMessage>, Error>)
        ensures
            frame_status(old(self)@) == FrameStatus::Incomplete ==> r == Ok::<
                Option<RawMessage>,
                Error,
            >(None) && final(self)@ == old(self)@,
            frame_status(old(self)@) == FrameStatus::Invalid ==> r == Err::<
                Option<RawMessage>,
                Error,
            >(Error::BadMessage) && final(self)@ == old(self)@,
            frame_status(old(self)@) == FrameStatus::Ready ==> {
                let len = be32(old(self)@) as int;
                &&& r matches Ok(Some(m))
                &&& payload_of(m) == old(self)@.subrange(4, 4 + len)
                &&& encodable(m)
                &&& final(self)@ == old(self)@.subrange(4 + len, old(self)@.len() as int)
            },
    {
        let len = match self.next_message_length() {
            Some(len) => {
                if len < MAX_FRAME_LEN {
                    len as usize
                } else {
                    return Err(Error::BadMessage);
                }
            },
            None => {
                return Ok(None);
            },
        };
        if self.data.len() >= len + 4 {
            let message = {
                let message_data = slice_subrange(self.data.as_slice(), 4, 4 + len);
                decode_raw_message(message_data)?
            };
            self.remove_bytes(len + 4);
            Ok(Some(message))
        } else {
            Ok(None)
        }
    }

    /// Takes the peer's handshake off the buffer once 68 bytes are here.
    pub fn check_handshake(&mut self) -> (r: Result<Option<HandshakeInfo>, Error>)
        ensures
            old(self)@.len() < 68 ==> r == Ok::<Option<HandshakeInfo>, Error>(None)
                && final(self)@ == old(self)@,
            old(self)@.len() >= 68 && handshake_of(old(self)@) is None ==> r == Err::<
                Option<HandshakeInfo>,
                Error,
            >(Error::BadHandshake) && final(self)@ == old(self)@,
            handshake_of(old(self)@) matches Some((hash, id)) ==> {
                &&& r matches Ok(Some(h))
                &&& h.info_hash@ == hash
                &&& h.id.0@ == id
                &&& final(self)@ == old(self)@.subrange(68, old(self)@.len() as int)
            },
    {
        if self.data.len() < HANDSHAKE_LEN {
            return Ok(None);
        }
        let mut i: usize = 0;
        let ghost expected = protocol_prefix();
        let prefix: [u8; 20] = [
            19, 66, 105, 116, 84, 111, 114, 114, 101, 110, 116, 32, 112, 114, 111, 116, 111, 99,
            111, 108,
        ];
        assert(prefix@ =~= expected);
        while i < 20
            invariant
                i <= 20,
                self@.len() >= 68,
                self@ == old(self)@,
                prefix@ == expected,
                expected == protocol_prefix(),
                forall|j: int| 0 <= j < i ==> self@[j] == expected[j],
            decreases 20 - i,
        {
            if self.data[i] != prefix[i] {
                proof {
                    assert(self@.subrange(0, 20)[i as int] != expected[i as int]);
                    assert(self@.subrange(0, 20) != expected);
                    assert(handshake_of(old(self)@) is None);
                }
                return Err(Error::BadHandshake);
            }
            i = i + 1;
        }
        assert(self@.subrange(0, 20) =~= expected);
        let mut hash: [u8; 20] = [0; 20];
        let mut id: [u8; 20] = [0; 20];
        let mut k: usize = 0;
        while k < 20
            invariant
                k <= 20,
                self@.len() >= 68,
                self@ == old(self)@,
                hash@.len() == 20,
                id@.len() == 20,
                forall|j: int| 0 <= j < k ==> hash@[j] == self@[28 + j],
                forall|j: int| 0 <= j < k ==> id@[j] == self@[48 + j],
            decreases 20 - k,
        {
            hash[k] = self.data[28 + k];
            id[k] = self.data[48 + k];
            k = k + 1;
        }
        assert(hash@ =~= self@.subrange(28, 48));
        assert(id@ =~= self@.subrange(48, 68));
        self.remove_bytes(HANDSHAKE_LEN);
        Ok(Some(HandshakeInfo::new(hash, DownloaderId(id))))
    }
}

/// Where the next frame of a receive buffer stands.
#[derive(PartialEq, Eq, Structural)]
pub enum FrameStatus {
    /// Fewer bytes than the frame needs.
    Incomplete,
    /// Too long, or a payload that does not decode.
    Invalid,
    /// A whole, well-formed frame.
    Ready,
}

pub open spec fn frame_status(s: Seq<u8>) -> FrameStatus {
    if s.len() < 4 {
        FrameStatus::Incomplete
    } else if be32(s) >= MAX_FRAME_LEN {
        FrameStatus::Invalid
    } else if s.len() < 4 + be32(s) {
        FrameStatus::Incomplete
    } else if !valid_payload(s.subrange(4, 4 + be32(s) as int)) {
        FrameStatus::Invalid
    } else {
        FrameStatus::Ready
    }
}

/// Codec round trip: a frame of a message that fits, followed by any bytes,
/// is ready to decode, its payload is the message's, and what follows stays.
pub proof fn lemma_frame_round_trip(m: RawMessage, rest: Seq<u8>)
    requires
        encodable(m),
        payload_of(m).len() < MAX_FRAME_LEN,
    ensures
        ({
            let s = frame_of(m) + rest;
            let len = payload_of(m).len() as int;
            &&& be32(s) == len
            &&& frame_status(s) == FrameStatus::Ready
            &&& s.subrange(4, 4 + len) == payload_of(m)
            &&& s.subrange(4 + len, s.len() as int) == rest
        }),
{
    let s = frame_of(m) + rest;
    let p = payload_of(m);
    lemma_be32_of_u32_be(p.len());
    assert(s.subrange(0, 4) =~= u32_be(p.len()));
    assert(s.subrange(4, 4 + p.len() as int) =~= p);
    assert(s.subrange(4 + p.len() as int, s.len() as int) =~= rest);
    assert(be32(s) == be32(s.subrange(0, 4)));
    match m {
        RawMessage::Have(i) => {
            assert(p.len() == 5);
        },
        RawMessage::Request(a, b, c) => {
            assert(p.len() == 13);
        },
        RawMessage::Cancel(a, b, c) => {
            assert(p.len() == 13);
        },
        RawMessage::Piece(a, b, d) => {
            assert(p.len() == 9 + d@.len());
        },
        _ => {},
    }
    assert(p.len() > 0 ==> p[0] == s.subrange(4, 4 + p.len() as int)[0]);
}

/// Two messages with the same variant, the same integers and the same bytes.
pub open spec fn same_message(a: RawMessage, b: RawMessage) -> bool {
    match (a, b) {
        (RawMessage::KeepAlive, RawMessage::KeepAlive) => true,
        (RawMessage::Choke, RawMessage::Choke) => true,
        (RawMessage::Unchoke, RawMessage::Unchoke) => true,
        (RawMessage::Interested, RawMessage::Interested) => true,
        (RawMessage::NotInterested, RawMessage::NotInterested) => true,
        (RawMessage::Have(x), RawMessage::Have(y)) => x == y,
        (RawMessage::Bitfield(x), RawMessage::Bitfield(y)) => x@ == y@,
        (RawMessage::Request(p, o, l), RawMessage::Request(q, r, k)) => p == q && o == r && l == k,
        (RawMessage::Piece(p, o, d), RawMessage::Piece(q, r, e)) => p == q && o == r && d@ == e@,
        (RawMessage::Cancel(p, o, l), RawMessage::Cancel(q, r, k)) => p == q && o == r && l == k,
        _ => false,
    }
}

proof fn lemma_field_injective(a: usize, b: usize)
    requires
        fits_u32(a),
        fits_u32(b),
        u32_be(a as nat) == u32_be(b as nat),
    ensures
        a == b,
{
    lemma_be32_of_u32_be(a as nat);
    lemma_be32_of_u32_be(b as nat);
}

/// Messages that fit their fields and have the same payload are the same
/// message: decoding a payload gives back the message it encodes.
#[verifier::spinoff_prover]
#[verifier::rlimit(80)]
pub proof fn lemma_payload_injective(a: RawMessage, b: RawMessage)
    requires
        encodable(a),
        encodable(b),
        payload_of(a) == payload_of(b),
    ensures
        same_message(a, b),
{
    let s = payload_of(a);
    if s.len() > 0 {
        assert(payload_of(a)[0] == payload_of(b)[0]);
    }
    match (a, b) {
        (RawMessage::Have(x), RawMessage::Have(y)) => {
            assert(s.subrange(1, 5) =~= u32_be(x as nat));
            assert(s.subrange(1, 5) =~= u32_be(y as nat));
            lemma_field_injective(x, y);
        },
        (RawMessage::Bitfield(x), RawMessage::Bitfield(y)) => {
            assert(x@ =~= s.subrange(1, s.len() as int));
            assert(y@ =~= s.subrange(1, s.len() as int));
        },
        (RawMessage::Request(p, o, l), RawMessage::Request(q, r, k)) => {
            assert(s.subrange(1, 5) =~= u32_be(p as nat) && s.subrange(1, 5) =~= u32_be(q as nat));
            assert(s.subrange(5, 9) =~= u32_be(o as nat) && s.subrange(5, 9) =~= u32_be(r as nat));
            assert(s.subrange(9, 13) =~= u32_be(l as nat) && s.subrange(9, 13) =~= u32_be(k as nat));
            lemma_field_injective(p, q);
            lemma_field_injective(o, r);
            lemma_field_injective(l, k);
        },
        (RawMessage::Cancel(p, o, l), RawMessage::Cancel(q, r, k)) => {
            assert(s.subrange(1, 5) =~= u32_be(p as nat) && s.subrange(1, 5) =~= u32_be(q as nat));
            assert(s.subrange(5, 9) =~= u32_be(o as nat) && s.subrange(5, 9) =~= u32_be(r as nat));
            assert(s.subrange(9, 13) =~= u32_be(l as nat) && s.subrange(9, 13) =~= u32_be(k as nat));
            lemma_field_injective(p, q);
            lemma_field_injective(o, r);
            lemma_field_injective(l, k);
        },
        (RawMessage::Piece(p, o, d), RawMessage::Piece(q, r, e)) => {
            assert(s.subrange(1, 5) =~= u32_be(p as nat) && s.subrange(1, 5) =~= u32_be(q as nat));
            assert(s.subrange(5, 9) =~= u32_be(o as nat) && s.subrange(5, 9) =~= u32_be(r as nat));
            assert(d@ =~= s.subrange(9, s.len() as int) && e@ =~= s.subrange(9, s.len() as int));
            lemma_field_injective(p, q);
            lemma_field_injective(o, r);
        },
        _ => {},
    }
}

/// Handshake round trip: the handshake announcing `info`, followed by any
/// bytes, carries `info`'s digest and peer id.
pub proof fn lemma_handshake_round_trip(info: HandshakeInfo, rest: Seq<u8>)
    ensures
        handshake_of(handshake_bytes(info) + rest) == Some((info.info_hash@, info.id.0@)),
{
    let s = handshake_bytes(info) + rest;
    assert(s.subrange(0, 20) =~= protocol_prefix());
    assert(s.subrange(28, 48) =~= info.info_hash@);
    assert(s.subrange(48, 68) =~= info.id.0@);
}

} // verus!
