//! The decisions of a peer connection's engine: what the bytes read from
//! the socket mean, what to write, and when the connection ends. The caller
//! owns the socket and the clock; it hands each read, each outbound message
//! and each failure to `engine_step` and carries out the action returned.

use crate::protocol::{
    encodable, encode_raw_message, frame_of, frame_status, handshake_of, payload_of, raw_of, Error,
    FrameStatus, InMessage, Message, RawMessage, ReceiveBuffer, HANDSHAKE_LEN,
};
use crate::wire::be32;
use vstd::prelude::*;

verus! {

/// Reads without a handshake after which the connection gives up.
pub const MAX_HANDSHAKE_CHECKS: u32 = 20;

#[derive(Debug, Clone, Copy, PartialEq, Eq, Structural)]
pub enum Phase {
    /// Our handshake is out; the peer's has not arrived.
    AwaitingHandshake,
    /// Frames flow both ways.
    Steady,
    /// The connection has ended; nothing more happens.
    Done,
}

/// What happened on a connection.
pub enum EngineEvent {
    /// A read finished, with these bytes (none after a read timeout).
    Bytes(Vec<u8>),
    /// The owner wants this message sent.
    Outbound(Message),
    /// The owner closes the connection.
    Close,
    /// The socket failed.
    Failure(Error),
}

/// What to do: messages to hand upward, bytes to write, and the failure
/// that ends the connection, if it ends.
pub struct EngineAction {
    pub up: Vec<InMessage>,
    pub write: Option<Vec<u8>>,
    pub stop: Option<Error>,
}

pub struct EngineState {
    pub phase: Phase,
    pub checks: u32,
    pub buffer: ReceiveBuffer,
}

impl EngineState {
    /// A connection whose handshake has just been sent.
    pub fn new() -> (r: EngineState)
        ensures
            r.phase == Phase::AwaitingHandshake,
            r.checks == 0,
            r.buffer@ == Seq::<u8>::empty(),
    {
        EngineState { phase: Phase::AwaitingHandshake, checks: 0, buffer: ReceiveBuffer::new() }
    }
}

/// The payloads of the whole frames at the start of `s`, in order.
pub open spec fn frame_payloads(s: Seq<u8>) -> Seq<Seq<u8>>
    decreases s.len(),
{
    if frame_status(s) == FrameStatus::Ready {
        let len = be32(s) as int;
        seq![s.subrange(4, 4 + len)] + frame_payloads(s.subrange(4 + len, s.len() as int))
    } else {
        Seq::empty()
    }
}

/// What is left of `s` once its whole frames are taken off.
pub open spec fn frames_rest(s: Seq<u8>) -> Seq<u8>
    decreases s.len(),
{
    if frame_status(s) == FrameStatus::Ready {
        let len = be32(s) as int;
        frames_rest(s.subrange(4 + len, s.len() as int))
    } else {
        s
    }
}

/// The payloads that are not keep-alives, in order.
pub open spec fn message_payloads(ps: Seq<Seq<u8>>) -> Seq<Seq<u8>>
    decreases ps.len(),
{
    if ps.len() == 0 {
        Seq::empty()
    } else {
        (if ps[0].len() > 0 {
            seq![ps[0]]
        } else {
            Seq::empty()
        }) + message_payloads(ps.drop_first())
    }
}

/// `up` hands upward, in order, the messages whose payloads are `ps`.
pub open spec fn delivers(up: Seq<InMessage>, ps: Seq<Seq<u8>>) -> bool {
    &&& up.len() == ps.len()
    &&& forall|k: int|
        0 <= k < up.len() ==> (#[trigger] up[k]) is Normal && payload_of(raw_of(up[k]->Normal_0))
            == ps[k]
}

/// Takes every whole frame off the buffer: each message other than a
/// keep-alive is handed upward, in order; a malformed frame ends the
/// connection.
fn drain_frames(buffer: &mut ReceiveBuffer, up: &mut Vec<InMessage>) -> (r: Option<Error>)
    ensures
        final(up)@.len() >= old(up)@.len(),
        final(up)@.subrange(0, old(up)@.len() as int) == old(up)@,
        delivers(
            final(up)@.subrange(old(up)@.len() as int, final(up)@.len() as int),
            message_payloads(frame_payloads(old(buffer)@)),
        ),
        final(buffer)@ == frames_rest(old(buffer)@),
        r is Some <==> frame_status(frames_rest(old(buffer)@)) == FrameStatus::Invalid,
        r is Some ==> r == Some(Error::BadMessage),
{
    let ghost start = up@;
    let ghost orig = buffer@;
    let ghost mut emitted: Seq<Seq<u8>> = Seq::empty();
    loop
        invariant
            start == old(up)@,
            orig == old(buffer)@,
            up@.len() >= start.len(),
            up@.subrange(0, start.len() as int) == start,
            delivers(up@.subrange(start.len() as int, up@.len() as int), emitted),
            message_payloads(frame_payloads(orig)) == emitted + message_payloads(frame_payloads(buffer@)),
            frames_rest(buffer@) == frames_rest(orig),
        decreases buffer@.len(),
    {
        let ghost before = buffer@;
        let ghost ups = up@;
        match buffer.get_raw_message() {
            Ok(Some(raw)) => {
                let ghost len = be32(before) as int;
                let ghost p = before.subrange(4, 4 + len);
                proof {
                    assert(frame_status(before) == FrameStatus::Ready);
                    assert(frame_payloads(before).drop_first() =~= frame_payloads(buffer@));
                    assert(frame_payloads(before)[0] == p);
                }
                match raw.to_message() {
                    Some(m) => {
                        up.push(InMessage::Normal(m));
                        proof {
                            assert(p.len() > 0);
                            assert(message_payloads(frame_payloads(before)) == seq![p] + message_payloads(frame_payloads(buffer@)));
                            assert(emitted.push(p) + message_payloads(frame_payloads(buffer@)) =~= emitted + (seq![p] + message_payloads(frame_payloads(buffer@))));
                            let old_up = ups.subrange(start.len() as int, ups.len() as int);
                            assert(up@.subrange(start.len() as int, up@.len() as int) =~= old_up.push(InMessage::Normal(m)));
                            emitted = emitted.push(p);
                        }
                        assert(up@.subrange(0, start.len() as int) =~= ups.subrange(0, start.len() as int));
                    },
                    None => {
                        proof {
                            assert(p.len() == 0);
                            assert(message_payloads(frame_payloads(before)) =~= message_payloads(frame_payloads(buffer@)));
                        }
                    },
                }
            },
            Ok(None) => {
                return None;
            },
            Err(e) => {
                return Some(e);
            },
        }
    }
}

/// One step of a connection's engine.
pub fn engine_step(st: &mut EngineState, ev: EngineEvent) -> (r: EngineAction)
    ensures
        old(st).phase == Phase::Done ==> r.up@.len() == 0 && r.write is None && r.stop is None
            && final(st).phase == Phase::Done,
        r.stop is Some <==> (old(st).phase != Phase::Done && final(st).phase == Phase::Done),
        r.stop is None ==> final(st).phase == old(st).phase || (old(st).phase
            == Phase::AwaitingHandshake && final(st).phase == Phase::Steady),
        old(st).phase != Phase::Done ==> match ev {
            EngineEvent::Close => r.stop == Some(Error::Closed) && r.up@.len() == 0 && r.write is None,
            EngineEvent::Failure(e) => r.stop == Some(e) && r.up@.len() == 0 && r.write is None,
            EngineEvent::Outbound(m) => r.up@.len() == 0 && if encodable(raw_of(m)) {
                r.stop is None && r.write is Some && r.write->Some_0@ == frame_of(raw_of(m))
            } else {
                r.stop == Some(Error::BadMessage) && r.write is None
            },
            EngineEvent::Bytes(b) => r.write is None && if old(st).phase == Phase::AwaitingHandshake {
                let all = old(st).buffer@ + b@;
                if all.len() < 68 {
                    &&& final(st).buffer@ == all
                    &&& r.up@.len() == 0
                    &&& old(st).checks < MAX_HANDSHAKE_CHECKS ==> r.stop is None && final(st).checks == old(st).checks + 1
                    &&& old(st).checks >= MAX_HANDSHAKE_CHECKS ==> r.stop == Some(Error::NoHandshake)
                } else if handshake_of(all) is None {
                    r.stop == Some(Error::BadHandshake) && r.up@.len() == 0
                } else {
                    let after = all.subrange(68, all.len() as int);
                    &&& r.up@.len() >= 1
                    &&& r.up@[0] matches InMessage::Handshake(h) && (h.info_hash@, h.id.0@) == handshake_of(all)->Some_0
                    &&& delivers(r.up@.subrange(1, r.up@.len() as int), message_payloads(frame_payloads(after)))
                    &&& final(st).buffer@ == frames_rest(after)
                    &&& (r.stop is Some <==> frame_status(frames_rest(after)) == FrameStatus::Invalid)
                    &&& r.stop is None || r.stop == Some(Error::BadMessage)
                }
            } else {
                let all = old(st).buffer@ + b@;
                &&& delivers(r.up@, message_payloads(frame_payloads(all)))
                &&& final(st).buffer@ == frames_rest(all)
                &&& (r.stop is Some <==> frame_status(frames_rest(all)) == FrameStatus::Invalid)
                &&& r.stop is None || r.stop == Some(Error::BadMessage)
            },
        },
{
    let mut up: Vec<InMessage> = Vec::new();
    if st.phase == Phase::Done {
        return EngineAction { up: up, write: None, stop: None };
    }
    match ev {
        EngineEvent::Close => {
            st.phase = Phase::Done;
            EngineAction { up: up, write: None, stop: Some(Error::Closed) }
        },
        EngineEvent::Failure(e) => {
            st.phase = Phase::Done;
            EngineAction { up: up, write: None, stop: Some(e) }
        },
        EngineEvent::Outbound(m) => {
            let raw = RawMessage::from_message(m);
            if raw.is_encodable() {
                let bytes = encode_raw_message(&raw);
                EngineAction { up: up, write: Some(bytes), stop: None }
            } else {
                st.phase = Phase::Done;
                EngineAction { up: up, write: None, stop: Some(Error::BadMessage) }
            }
        },
        EngineEvent::Bytes(b) => {
            let ghost all = st.buffer@ + b@;
            st.buffer.push_bytes(b.as_slice());
            let ghost mut first: Option<InMessage> = None;
            if st.phase == Phase::AwaitingHandshake {
                match st.buffer.check_handshake() {
                    Ok(Some(h)) => {
                        proof {
                            assert(handshake_of(all) is Some);
                            assert((h.info_hash@, h.id.0@) == handshake_of(all)->Some_0);
                        }
                        up.push(InMessage::Handshake(h));
                        proof {
                            first = Some(up@[0]);
                        }
                        st.phase = Phase::Steady;
                    },
                    Ok(None) => {
                        if st.checks >= MAX_HANDSHAKE_CHECKS {
                            st.phase = Phase::Done;
                            return EngineAction { up: up, write: None, stop: Some(Error::NoHandshake) };
                        }
                        st.checks = st.checks + 1;
                        return EngineAction { up: up, write: None, stop: None };
                    },
                    Err(e) => {
                        st.phase = Phase::Done;
                        return EngineAction { up: up, write: None, stop: Some(e) };
                    },
                }
            }
            let ghost before_up = up@;
            let stop = drain_frames(&mut st.buffer, &mut up);
            proof {
                if first is Some {
                    assert(before_up.len() == 1);
                    assert(up@[0] == up@.subrange(0, 1)[0]);
                    assert(up@[0] == before_up[0]);
                } else {
                    assert(before_up.len() == 0);
                    assert(up@.subrange(0, up@.len() as int) =~= up@);
                }
            }
            if stop.is_some() {
                st.phase = Phase::Done;
            }
            EngineAction { up: up, write: None, stop: stop }
        },
    }
}

} // verus!
