use btclient::engine::{engine_step, EngineEvent, EngineState, Phase};
use btclient::protocol::{
    encode_handshake, encode_raw_message, DownloaderId, Error, HandshakeInfo, InMessage, Message,
    RawMessage,
};

fn handshake_bytes() -> Vec<u8> {
    encode_handshake(&HandshakeInfo::new([3; 20], DownloaderId([4; 20])))
}

#[test]
fn handshake_then_frames() {
    let mut st = EngineState::new();
    let mut bytes = handshake_bytes();
    bytes.extend(encode_raw_message(&RawMessage::KeepAlive));
    bytes.extend(encode_raw_message(&RawMessage::Have(7)));
    bytes.extend(&[0, 0]);
    let action = engine_step(&mut st, EngineEvent::Bytes(bytes));
    assert!(action.stop.is_none());
    assert_eq!(action.up.len(), 2);
    match &action.up[0] {
        InMessage::Handshake(h) => {
            assert_eq!(h.info_hash, [3; 20]);
            assert_eq!(h.id.0, [4; 20]);
        }
        _ => panic!("expected the handshake first"),
    }
    assert!(matches!(action.up[1], InMessage::Normal(Message::Have(7))));
    assert_eq!(st.phase, Phase::Steady);
    let more = engine_step(&mut st, EngineEvent::Bytes(vec![0, 1, 2]));
    assert!(matches!(more.up[0], InMessage::Normal(Message::Interested)));
}

#[test]
fn no_handshake_after_twenty_reads() {
    let mut st = EngineState::new();
    for _ in 0..20 {
        let a = engine_step(&mut st, EngineEvent::Bytes(vec![]));
        assert!(a.stop.is_none());
    }
    let a = engine_step(&mut st, EngineEvent::Bytes(vec![]));
    assert_eq!(a.stop, Some(Error::NoHandshake));
    let after = engine_step(&mut st, EngineEvent::Close);
    assert!(after.stop.is_none());
    assert_eq!(st.phase, Phase::Done);
}

#[test]
fn bad_prefix_and_bad_frame_fail_once() {
    let mut st = EngineState::new();
    let mut bytes = handshake_bytes();
    bytes[1] = b'X';
    assert_eq!(engine_step(&mut st, EngineEvent::Bytes(bytes)).stop, Some(Error::BadHandshake));

    let mut st = EngineState::new();
    let mut bytes = handshake_bytes();
    bytes.extend(&[0, 0, 0, 1, 42]);
    let a = engine_step(&mut st, EngineEvent::Bytes(bytes));
    assert_eq!(a.stop, Some(Error::BadMessage));
    assert!(engine_step(&mut st, EngineEvent::Bytes(vec![0, 0, 0, 0])).up.is_empty());
}

#[test]
fn outbound_and_close() {
    let mut st = EngineState::new();
    let a = engine_step(&mut st, EngineEvent::Outbound(Message::Have(5)));
    assert_eq!(a.write, Some(vec![0, 0, 0, 5, 4, 0, 0, 0, 5]));
    let c = engine_step(&mut st, EngineEvent::Close);
    assert_eq!(c.stop, Some(Error::Closed));
    let f = engine_step(&mut st, EngineEvent::Failure(Error::Closed));
    assert!(f.stop.is_none());
}

#[test]
fn frames_in_order_after_handshake() {
    let mut st = EngineState::new();
    assert!(engine_step(&mut st, EngineEvent::Bytes(handshake_bytes())).stop.is_none());
    let mut bytes = encode_raw_message(&RawMessage::Choke);
    bytes.extend(encode_raw_message(&RawMessage::Request(1, 2, 3)));
    bytes.extend(encode_raw_message(&RawMessage::KeepAlive));
    bytes.extend(encode_raw_message(&RawMessage::Have(9)));
    let a = engine_step(&mut st, EngineEvent::Bytes(bytes));
    assert_eq!(a.up.len(), 3);
    assert!(matches!(a.up[0], InMessage::Normal(Message::Choke)));
    assert!(matches!(a.up[1], InMessage::Normal(Message::Request(1, 2, 3))));
    assert!(matches!(a.up[2], InMessage::Normal(Message::Have(9))));
}
