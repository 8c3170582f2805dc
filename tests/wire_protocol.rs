use btclient::protocol::{
    ConnectionError, decode_raw_message, encode_handshake, encode_raw_message, DownloaderId, Error,
    HandshakeInfo, Message, RawMessage, ReceiveBuffer,
};
use btclient::wire::{bytes_from_u32, u32_from_bytes};

fn decode_frame(bytes: &[u8]) -> Result<Option<RawMessage>, Error> {
    let mut buffer = ReceiveBuffer::new();
    buffer.push_bytes(bytes);
    buffer.get_raw_message()
}

#[test]
fn keep_alive_round_trip() {
    let bytes = encode_raw_message(&RawMessage::KeepAlive);
    assert_eq!(bytes, vec![0, 0, 0, 0]);
    assert_eq!(decode_frame(&bytes), Ok(Some(RawMessage::KeepAlive)));
}

#[test]
fn have_encoding() {
    let bytes = encode_raw_message(&RawMessage::Have(5));
    assert_eq!(bytes, vec![0, 0, 0, 5, 4, 0, 0, 0, 5]);
    assert_eq!(decode_frame(&bytes), Ok(Some(RawMessage::Have(5))));
}

#[test]
fn request_encoding() {
    let bytes = encode_raw_message(&RawMessage::Request(3, 16384, 16384));
    assert_eq!(
        bytes,
        vec![0, 0, 0, 0x0D, 6, 0, 0, 0, 3, 0, 0, 0x40, 0, 0, 0, 0x40, 0]
    );
    assert_eq!(
        decode_frame(&bytes),
        Ok(Some(RawMessage::Request(3, 16384, 16384)))
    );
}

#[test]
fn every_message_round_trips() {
    let messages = vec![
        RawMessage::KeepAlive,
        RawMessage::Choke,
        RawMessage::Unchoke,
        RawMessage::Interested,
        RawMessage::NotInterested,
        RawMessage::Have(4_000_000_000),
        RawMessage::Bitfield(vec![0xFF, 0x80]),
        RawMessage::Request(1, 2, 3),
        RawMessage::Piece(7, 16384, vec![1, 2, 3, 4]),
        RawMessage::Cancel(9, 8, 7),
    ];
    for m in messages {
        let mut bytes = encode_raw_message(&m);
        bytes.extend_from_slice(&[0, 0, 0]);
        let mut buffer = ReceiveBuffer::new();
        buffer.push_bytes(&bytes);
        assert_eq!(buffer.get_raw_message(), Ok(Some(m)));
        assert_eq!(buffer.len(), 3);
    }
}

#[test]
fn malformed_frames_are_refused_and_kept() {
    // unknown tag
    let mut buffer = ReceiveBuffer::new();
    buffer.push_bytes(&[0, 0, 0, 1, 9]);
    assert_eq!(buffer.get_raw_message(), Err(Error::BadMessage));
    assert_eq!(buffer.len(), 5);
    // wrong length for Have
    assert_eq!(decode_frame(&[0, 0, 0, 2, 4, 1]), Err(Error::BadMessage));
    // Choke with a payload
    assert_eq!(decode_frame(&[0, 0, 0, 2, 0, 0]), Err(Error::BadMessage));
    // Piece too short
    assert_eq!(decode_frame(&[0, 0, 0, 5, 7, 0, 0, 0, 1]), Err(Error::BadMessage));
    // oversize length
    assert_eq!(decode_frame(&[0, 0x10, 0, 0]), Err(Error::BadMessage));
    assert_eq!(decode_raw_message(&[8, 0, 0, 0, 1]), Err(Error::BadMessage));
}

#[test]
fn incomplete_frames_wait() {
    assert_eq!(decode_frame(&[0, 0, 0]), Ok(None));
    assert_eq!(decode_frame(&[0, 0, 0, 5, 4, 0]), Ok(None));
}

#[test]
fn big_endian_integers() {
    assert_eq!(u32_from_bytes(&[0x12, 0x34, 0x56, 0x78]), 0x12345678);
    assert_eq!(bytes_from_u32(0xDEADBEEF), [0xDE, 0xAD, 0xBE, 0xEF]);
}

#[test]
fn handshake_round_trip() {
    let info = HandshakeInfo::new([7; 20], DownloaderId([9; 20]));
    let bytes = encode_handshake(&info);
    assert_eq!(bytes.len(), 68);
    assert_eq!(&bytes[0..20], b"\x13BitTorrent protocol");
    assert_eq!(&bytes[20..28], &[0; 8]);
    let mut buffer = ReceiveBuffer::new();
    buffer.push_bytes(&bytes);
    buffer.push_bytes(&[0, 0, 0, 0]);
    let got = buffer.check_handshake().unwrap().unwrap();
    assert_eq!(got.info_hash, [7; 20]);
    assert_eq!(got.id.0, [9; 20]);
    assert_eq!(buffer.get_raw_message(), Ok(Some(RawMessage::KeepAlive)));
}

#[test]
fn handshake_with_wrong_prefix_is_refused() {
    let info = HandshakeInfo::new([7; 20], DownloaderId([9; 20]));
    let mut bytes = encode_handshake(&info);
    bytes[5] = b'X';
    let mut buffer = ReceiveBuffer::new();
    buffer.push_bytes(&bytes);
    assert!(matches!(buffer.check_handshake(), Err(Error::BadHandshake)));
    let mut short = ReceiveBuffer::new();
    short.push_bytes(&bytes[0..67]);
    assert!(matches!(short.check_handshake(), Ok(None)));
}

#[test]
fn message_to_raw() {
    assert_eq!(RawMessage::from_message(Message::Have(3)), RawMessage::Have(3));
    assert_eq!(
        RawMessage::from_message(Message::Piece(1, 2, vec![3])),
        RawMessage::Piece(1, 2, vec![3])
    );
}

#[test]
fn connection_error_descriptions() {
    assert_eq!(ConnectionError::BadMessageLength(70000).description(), "bad message length: 70000");
    assert_eq!(ConnectionError::BadMessageType(12).description(), "bad message type: 12");
    assert_eq!(ConnectionError::ReadError("eof".to_string()).description(), "read error: eof");
    assert_eq!(ConnectionError::Loopback.description(), "connected to myself");
}

#[test]
fn keep_alive_hands_nothing_on() {
    assert_eq!(RawMessage::KeepAlive.to_message(), None);
    assert_eq!(RawMessage::Have(2).to_message(), Some(Message::Have(2)));
    assert!(RawMessage::Piece(1, 1, vec![0; 3]).is_encodable());
    assert!(!RawMessage::Have(1usize << 32).is_encodable());
}
