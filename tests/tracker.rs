use btclient::bencode::BValue;
use btclient::downloader::PeerAddress;
use btclient::protocol::DownloaderId;
use btclient::tracker::{
    build_request, decode_packed_peers, decode_peer, decode_peers, decode_response, push_url_arg, PeerEntry, Response,
    ResponseError, TrackerArgs, TrackerState,
};

fn args() -> TrackerArgs {
    let mut hash = [0u8; 20];
    hash[0] = 0xAB;
    hash[1] = 0x05;
    TrackerArgs {
        tracker_url: "http://t/announce".to_string(),
        info_hash: hash,
        id: DownloaderId(*b"-dj0001-abcdefghijkl"),
        port: 6981,
    }
}

#[test]
fn announce_url() {
    let url = build_request(&args(), false, 10, 20, 30);
    let hash = format!("%AB%05{}", "%00".repeat(18));
    assert_eq!(
        url,
        format!(
            "http://t/announce?info_hash={}&peer_id=-dj0001-abcdefghijkl&port=6981&uploaded=20&downloaded=10&left=30&compact=1&event=started",
            hash
        )
    );
    let later = build_request(&args(), true, 0, 0, 0);
    assert!(later.ends_with("&left=0&compact=1"));
}

#[test]
fn url_arguments() {
    let mut url = "x".to_string();
    push_url_arg(&mut url, "a", "b");
    assert_eq!(url, "x&a=b");
}

#[test]
fn packed_peers() {
    let peers = decode_packed_peers(&[10, 0, 0, 1, 0x1A, 0xE1]).ok().unwrap();
    assert_eq!(
        peers,
        vec![PeerEntry::Address(PeerAddress::new(0xffff_0a00_0001, 6881))]
    );
    assert_eq!(decode_packed_peers(&[1, 2, 3]).err(), Some(ResponseError::BadPeerListLength));
}

#[test]
fn tracker_response() {
    let value = BValue::Dict(vec![
        (b"interval".to_vec(), BValue::Int(1800)),
        (
            b"peers".to_vec(),
            BValue::List(vec![BValue::Dict(vec![
                (b"ip".to_vec(), BValue::Str(b"1.2.3.4".to_vec())),
                (b"port".to_vec(), BValue::Int(51413)),
            ])]),
        ),
    ]);
    let response = decode_response(value).ok().unwrap();
    assert_eq!(response.interval, 1800);
    assert_eq!(response.peers, vec![PeerEntry::Named(b"1.2.3.4".to_vec(), 51413)]);
    let negative = BValue::Dict(vec![
        (b"interval".to_vec(), BValue::Int(-1)),
        (b"peers".to_vec(), BValue::Str(vec![])),
    ]);
    assert_eq!(decode_response(negative).err(), Some(ResponseError::NegativeInterval));
    assert_eq!(decode_response(BValue::Int(0)).err(), Some(ResponseError::NotADict));
}

#[test]
fn announce_schedule_backs_off() {
    let mut state = TrackerState::new(0);
    assert!(state.can_send_request(0));
    state.start_announce(0);
    assert_eq!(state.next_announce_ms, 10_000);
    state.record_failure();
    state.record_failure();
    assert_eq!(state.retry_after_ms(), 40_000);
    state.start_announce(1000);
    assert!(!state.can_send_request(40_000));
    assert!(state.can_send_request(41_000));
    state.store_response(5000, Response { peers: vec![], interval: 60 });
    assert_eq!(state.failures, 0);
    assert!(state.sent_started);
    assert_eq!(state.next_announce_ms, 65_000);
}

#[test]
fn peer_list_errors() {
    let peer = |port: i64| BValue::Dict(vec![
        (b"ip".to_vec(), BValue::Str(b"::1".to_vec())),
        (b"port".to_vec(), BValue::Int(port)),
    ]);
    assert_eq!(decode_peer(peer(65535)).ok(), Some(PeerEntry::Named(b"::1".to_vec(), 65535)));
    assert_eq!(decode_peer(peer(65536)).err(), Some(ResponseError::BadPeerPort));
    assert_eq!(decode_peer(BValue::Int(1)).err(), Some(ResponseError::BadPeer));
    assert_eq!(
        decode_peers(BValue::List(vec![peer(1), BValue::Dict(vec![])])).err(),
        Some(ResponseError::MissingPeerIp)
    );
    assert_eq!(decode_peers(BValue::Int(3)).err(), Some(ResponseError::BadPeerListFormat));
}
