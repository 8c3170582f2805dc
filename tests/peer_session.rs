use btclient::downloader::PeerAddress;
use btclient::peer::{Message, Peer};
use btclient::protocol::{self, DownloaderId, Error, HandshakeInfo, InMessage};

fn session(pieces: usize) -> Peer {
    let info = HandshakeInfo::new([1; 20], DownloaderId([2; 20]));
    Peer::new(PeerAddress::new(0x7f000001, 6881), pieces, info)
}

#[test]
fn handshake_self_loop() {
    let mut peer = session(10);
    let own = HandshakeInfo::new([1; 20], DownloaderId([2; 20]));
    assert_eq!(peer.receive(InMessage::Handshake(own)), None);
    assert!(!peer.is_alive());
    assert_eq!(
        peer.receive(InMessage::Normal(protocol::Message::Request(0, 0, 10))),
        None
    );
    peer.set_choking(false);
    peer.set_interested(true);
    assert!(!peer.am_choked());
    assert!(peer.am_interested());
    peer.send(Message::Request(1, 0, 10));
    assert!(peer.take_outgoing().is_empty());
}

#[test]
fn handshake_for_other_torrent_disconnects() {
    let mut peer = session(10);
    let other = HandshakeInfo::new([3; 20], DownloaderId([4; 20]));
    peer.receive(InMessage::Handshake(other));
    assert!(!peer.is_alive());
}

#[test]
fn good_handshake_keeps_session() {
    let mut peer = session(10);
    let remote = HandshakeInfo::new([1; 20], DownloaderId([4; 20]));
    peer.receive(InMessage::Handshake(remote));
    assert!(peer.is_alive());
}

#[test]
fn bitfield_spare_bit() {
    let mut bad = session(10);
    bad.receive(InMessage::Normal(protocol::Message::Bitfield(vec![0xFF, 0xC1])));
    assert!(!bad.is_alive());

    let mut good = session(10);
    good.receive(InMessage::Normal(protocol::Message::Bitfield(vec![0xFF, 0xC0])));
    assert!(good.is_alive());
    for piece in 0..10 {
        assert!(good.does_have(piece));
    }
    assert!(!good.does_have(10));
}

#[test]
fn bitfield_validation_over_sizes() {
    for &n in &[1usize, 7, 8, 9, 16, 17] {
        let len = (n + 7) / 8;
        for spare in n..(8 * len) {
            let mut bits = vec![0u8; len];
            bits[spare / 8] |= 1 << (7 - spare % 8);
            let mut peer = session(n);
            peer.receive(InMessage::Normal(protocol::Message::Bitfield(bits)));
            assert!(!peer.is_alive(), "n = {}, bit {}", n, spare);
        }
        let mut long = session(n);
        long.receive(InMessage::Normal(protocol::Message::Bitfield(vec![0; len + 1])));
        assert!(!long.is_alive());
        let mut full = session(n);
        let mut bits = vec![0u8; len];
        for p in 0..n {
            bits[p / 8] |= 1 << (7 - p % 8);
        }
        full.receive(InMessage::Normal(protocol::Message::Bitfield(bits)));
        assert!(full.is_alive());
        assert!(full.does_have(n - 1));
    }
}

#[test]
fn have_sets_the_high_bit_first() {
    let mut peer = session(16);
    peer.receive(InMessage::Normal(protocol::Message::Have(0)));
    peer.receive(InMessage::Normal(protocol::Message::Have(9)));
    peer.receive(InMessage::Normal(protocol::Message::Have(9)));
    assert!(peer.does_have(0));
    assert!(peer.does_have(9));
    assert!(!peer.does_have(1));
    assert!(!peer.does_have(8));
    assert!(peer.is_alive());
    peer.receive(InMessage::Normal(protocol::Message::Have(16)));
    assert!(!peer.is_alive());
}

#[test]
fn choke_and_interest_flags() {
    let mut peer = session(4);
    assert!(peer.choked());
    assert!(!peer.interested());
    peer.receive(InMessage::Normal(protocol::Message::Unchoke));
    peer.receive(InMessage::Normal(protocol::Message::Interested));
    assert!(!peer.choked());
    assert!(peer.interested());
    peer.receive(InMessage::Normal(protocol::Message::Choke));
    peer.receive(InMessage::Normal(protocol::Message::NotInterested));
    assert!(peer.choked());
    assert!(!peer.interested());
}

#[test]
fn requests_and_blocks_are_handed_on() {
    let mut peer = session(4);
    assert_eq!(
        peer.receive(InMessage::Normal(protocol::Message::Request(1, 2, 3))),
        Some(Message::Request(1, 2, 3))
    );
    assert_eq!(
        peer.receive(InMessage::Normal(protocol::Message::Piece(1, 0, vec![5]))),
        Some(Message::Piece(1, 0, vec![5]))
    );
    assert_eq!(
        peer.receive(InMessage::Normal(protocol::Message::Cancel(1, 2, 3))),
        None
    );
}

#[test]
fn state_changes_send_once() {
    let mut peer = session(4);
    assert!(peer.am_choked());
    assert!(!peer.am_interested());
    peer.set_choking(false);
    peer.set_choking(false);
    peer.set_interested(true);
    peer.set_interested(true);
    assert_eq!(
        peer.take_outgoing(),
        vec![protocol::Message::Unchoke, protocol::Message::Interested]
    );
    assert!(!peer.am_choked());
    assert!(peer.am_interested());
    peer.send(Message::Request(0, 0, 5));
    assert_eq!(peer.take_outgoing(), vec![protocol::Message::Request(0, 0, 5)]);
}

#[test]
fn connection_error_ends_session() {
    let mut peer = session(4);
    peer.receive(InMessage::Error(Error::Closed));
    assert!(!peer.is_alive());
    peer.disconnect();
    assert!(!peer.is_alive());
}
