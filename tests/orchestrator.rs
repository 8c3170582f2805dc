use btclient::bencode::BValue;
use btclient::downloader::{generate_id, id_from_draws, plan_requests, Downloader, PeerAddress};
use btclient::protocol::{self, InMessage};
use btclient::request::Request;
use btclient::storage::memory::MemoryStorage;
use btclient::storage::partial::PartialStorage;
use btclient::storage::Storage;
use btclient::torrent::{from_bvalue, split_piece_hashes, DecodeError, File, TorrentInfo};

fn digest(data: &[u8]) -> [u8; 20] {
    sha1::Sha1::from(data).digest().bytes()
}

fn info_for(content: &[u8], piece_length: u64) -> TorrentInfo {
    TorrentInfo {
        root: "out".to_string(),
        piece_length,
        pieces: content.chunks(piece_length as usize).map(digest).collect(),
        files: vec![File { path: "out".to_string(), length: content.len() as u64 }],
    }
}

type Store = PartialStorage<MemoryStorage>;

#[test]
fn request_split() {
    let r = Request::new(2, 100, 40000);
    let mut parts = r.split_request(16384);
    assert_eq!(parts.next(), Some(Request::new(2, 100, 16384)));
    assert_eq!(parts.next(), Some(Request::new(2, 16484, 16384)));
    assert_eq!(parts.next(), Some(Request::new(2, 32868, 7232)));
    assert_eq!(parts.next(), None);
    assert!(Request::new(1, 0, 10).intersects(&Request::new(1, 9, 5)));
    assert!(!Request::new(1, 0, 10).intersects(&Request::new(1, 10, 5)));
    assert!(!Request::new(1, 0, 10).intersects(&Request::new(2, 0, 10)));
}

#[test]
fn plan_takes_first_parts() {
    let reqs = vec![
        Request::new(0, 0, 40000),
        Request::new(1, 0, 0),
        Request::new(2, 5, 100),
    ];
    assert_eq!(
        plan_requests(&reqs),
        vec![Request::new(0, 0, 16384), Request::new(2, 5, 100)]
    );
    let many: Vec<Request> = (0..50).map(|i| Request::new(i, 0, 10)).collect();
    assert_eq!(plan_requests(&many).len(), 40);
}

#[test]
fn id_is_prefix_and_alphanumerics() {
    let id = id_from_draws(&[0, 9, 10, 35, 36, 61, 62, 71, 72, 97, 98, 123]);
    assert_eq!(&id.0, b"-dj0001-09azAZ09azAZ");
    let random = generate_id();
    assert_eq!(&random.0[0..8], b"-dj0001-");
    assert!(random.0[8..].iter().all(|b| b.is_ascii_alphanumeric()));
}

#[test]
fn sessions_open_answer_and_store() {
    let content: Vec<u8> = (0..30u8).collect();
    let mut d: Downloader<Store> = Downloader::new([5; 20], info_for(&content, 10), 0);
    let known = vec![PeerAddress::new(1, 1), PeerAddress::new(2, 2)];
    let opened = d.open_new_connections(&known);
    assert_eq!(opened.len(), 2);
    assert_eq!(d.peer_count(), 2);
    assert_eq!(
        d.take_outgoing(0),
        vec![protocol::Message::Unchoke, protocol::Message::Interested]
    );
    assert!(d.open_new_connections(&known).is_empty());

    // a block arrives and completes piece 0
    d.handle_event(0, InMessage::Normal(protocol::Message::Piece(0, 0, content[0..10].to_vec())));
    assert_eq!(d.progress().0, 10);
    assert!(d.storage().has_piece(0));

    // a request for held bytes is answered
    d.handle_event(1, InMessage::Normal(protocol::Message::Request(0, 2, 3)));
    assert_eq!(d.take_outgoing(1).last(), Some(&protocol::Message::Piece(0, 2, vec![2, 3, 4])));
    assert_eq!(d.progress().1, 3);

    // a request past the piece end ends the session
    d.handle_event(1, InMessage::Normal(protocol::Message::Request(0, 8, 3)));
    assert!(!d.peer_alive(1));
    // an oversized request too
    d.handle_event(0, InMessage::Normal(protocol::Message::Request(1, 0, 16385)));
    assert!(!d.peer_alive(0));
    d.remove_dead_connections();
    assert_eq!(d.peer_count(), 0);
}

#[test]
fn requests_for_pieces_not_held() {
    let content: Vec<u8> = (0..30u8).collect();
    let mut d: Downloader<Store> = Downloader::new([5; 20], info_for(&content, 10), 0);
    d.open_new_connections(&vec![PeerAddress::new(1, 1)]);
    d.take_outgoing(0);
    // within the piece: ignored
    d.handle_event(0, InMessage::Normal(protocol::Message::Request(2, 5, 5)));
    assert!(d.peer_alive(0));
    assert!(d.take_outgoing(0).is_empty());
    // past the end of the piece: the session ends
    d.handle_event(0, InMessage::Normal(protocol::Message::Request(2, 5, 6)));
    assert!(!d.peer_alive(0));
}

#[test]
fn requests_go_only_to_holders() {
    let content: Vec<u8> = (0..30u8).collect();
    let mut d: Downloader<Store> = Downloader::new([5; 20], info_for(&content, 10), 0);
    d.open_new_connections(&vec![PeerAddress::new(1, 1), PeerAddress::new(2, 2)]);
    d.take_outgoing(0);
    d.take_outgoing(1);
    // peer 0 has piece 1 only; peer 1 has nothing
    d.handle_event(0, InMessage::Normal(protocol::Message::Have(1)));
    assert_eq!(d.pick_peer_for_request(1, 7), Some(0));
    assert_eq!(d.pick_peer_for_request(2, 7), None);
    d.request_pieces(1000);
    assert!(d.take_outgoing(0).is_empty());
    d.request_pieces(5000);
    assert_eq!(d.take_outgoing(0), vec![protocol::Message::Request(1, 0, 10)]);
    assert!(d.take_outgoing(1).is_empty());
}

fn bstr(s: &[u8]) -> BValue {
    BValue::Str(s.to_vec())
}

#[test]
fn metadata_parses() {
    let hashes: Vec<u8> = (0..40u8).collect();
    let info = BValue::Dict(vec![
        (b"length".to_vec(), BValue::Int(25)),
        (b"name".to_vec(), bstr(b"file.bin")),
        (b"piece length".to_vec(), BValue::Int(16)),
        (b"pieces".to_vec(), bstr(&hashes)),
    ]);
    let encoded_info = btclient::bencode::encode(&info);
    let top = BValue::Dict(vec![
        (b"announce".to_vec(), bstr(b"http://tracker/announce")),
        (b"info".to_vec(), info),
    ]);
    let (torrent, hash) = from_bvalue(top).ok().unwrap();
    assert_eq!(torrent.tracker_url, "http://tracker/announce");
    assert_eq!(torrent.info.root, "file.bin");
    assert_eq!(torrent.info.piece_length, 16);
    assert_eq!(torrent.info.pieces.len(), 2);
    assert_eq!(torrent.info.pieces[1][0], 20);
    assert_eq!(torrent.info.files.len(), 1);
    assert_eq!(torrent.info.files[0].length, 25);
    assert_eq!(hash, digest(&encoded_info));
}

#[test]
fn metadata_errors() {
    assert_eq!(from_bvalue(BValue::Int(1)).err(), Some(DecodeError::MissingTracker));
    let no_info = BValue::Dict(vec![(b"announce".to_vec(), bstr(b"x"))]);
    assert_eq!(from_bvalue(no_info).err(), Some(DecodeError::MissingInfo));
    assert_eq!(split_piece_hashes(vec![0; 21]).err(), Some(DecodeError::BadPieces));
    let bad_len = BValue::Dict(vec![
        (b"announce".to_vec(), bstr(b"x")),
        (
            b"info".to_vec(),
            BValue::Dict(vec![
                (b"name".to_vec(), bstr(b"n")),
                (b"piece length".to_vec(), BValue::Int(-1)),
            ]),
        ),
    ]);
    assert_eq!(from_bvalue(bad_len).err(), Some(DecodeError::BadPieceLength));
    let bad_name = BValue::Dict(vec![
        (b"announce".to_vec(), bstr(b"x")),
        (b"info".to_vec(), BValue::Dict(vec![(b"name".to_vec(), bstr(&[0xFF]))])),
    ]);
    assert_eq!(from_bvalue(bad_name).err(), Some(DecodeError::UTF8Error));
}
