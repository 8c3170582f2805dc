use btclient::request::Request;
use btclient::storage::memory::MemoryStorage;
use btclient::storage::partial::{PartialPiece, PartialStorage, Segment};
use btclient::storage::dummy::DummyStorage;
use btclient::storage::{check_fits, check_layout, piece_sizes, BadBlock, Block, Storage};
use btclient::torrent::{File, TorrentInfo};

fn digest(data: &[u8]) -> [u8; 20] {
    sha1::Sha1::from(data).digest().bytes()
}

fn info_for(content: &[u8], piece_length: u64) -> TorrentInfo {
    let pieces = content
        .chunks(piece_length as usize)
        .map(digest)
        .collect::<Vec<_>>();
    TorrentInfo {
        root: "out".to_string(),
        piece_length,
        pieces,
        files: vec![File { path: "out".to_string(), length: content.len() as u64 }],
    }
}

#[test]
fn partial_merge() {
    let mut piece = PartialPiece::new(0, 100);
    let mut added = 0;
    added += piece.add_segment(Segment::new(0, b"abcde".to_vec())).ok().unwrap();
    added += piece.add_segment(Segment::new(10, b"xyz".to_vec())).ok().unwrap();
    added += piece.add_segment(Segment::new(5, b"fghij".to_vec())).ok().unwrap();
    let segments = piece.segments();
    assert_eq!(segments.len(), 1);
    assert_eq!(segments[0].start, 0);
    assert_eq!(segments[0].end, 13);
    assert_eq!(segments[0].data, b"abcdefghijxyz".to_vec());
    assert_eq!(added, 13);
    assert_eq!(piece.bytes_stored(), 13);
    assert_eq!(piece.bytes_missing(), 87);
    assert!(!piece.is_complete());
}

#[test]
fn overlapping_block_is_noop() {
    let mut piece = PartialPiece::new(0, 20);
    piece.add_segment(Segment::new(2, b"abcdef".to_vec())).ok().unwrap();
    assert_eq!(piece.add_segment(Segment::new(3, b"bcd".to_vec())).ok(), Some(0));
    assert_eq!(piece.segments().len(), 1);
    assert_eq!(piece.segments()[0].data, b"abcdef".to_vec());
}

#[test]
fn existing_bytes_win_on_overlap() {
    let mut piece = PartialPiece::new(0, 20);
    piece.add_segment(Segment::new(5, b"AAAAA".to_vec())).ok().unwrap();
    assert_eq!(piece.add_segment(Segment::new(3, b"bbbbbbbbbb".to_vec())).ok(), Some(5));
    assert_eq!(piece.segments()[0].start, 3);
    assert_eq!(piece.segments()[0].data, b"bbAAAAAbbb".to_vec());
}

#[test]
fn merge_order_does_not_matter() {
    let blocks: Vec<(usize, &[u8])> = vec![(0, b"0123"), (3, b"3456"), (8, b"89"), (6, b"67")];
    let mut forward = PartialPiece::new(1, 10);
    for (o, d) in blocks.iter() {
        forward.add_segment(Segment::new(*o, d.to_vec())).ok().unwrap();
    }
    let mut backward = PartialPiece::new(1, 10);
    for (o, d) in blocks.iter().rev() {
        backward.add_segment(Segment::new(*o, d.to_vec())).ok().unwrap();
    }
    assert!(forward.is_complete());
    assert!(backward.is_complete());
    assert_eq!(forward.segments()[0].data, b"0123456789".to_vec());
    assert_eq!(backward.segments()[0].data, b"0123456789".to_vec());
}

#[test]
fn block_past_piece_end_is_refused() {
    let mut piece = PartialPiece::new(0, 10);
    assert_eq!(piece.add_segment(Segment::new(8, b"abc".to_vec())).err(), Some(BadBlock));
    assert_eq!(piece.segments().len(), 0);
}

#[test]
fn gap_requests() {
    let mut piece = PartialPiece::new(4, 20);
    piece.add_segment(Segment::new(3, b"abc".to_vec())).ok().unwrap();
    piece.add_segment(Segment::new(10, b"xy".to_vec())).ok().unwrap();
    assert_eq!(
        piece.requests(),
        vec![Request::new(4, 0, 3), Request::new(4, 6, 4), Request::new(4, 12, 8)]
    );
}

#[test]
fn piece_sizes_cut_last_piece_short() {
    let info = info_for(&[0u8; 25], 10);
    assert_eq!(piece_sizes(&info), vec![10, 10, 5]);
}

#[test]
fn memory_storage_hash_discipline() {
    let content: Vec<u8> = (0..25u8).collect();
    let mut store = MemoryStorage::new(info_for(&content, 10));
    assert_eq!(store.bytes_missing(), 25);
    assert!(store.get_piece(0).is_none());
    assert_eq!(store.store_block(Block::new(0, 0, content[0..4].to_vec())).ok(), Some(4));
    assert!(store.get_piece(0).is_none());
    assert_eq!(store.requests()[0], Request::new(0, 4, 6));
    assert_eq!(store.store_block(Block::new(0, 2, content[2..10].to_vec())).ok(), Some(6));
    assert_eq!(store.get_piece(0), Some(&content[0..10]));
    // a wrong piece is emptied again
    assert_eq!(store.store_block(Block::new(1, 0, vec![0; 10])).ok(), Some(10));
    assert!(store.get_piece(1).is_none());
    assert_eq!(store.bytes_missing(), 15);
    assert!(store.store_block(Block::new(3, 0, vec![1])).is_err());
    assert!(store.store_block(Block::new(2, 3, vec![0; 3])).is_err());
    assert!(!store.is_complete());
}

#[test]
fn partial_storage_assembles_out_of_order() {
    let content: Vec<u8> = (0..25u8).map(|x| x * 3).collect();
    let mut store: PartialStorage<MemoryStorage> = PartialStorage::new(info_for(&content, 10));
    assert_eq!(store.store_block(Block::new(1, 5, content[15..20].to_vec())).ok(), Some(5));
    assert!(!store.has_piece(1));
    assert_eq!(store.store_block(Block::new(1, 0, content[10..17].to_vec())).ok(), Some(5));
    assert_eq!(store.get_piece(1), Some(&content[10..20]));
    assert_eq!(store.store_block(Block::new(1, 0, content[10..12].to_vec())).ok(), Some(0));
    assert!(store.store_block(Block::new(3, 0, vec![1])).is_err());
    assert!(store.store_block(Block::new(2, 3, vec![0; 3])).is_err());
    assert_eq!(store.store_block(Block::new(2, 0, content[20..25].to_vec())).ok(), Some(5));
    assert_eq!(store.store_block(Block::new(0, 0, content[0..10].to_vec())).ok(), Some(10));
    assert!(store.is_complete());
    assert_eq!(store.bytes_missing(), 0);
}

#[test]
fn partial_storage_refuses_wrong_digest() {
    let content: Vec<u8> = (0..10u8).collect();
    let mut store: PartialStorage<MemoryStorage> = PartialStorage::new(info_for(&content, 10));
    assert_eq!(store.store_block(Block::new(0, 0, vec![9; 10])).err(), Some(BadBlock));
    assert!(store.get_piece(0).is_none());
    assert_eq!(store.store_block(Block::new(0, 0, content.clone())).ok(), Some(10));
    assert_eq!(store.get_piece(0), Some(&content[..]));
}

#[test]
fn partial_storage_requests_gaps_first() {
    let content: Vec<u8> = (0..20u8).collect();
    let mut store: PartialStorage<MemoryStorage> = PartialStorage::new(info_for(&content, 10));
    store.store_block(Block::new(1, 2, content[12..14].to_vec())).ok().unwrap();
    let requests = store.requests();
    assert_eq!(requests[0], Request::new(1, 0, 2));
    assert_eq!(requests[1], Request::new(1, 4, 6));
    assert_eq!(requests[2], Request::new(0, 0, 10));
    assert_eq!(requests[3], Request::new(1, 0, 10));
}

#[test]
fn dummy_storage_keeps_nothing() {
    let content = vec![0u8; 12];
    let mut store = DummyStorage::new(info_for(&content, 10));
    assert_eq!(store.bytes_missing(), 12);
    assert_eq!(store.store_block(Block::new(0, 0, vec![1])).ok(), Some(0));
    assert!(store.get_piece(0).is_none());
    assert!(!store.is_complete());
}

#[test]
fn partial_storage_merge_totals() {
    let content: Vec<u8> = b"abcdefghijxyz".iter().cloned().chain(std::iter::repeat(0u8).take(87)).collect();
    let mut store: PartialStorage<MemoryStorage> = PartialStorage::new(info_for(&content, 100));
    assert_eq!(store.store_block(Block::new(0, 0, b"abcde".to_vec())).ok(), Some(5));
    assert_eq!(store.store_block(Block::new(0, 10, b"xyz".to_vec())).ok(), Some(3));
    assert_eq!(store.store_block(Block::new(0, 5, b"fghij".to_vec())).ok(), Some(5));
    assert!(store.get_piece(0).is_none());
}

#[test]
fn block_for_held_piece_adds_nothing() {
    let content: Vec<u8> = (0..10u8).collect();
    let mut store: PartialStorage<MemoryStorage> = PartialStorage::new(info_for(&content, 10));
    assert_eq!(store.store_block(Block::new(0, 0, content.clone())).ok(), Some(10));
    assert_eq!(store.store_block(Block::new(0, 3, content[3..5].to_vec())).ok(), Some(0));
    assert_eq!(store.get_piece(0), Some(&content[..]));
}

#[test]
fn layout_checks() {
    let good = info_for(&[0u8; 25], 10);
    assert!(check_fits(&good) && check_layout(&good));
    let mut short = info_for(&[0u8; 25], 10);
    short.pieces.push([0; 20]);
    assert!(!check_layout(&short));
    let mut long = info_for(&[0u8; 25], 10);
    long.pieces.pop();
    assert!(!check_layout(&long));
}

#[test]
fn empty_block_changes_nothing() {
    let mut piece = PartialPiece::new(0, 20);
    piece.add_segment(Segment::new(2, b"ab".to_vec())).ok().unwrap();
    assert_eq!(piece.add_segment(Segment::new(10, vec![])).ok(), Some(0));
    assert_eq!(piece.segments().len(), 1);
    assert_eq!(
        piece.requests(),
        vec![Request::new(0, 0, 2), Request::new(0, 4, 16)]
    );
}
