//! A store that keeps nothing: every byte stays missing.

use crate::request::Request;
use crate::storage::{files_length, info_fits, total_length, BadBlock, Block, Storage};
use crate::torrent::TorrentInfo;
use vstd::prelude::*;

verus! {

#[derive(Clone, Copy)]
pub struct DummyStorage(pub usize);

impl Storage for DummyStorage {
    open spec fn wf(&self) -> bool {
        true
    }

    open spec fn holds(&self, index: int) -> bool {
        false
    }

    open spec fn piece_bytes(&self, index: int) -> Seq<u8> {
        Seq::empty()
    }

    open spec fn digest_of(&self, index: int) -> Seq<u8> {
        Seq::empty()
    }

    open spec fn missing(&self) -> nat {
        self.0 as nat
    }

    open spec fn accepts_whole(&self, index: int) -> bool {
        false
    }

    open spec fn store_outcome(&self, block: Block, after: Self, r: Result<usize, BadBlock>) -> bool {
        after == *self && r == Ok::<usize, BadBlock>(0)
    }

    open spec fn fill_plan(&self) -> Seq<Request> {
        Seq::empty()
    }

    open spec fn piece_size_of(&self, index: int) -> Option<nat> {
        None
    }

    fn piece_size(&self, _index: usize) -> (r: Option<usize>) {
        None
    }

    fn new(info: TorrentInfo) -> (r: Self) {
        DummyStorage(files_length(&info.files))
    }

    fn get_piece(&self, _index: usize) -> (r: Option<&[u8]>) {
        None
    }

    fn store_block(&mut self, _block: Block) -> (r: Result<usize, BadBlock>) {
        Ok(0)
    }

    fn bytes_missing(&self) -> (r: usize) {
        self.0
    }

    fn requests(&self) -> (r: Vec<Request>) {
        Vec::new()
    }
}

} // verus!
