//! A peer-to-peer download client: the wire codec, the per-peer session
//! bookkeeping, the partial-piece store and the scheduling decisions of the
//! swarm orchestrator, each with its contract.

pub mod bencode;
pub mod digest;
pub mod downloader;
pub mod engine;
pub mod peer;
pub mod protocol;
pub mod request;
pub mod storage;
pub mod text;
pub mod torrent;
pub mod tracker;
pub mod wire;
