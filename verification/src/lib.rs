//! A BitTorrent client library: piece bitfields, the flat file storage that
//! maps pieces onto files, the bencode and peer wire protocol parsers, the
//! bookkeeping that decides which piece to download from which peer, the
//! conversation with one peer, and the small parsers of the web backend.

pub mod bitarray;
pub mod flat_storage;
pub mod mapping;
pub mod mmap_storage;
pub mod storage;
pub mod blocks;
pub mod bencode;
pub mod torrent;
pub mod message;
pub mod pieces;
pub mod swarm;
pub mod download;
pub mod peer_loop;
pub mod registry;
pub mod announce;
pub mod client;
pub mod static_files;
pub mod backend;
