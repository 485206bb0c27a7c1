use std::collections::HashMap;

use rustorrent::blocks::{
    command_download_block, command_download_next_block, command_piece_downloaded, key_of, message_piece, BlockPeer,
    PieceAssembly, PieceCheck,
};
use rustorrent::message::Message;
use rustorrent::pieces::Block;
use rustorrent::registry::TorrentProcessStats;
use rustorrent::storage::TorrentProcessState;

const ABC_SHA1: [u8; 20] = [
    0xa9, 0x99, 0x3e, 0x36, 0x47, 0x06, 0x81, 0x6a, 0xba, 0x3e, 0x25, 0x71, 0x78, 0x50, 0xc2, 0x6c, 0x9c,
    0xd0, 0xd8, 0x9d,
];

fn peer(id: u128, connected: bool, chocked: bool, pieces: Vec<u8>, downloading: bool) -> BlockPeer {
    BlockPeer { id, connected, chocked, pieces, downloading }
}

fn piece(len: usize, blocks: usize) -> PieceAssembly {
    PieceAssembly {
        data: vec![0; len],
        blocks: vec![0; (blocks + 7) / 8],
        blocks_to_download: blocks,
        downloaded: false,
    }
}

#[test]
fn blocks_fill_the_piece_until_it_is_whole() {
    let mut pieces = vec![piece(4, 1), piece(2 * 16384, 2)];
    let mut awaited: HashMap<u128, u128> = HashMap::new();
    let second = Block { piece: 1, begin: 16384, length: 3 };
    awaited.insert(key_of(second), 7);
    let mut busy = true;

    let r = message_piece(&mut pieces, &mut awaited, &mut busy, 1, 16384, vec![1, 2, 3]);
    assert_eq!(r, (Some(7), None));
    assert!(!busy);
    assert!(awaited.is_empty());
    assert_eq!(&pieces[1].data[16384..16387], &[1, 2, 3]);
    assert_eq!(pieces[1].blocks, vec![0b0100_0000]);
    assert_eq!(pieces[1].blocks_to_download, 1);
    assert!(!pieces[1].downloaded);

    let r = message_piece(&mut pieces, &mut awaited, &mut busy, 1, 0, vec![9]);
    assert_eq!(r, (None, Some(1)));
    assert_eq!(pieces[1].data[0], 9);
    assert_eq!(pieces[1].blocks, vec![0b1100_0000]);
    assert!(pieces[1].downloaded);
    assert_eq!(pieces[0].blocks_to_download, 1);
    assert_eq!(pieces[0].data, vec![0; 4]);
}

#[test]
fn block_keys_keep_blocks_apart() {
    let a = key_of(Block { piece: 1, begin: 0, length: 2 });
    let b = key_of(Block { piece: 0, begin: 1, length: 2 });
    let c = key_of(Block { piece: 0, begin: 0, length: (1u64 << 32) as u32 });
    assert_ne!(a, b);
    assert_ne!(b, c);
    assert_eq!(key_of(Block { piece: 2, begin: 3, length: 4 }), (2u128 << 64) | (3u128 << 32) | 4);
}

#[test]
fn a_block_is_asked_once_from_an_idle_peer() {
    let mut peers = vec![peer(10, true, false, vec![], false), peer(11, true, false, vec![], true)];
    let mut awaited: HashMap<u128, u128> = HashMap::new();
    let taken = Block { piece: 0, begin: 0, length: 16384 };
    awaited.insert(key_of(taken), 11);
    let r = command_download_block(TorrentProcessState::Init, &mut awaited, &mut peers, 0, taken);
    assert_eq!(r.0, TorrentProcessState::Download);
    assert!(r.1.is_none());
    assert!(!peers[0].downloading);

    let free = Block { piece: 0, begin: 16384, length: 100 };
    let r = command_download_block(TorrentProcessState::Upload, &mut awaited, &mut peers, 0, free);
    assert_eq!(r.0, TorrentProcessState::DownloadUpload);
    assert_eq!(r.1, Some(Message::Request { index: 0, begin: 16384, length: 100 }));
    assert!(peers[0].downloading);
    assert_eq!(awaited.get(&key_of(free)), Some(&10));

    let other = Block { piece: 1, begin: 0, length: 100 };
    let r = command_download_block(TorrentProcessState::Download, &mut awaited, &mut peers, 0, other);
    assert!(r.1.is_none());
    assert_eq!(awaited.len(), 2);
}

#[test]
fn next_block_is_the_first_missing_one_of_the_first_piece_a_peer_has() {
    let whole = PieceAssembly { data: vec![1], blocks: vec![0b1000_0000], blocks_to_download: 0, downloaded: true };
    let fresh = PieceAssembly { data: vec![], blocks: vec![], blocks_to_download: 0, downloaded: false };
    let mut pieces = vec![whole, fresh];
    let lengths = [20000, 20000];
    let peers = vec![peer(1, true, true, vec![0b0100_0000], false), peer(2, true, false, vec![0b1100_0000], false)];
    let r = command_download_next_block(&mut pieces, &lengths, &peers);
    assert_eq!(r, Some((1, 1, Block { piece: 1, begin: 0, length: 16384 })));
    assert_eq!(pieces[1].data.len(), 20000);
    assert_eq!(pieces[1].blocks, vec![0]);
    assert_eq!(pieces[1].blocks_to_download, 2);
    pieces[1].blocks[0] = 0b1000_0000;
    let r = command_download_next_block(&mut pieces, &lengths, &peers);
    assert_eq!(r, Some((1, 1, Block { piece: 1, begin: 16384, length: 3616 })));
    pieces[1].blocks[0] = 0b1100_0000;
    assert_eq!(command_download_next_block(&mut pieces, &lengths, &peers), None);
}

#[test]
fn a_whole_piece_is_checked_against_its_digest() {
    let abc = || PieceAssembly { data: b"abc".to_vec(), blocks: vec![0b1000_0000], blocks_to_download: 0, downloaded: true };
    let peers = vec![peer(5, true, false, vec![], false), peer(6, false, false, vec![], false)];
    let mut stats = TorrentProcessStats { downloaded: 0, uploaded: 0, left: 3 };
    let mut state = TorrentProcessState::Download;
    let mut pieces = vec![abc()];
    let r = command_piece_downloaded(&mut pieces, &[ABC_SHA1], &[3], &mut stats, &mut state, &peers, 0);
    assert!(matches!(r, Some(PieceCheck::Accepted { ref have, finished: true }) if have == &vec![5]));
    assert_eq!(stats, TorrentProcessStats { downloaded: 3, uploaded: 0, left: 0 });
    assert_eq!(state, TorrentProcessState::Upload);

    let mut stats = TorrentProcessStats { downloaded: 0, uploaded: 0, left: 3 };
    let mut state = TorrentProcessState::Download;
    let r = command_piece_downloaded(&mut pieces, &[[0; 20]], &[3], &mut stats, &mut state, &peers, 0);
    assert!(matches!(r, Some(PieceCheck::Redownload)));
    assert_eq!(pieces[0].data, vec![0, 0, 0]);
    assert_eq!(pieces[0].blocks, vec![0]);
    assert_eq!(pieces[0].blocks_to_download, 1);
    assert!(!pieces[0].downloaded);
    assert_eq!(state, TorrentProcessState::Download);

    let r = command_piece_downloaded(&mut pieces, &[[0; 20]], &[3], &mut stats, &mut state, &peers, 4);
    assert!(matches!(r, Some(PieceCheck::WrongIndex)));

    let mut pieces = vec![abc()];
    let mut stats = TorrentProcessStats { downloaded: 0, uploaded: 0, left: 1 };
    let r = command_piece_downloaded(&mut pieces, &[ABC_SHA1], &[3], &mut stats, &mut state, &peers, 0);
    assert!(r.is_none());
    assert_eq!(stats.left, 1);
}
