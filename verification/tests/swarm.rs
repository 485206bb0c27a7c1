use std::collections::HashMap;

use rustorrent::swarm::{
    determine_download_mode, piece_downloaded_begin, piece_downloaded_finish, process_peer_announced,
    process_peer_connected, process_peer_disconnect, process_peer_forwarded, process_peer_interested,
    process_peer_piece, process_peer_piece_canceled, process_peer_pieces, process_peer_unchoke,
    select_new_peer, ConnectedPeer, Peer, PeerAction, PeerState, PeerStates, TorrentDownloadMode,
    TorrentPeerState,
};

fn addr(n: u16) -> Peer {
    Peer { ip: 0x7f00_0001, port: n }
}

fn connected(pieces: Vec<u8>, downloading: Option<usize>) -> PeerState {
    PeerState {
        peer: addr(1),
        state: TorrentPeerState::Connected(ConnectedPeer {
            chocked: true,
            interested: false,
            downloading_piece: downloading,
            downloading_since: downloading.map(|_| 1),
            downloaded: 0,
            uploaded: 0,
            pieces,
        }),
        announce_count: 0,
    }
}

fn downloading_of(states: &PeerStates, id: u128) -> Option<usize> {
    match &states[&id].state {
        TorrentPeerState::Connected(c) => c.downloading_piece,
        _ => panic!("peer not connected"),
    }
}

#[test]
fn select_skips_pieces_in_progress() {
    let mut states: PeerStates = HashMap::new();
    states.insert(1, connected(vec![], None));
    states.insert(2, connected(vec![], Some(4)));
    let actions = select_new_peer(&[4, 5, 6], &mut states, TorrentDownloadMode::Normal, 1, 77);
    assert_eq!(actions.len(), 1);
    assert!(matches!(actions[0], PeerAction::Download { peer_id: 1, piece: 5 }));
    assert_eq!(downloading_of(&states, 1), Some(5));
    match &states[&1].state {
        TorrentPeerState::Connected(c) => assert_eq!(c.downloading_since, Some(77)),
        _ => panic!(),
    }
}

#[test]
fn select_in_final_mode_takes_first_piece() {
    let mut states: PeerStates = HashMap::new();
    states.insert(1, connected(vec![], None));
    states.insert(2, connected(vec![], Some(4)));
    let actions = select_new_peer(&[4, 5], &mut states, TorrentDownloadMode::Final, 1, 0);
    assert!(matches!(actions[0], PeerAction::Download { peer_id: 1, piece: 4 }));
}

#[test]
fn select_leaves_busy_peer_alone() {
    let mut states: PeerStates = HashMap::new();
    states.insert(1, connected(vec![], Some(9)));
    let actions = select_new_peer(&[1, 2], &mut states, TorrentDownloadMode::Final, 1, 0);
    assert!(actions.is_empty());
    assert_eq!(downloading_of(&states, 1), Some(9));
}

#[test]
fn mode_turns_final_near_the_end() {
    let mut states: PeerStates = HashMap::new();
    states.insert(1, connected(vec![], None));
    states.insert(2, connected(vec![], None));
    states.insert(3, PeerState { peer: addr(3), state: TorrentPeerState::Idle, announce_count: 0 });
    assert_eq!(determine_download_mode(&states, 1), TorrentDownloadMode::Final);
    assert_eq!(determine_download_mode(&states, 2), TorrentDownloadMode::Normal);
}

#[test]
fn bitfield_merges_and_selects() {
    let mut states: PeerStates = HashMap::new();
    states.insert(1, connected(vec![0b0000_0001], None));
    let actions =
        process_peer_pieces(&mut states, TorrentDownloadMode::Normal, 1, &[0b1100_0000, 0b1000_0000], &[0b1000_0000], 5);
    assert!(matches!(actions[0], PeerAction::Download { peer_id: 1, piece: 1 }));
    match &states[&1].state {
        TorrentPeerState::Connected(c) => assert_eq!(c.pieces, vec![0b1100_0001, 0b1000_0000]),
        _ => panic!(),
    }
}

#[test]
fn have_selects_missing_piece_only() {
    let mut states: PeerStates = HashMap::new();
    states.insert(1, connected(vec![], None));
    let actions = process_peer_piece(&mut states, TorrentDownloadMode::Normal, 1, 0, &[0b1000_0000], 0);
    assert!(actions.is_empty());
    let actions = process_peer_piece(&mut states, TorrentDownloadMode::Normal, 1, 10, &[0b1000_0000], 0);
    assert!(matches!(actions[0], PeerAction::Download { peer_id: 1, piece: 10 }));
    let actions = process_peer_piece(&mut states, TorrentDownloadMode::Normal, 7, 3, &[], 0);
    assert!(actions.is_empty());
}

#[test]
fn canceled_piece_frees_the_peer() {
    let mut states: PeerStates = HashMap::new();
    states.insert(1, connected(vec![0b0110_0000], Some(1)));
    let actions = process_peer_piece_canceled(&mut states, TorrentDownloadMode::Normal, 1, &[0b0100_0000], 0);
    assert!(matches!(actions[0], PeerAction::Download { peer_id: 1, piece: 2 }));
}

#[test]
fn downloaded_piece_is_announced_to_others() {
    let mut states: PeerStates = HashMap::new();
    states.insert(1, connected(vec![0b1100_0000], Some(0)));
    states.insert(2, connected(vec![0b0000_0000], Some(0)));
    states.insert(3, connected(vec![0b1000_0000], None));
    assert_eq!(piece_downloaded_begin(&mut states, 1), Some(0));
    assert_eq!(downloading_of(&states, 1), None);
    let actions = piece_downloaded_finish(&mut states, TorrentDownloadMode::Normal, 1, 0, &[0b1000_0000], 3);
    assert_eq!(actions.len(), 3);
    assert!(matches!(actions[0], PeerAction::Have { peer_id: 2, piece: 0 }));
    assert!(matches!(actions[1], PeerAction::Cancel { peer_id: 2 }));
    assert!(matches!(actions[2], PeerAction::Download { peer_id: 1, piece: 1 }));
}

#[test]
fn piece_downloaded_needs_a_started_download() {
    let mut states: PeerStates = HashMap::new();
    states.insert(1, connected(vec![], None));
    assert_eq!(piece_downloaded_begin(&mut states, 1), None);
    assert_eq!(piece_downloaded_begin(&mut states, 2), None);
}

#[test]
fn flags_follow_messages() {
    let mut states: PeerStates = HashMap::new();
    states.insert(1, connected(vec![], None));
    process_peer_unchoke(&mut states, 1);
    process_peer_interested(&mut states, 1);
    match &states[&1].state {
        TorrentPeerState::Connected(c) => {
            assert!(!c.chocked);
            assert!(c.interested);
        }
        _ => panic!(),
    }
}

#[test]
fn announced_peers_are_connected_once() {
    let mut states: PeerStates = HashMap::new();
    let action = process_peer_announced(&mut states, addr(9), 100);
    assert!(matches!(action, Some(PeerAction::Connect { peer_id: 100, .. })));
    assert!(matches!(states[&100].state, TorrentPeerState::Connecting));
    let action = process_peer_announced(&mut states, addr(9), 101);
    assert!(action.is_none());
    assert_eq!(states.len(), 1);
    states.insert(5, PeerState { peer: addr(5), state: TorrentPeerState::Idle, announce_count: 0 });
    let action = process_peer_announced(&mut states, addr(5), 102);
    assert!(matches!(action, Some(PeerAction::Connect { peer_id: 5, .. })));
    assert!(process_peer_connected(&mut states, 5));
    let action = process_peer_announced(&mut states, addr(5), 103);
    assert!(action.is_none());
    assert_eq!(states[&5].announce_count, 1);
    assert!(!process_peer_connected(&mut states, 42));
}

#[test]
fn forwarded_peer_gets_bitfield() {
    let mut states: PeerStates = HashMap::new();
    let actions = process_peer_forwarded(&mut states, 8, addr(8), &[0b1000_0000]);
    assert!(matches!(&actions[0], PeerAction::Bitfield { peer_id: 8, pieces } if pieces == &vec![0b1000_0000]));
    let actions = process_peer_forwarded(&mut states, 9, addr(9), &[]);
    assert!(actions.is_empty());
    assert_eq!(states.len(), 2);
    process_peer_disconnect(&mut states, 8);
    assert_eq!(states.len(), 1);
    assert!(states.get(&8).is_none());
}

#[test]
fn normal_mode_never_doubles_a_download() {
    let mut states: PeerStates = HashMap::new();
    states.insert(1, connected(vec![], None));
    states.insert(2, connected(vec![], None));
    select_new_peer(&[3], &mut states, TorrentDownloadMode::Normal, 1, 0);
    let actions = select_new_peer(&[3], &mut states, TorrentDownloadMode::Normal, 2, 0);
    assert!(actions.is_empty());
    assert_eq!(downloading_of(&states, 1), Some(3));
    assert_eq!(downloading_of(&states, 2), None);
}
