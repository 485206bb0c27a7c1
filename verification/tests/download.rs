use rustorrent::download::{DownloadEvent, DownloadStep, TorrentDownload};
use rustorrent::swarm::{Peer, PeerAction, TorrentDownloadMode, TorrentPeerState};

fn peer(port: u16) -> Peer {
    Peer { ip: 1, port }
}

#[test]
fn announced_peer_gets_fresh_id_and_connect() {
    let mut d = TorrentDownload::new();
    let step = d.handle(DownloadEvent::PeerAnnounced(peer(1)), &[], 10, 0);
    match step {
        DownloadStep::Act(actions) => {
            assert!(matches!(actions[0], PeerAction::Connect { peer_id: 0, .. }))
        }
        other => panic!("unexpected {:?}", other),
    }
    assert_eq!(d.next_id, 1);
    let step = d.handle(DownloadEvent::PeerConnected(0), &[], 10, 0);
    assert!(matches!(step, DownloadStep::Converse(0, ref a) if a.is_empty()));
    let step = d.handle(DownloadEvent::PeerConnected(5), &[], 10, 0);
    assert!(matches!(step, DownloadStep::Act(ref a) if a.is_empty()));
}

#[test]
fn forwarded_peer_downloads_and_saves() {
    let mut d = TorrentDownload::new();
    let step = d.handle(DownloadEvent::PeerForwarded(peer(2)), &[0b1000_0000], 2, 0);
    match step {
        DownloadStep::Converse(0, actions) => {
            assert!(matches!(&actions[0], PeerAction::Bitfield { peer_id: 0, .. }))
        }
        other => panic!("unexpected {:?}", other),
    }
    let step = d.handle(DownloadEvent::PeerPieces(0, vec![0b1100_0000]), &[0b1000_0000], 1, 7);
    assert!(matches!(step, DownloadStep::Act(ref a) if matches!(a[0], PeerAction::Download { peer_id: 0, piece: 1 })));
    let step = d.handle(DownloadEvent::PeerPieceDownloaded(0, vec![1, 2, 3]), &[0b1000_0000], 1, 8);
    match step {
        DownloadStep::Save { peer_id: 0, index: 1, data } => assert_eq!(data, vec![1, 2, 3]),
        other => panic!("unexpected {:?}", other),
    }
    let actions = d.piece_saved(0, 1, true, &[0b1100_0000], 0, 9);
    assert!(actions.is_empty());
    assert_eq!(d.mode, TorrentDownloadMode::Final);
    let step = d.handle(DownloadEvent::PeerPieceRequest { peer_id: 0, index: 1, begin: 0, length: 2 }, &[], 0, 9);
    assert!(matches!(step, DownloadStep::Serve { peer_id: 0, index: 1, begin: 0, length: 2 }));
    let step = d.handle(DownloadEvent::PeerDisconnect(0), &[], 0, 9);
    assert!(matches!(step, DownloadStep::Act(ref a) if a.is_empty()));
    assert!(d.peers.is_empty());
    let step = d.handle(DownloadEvent::PeerPieceRequest { peer_id: 0, index: 1, begin: 0, length: 2 }, &[], 0, 9);
    assert!(matches!(step, DownloadStep::Act(ref a) if a.is_empty()));
}

#[test]
fn undelivered_piece_only_updates_mode() {
    let mut d = TorrentDownload::new();
    d.handle(DownloadEvent::PeerForwarded(peer(3)), &[], 0, 0);
    let step = d.handle(DownloadEvent::PeerPieceDownloaded(0, vec![]), &[], 5, 0);
    assert!(matches!(step, DownloadStep::Act(ref a) if a.is_empty()));
    assert_eq!(d.mode, TorrentDownloadMode::Normal);
    d.handle(DownloadEvent::PeerPieceDownloaded(0, vec![]), &[], 0, 0);
    assert_eq!(d.mode, TorrentDownloadMode::Final);
    d.handle(DownloadEvent::PeerUnchoke(0), &[], 0, 0);
    d.handle(DownloadEvent::PeerInterested(0), &[], 0, 0);
    match &d.peers[&0].state {
        TorrentPeerState::Connected(c) => assert!(!c.chocked && c.interested),
        _ => panic!("peer not connected"),
    }
}
