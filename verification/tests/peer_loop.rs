use rustorrent::message::Message;
use rustorrent::peer_loop::{PeerCommand, PeerEvent, PeerLoopMessage};
use rustorrent::pieces::BLOCK_SIZE;

const ABC_SHA1: [u8; 20] = [
    0xa9, 0x99, 0x3e, 0x36, 0x47, 0x06, 0x81, 0x6a, 0xba, 0x3e, 0x25, 0x71, 0x78, 0x50, 0xc2, 0x6c, 0x9c,
    0xd0, 0xd8, 0x9d,
];

#[test]
fn bitfield_must_come_first() {
    let mut p = PeerLoopMessage::new();
    let out = p.peer_loop_message(Message::Bitfield(vec![1]), &[]);
    assert!(!out.stop);
    assert!(matches!(out.event, Some(PeerEvent::PeerPieces(ref b)) if b == &vec![1]));
    let out = p.peer_loop_message(Message::Bitfield(vec![1]), &[]);
    assert!(out.stop);
    assert_eq!(p.message_count, 2);
}

#[test]
fn choked_download_says_interested_then_requests() {
    let mut p = PeerLoopMessage::new();
    let out = p.on_command(PeerCommand::Download { piece: 4, piece_length: 3 }, &[]);
    assert_eq!(out.send, Some(Message::Interested));
    let out = p.peer_loop_message(Message::Unchoke, &[]);
    assert_eq!(out.send, Some(Message::Request { index: 4, begin: 0, length: 3 }));
    assert!(matches!(out.event, Some(PeerEvent::PeerUnchoke)));
    assert_eq!(p.request, Some((4, 0, 3)));
}

#[test]
fn blocks_assemble_the_piece() {
    let mut p = PeerLoopMessage::new();
    p.chocked = false;
    let out = p.on_command(PeerCommand::Download { piece: 1, piece_length: 3 }, &ABC_SHA1);
    assert_eq!(out.send, Some(Message::Request { index: 1, begin: 0, length: 3 }));
    let out = p.peer_loop_message(Message::Piece { index: 1, begin: 0, block: b"ab".to_vec() }, &ABC_SHA1);
    assert_eq!(out.send, Some(Message::Request { index: 1, begin: 2, length: 1 }));
    let out = p.peer_loop_message(Message::Piece { index: 1, begin: 5, block: b"c".to_vec() }, &ABC_SHA1);
    assert!(out.send.is_none() && out.event.is_none());
    let out = p.peer_loop_message(Message::Piece { index: 1, begin: 2, block: b"c".to_vec() }, &ABC_SHA1);
    assert!(matches!(out.event, Some(PeerEvent::PeerPieceDownloaded(ref d)) if d == b"abc"));
    assert!(!out.sha1_mismatch);
    assert_eq!(p.downloading, None);
    assert!(p.torrent_piece.is_none());
}

#[test]
fn wrong_digest_is_flagged() {
    let mut p = PeerLoopMessage::new();
    p.chocked = false;
    p.on_command(PeerCommand::Download { piece: 0, piece_length: 3 }, &[0; 20]);
    let out = p.peer_loop_message(Message::Piece { index: 0, begin: 0, block: b"abc".to_vec() }, &[0; 20]);
    assert!(out.sha1_mismatch);
    assert!(matches!(out.event, Some(PeerEvent::PeerPieceDownloaded(_))));
}

#[test]
fn long_piece_requests_full_blocks() {
    let mut p = PeerLoopMessage::new();
    p.chocked = false;
    let out = p.on_command(PeerCommand::Download { piece: 2, piece_length: 2 * BLOCK_SIZE + 1 }, &[]);
    assert_eq!(out.send, Some(Message::Request { index: 2, begin: 0, length: BLOCK_SIZE as u32 }));
}

#[test]
fn cancel_gives_up_the_piece() {
    let mut p = PeerLoopMessage::new();
    p.chocked = false;
    p.on_command(PeerCommand::Download { piece: 1, piece_length: 10 }, &[]);
    let out = p.on_command(PeerCommand::Cancel, &[]);
    assert_eq!(out.send, Some(Message::Cancel { index: 1, begin: 0, length: 10 }));
    assert!(matches!(out.event, Some(PeerEvent::PeerPieceCanceled)));
    assert_eq!(p.downloading, None);
    let out = p.on_command(PeerCommand::Cancel, &[]);
    assert!(out.send.is_none() && out.event.is_none());
}

#[test]
fn requests_need_interest() {
    let mut p = PeerLoopMessage::new();
    let out = p.peer_loop_message(Message::Request { index: 0, begin: 0, length: 1 }, &[]);
    assert!(out.stop);
    let mut p = PeerLoopMessage::new();
    let out = p.peer_loop_message(Message::Interested, &[]);
    assert!(matches!(out.event, Some(PeerEvent::PeerInterested)));
    let out = p.peer_loop_message(Message::Request { index: 0, begin: 1, length: 2 }, &[]);
    assert!(!out.stop);
    assert!(matches!(out.event, Some(PeerEvent::PeerPieceRequest { index: 0, begin: 1, length: 2 })));
}

#[test]
fn commands_to_send() {
    let mut p = PeerLoopMessage::new();
    assert_eq!(p.on_command(PeerCommand::Have(3), &[]).send, Some(Message::Have { piece_index: 3 }));
    assert_eq!(p.on_command(PeerCommand::Bitfield(vec![9]), &[]).send, Some(Message::Bitfield(vec![9])));
    assert!(p.on_command(PeerCommand::Disconnect, &[]).stop);
    let out = p.peer_loop_message(Message::Have { piece_index: 7 }, &[]);
    assert!(matches!(out.event, Some(PeerEvent::PeerPiece(7))));
    let out = p.peer_loop_message(Message::KeepAlive, &[]);
    assert!(out.send.is_none() && out.event.is_none() && !out.stop);
}

#[test]
fn requests_stay_inside_the_piece() {
    let mut p = PeerLoopMessage::new();
    p.chocked = false;
    let length = BLOCK_SIZE + 10;
    p.on_command(PeerCommand::Download { piece: 0, piece_length: length }, &[]);
    let out = p.peer_loop_message(
        Message::Piece { index: 0, begin: 0, block: vec![0; BLOCK_SIZE] },
        &[],
    );
    assert_eq!(out.send, Some(Message::Request { index: 0, begin: BLOCK_SIZE as u32, length: 10 }));
}

#[test]
fn overlong_piece_still_takes_commands() {
    let mut p = PeerLoopMessage::new();
    p.chocked = false;
    p.on_command(PeerCommand::Download { piece: 0, piece_length: 1 }, &[0; 20]);
    let out = p.peer_loop_message(Message::Piece { index: 0, begin: 0, block: b"ab".to_vec() }, &[0; 20]);
    assert!(out.send.is_none() && out.event.is_none() && !out.stop);
    assert_eq!(p.torrent_piece, Some(b"ab".to_vec()));
    let out = p.peer_loop_message(Message::Have { piece_index: 3 }, &[0; 20]);
    assert!(matches!(out.event, Some(PeerEvent::PeerPiece(3))));
    let out = p.on_command(PeerCommand::Cancel, &[0; 20]);
    assert_eq!(out.send, Some(Message::Cancel { index: 0, begin: 0, length: 1 }));
    assert!(p.torrent_piece.is_none());
    let out = p.on_command(PeerCommand::Disconnect, &[0; 20]);
    assert!(out.stop);
}

#[test]
fn unchoke_event_goes_before_the_request_and_cancel_after() {
    let mut p = PeerLoopMessage::new();
    p.on_command(PeerCommand::Download { piece: 2, piece_length: 5 }, &[]);
    let out = p.peer_loop_message(Message::Unchoke, &[]);
    assert!(out.event_first);
    assert!(out.send.is_some() && out.event.is_some());
    let out = p.on_command(PeerCommand::Cancel, &[]);
    assert!(!out.event_first);
    assert_eq!(out.send, Some(Message::Cancel { index: 2, begin: 0, length: 5 }));
    assert!(matches!(out.event, Some(PeerEvent::PeerPieceCanceled)));
}
