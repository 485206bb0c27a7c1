use rustorrent::bencode::{parse_bencode, parser_bencode, BencodeValue};
use rustorrent::message::{parse_handshake, HandshakeError};
use rustorrent::registry::{TorrentRegistry, HANDSHAKE_PREFIX, PEER_ID};
use rustorrent::torrent::{Torrent, TryFromBencode};

#[test]
fn torrent_reads_trackers() {
    let bytes: &[u8] = b"d8:announce3:url13:creation datei5ee";
    let blob = parse_bencode(bytes);
    let torrent = Torrent::try_from(blob).unwrap();
    assert_eq!(torrent.raw, bytes);
    assert_eq!(torrent.announce, "url");
    assert_eq!(torrent.announce_list, None);
    assert_eq!(torrent.creation_date, Some(5));
}

#[test]
fn torrent_reads_announce_list() {
    let bytes: &[u8] = b"d8:announce1:a13:announce-listll1:bel1:c1:deee";
    let torrent = Torrent::try_from(parse_bencode(bytes)).unwrap();
    assert_eq!(torrent.announce, "a");
    assert_eq!(torrent.announce_list, Some(vec![vec!["b"], vec!["c", "d"]]));
}

#[test]
fn torrent_refuses_non_dictionary() {
    let bytes: &[u8] = b"i3e";
    match Torrent::try_from(parse_bencode(bytes)) {
        Err(TryFromBencode::NotDictionary) => {}
        other => panic!("unexpected {:?}", other),
    }
}

#[test]
fn torrent_refuses_integer_announce() {
    let bytes: &[u8] = b"d8:announcei1ee";
    match Torrent::try_from(parse_bencode(bytes)) {
        Err(TryFromBencode::NotString) => {}
        other => panic!("unexpected {:?}", other),
    }
}

#[test]
fn parser_bencode_reads_one_value() {
    let (rest, value) = parser_bencode(b"i-42eXY").unwrap();
    assert_eq!(rest, b"XY");
    assert_eq!(value.value, BencodeValue::Integer(-42));
    assert!(parser_bencode(b"i42").is_err());
    assert!(parser_bencode(b"x").is_err());
}

#[test]
fn handshake_fields() {
    let mut bytes = vec![];
    for i in 0..70u8 {
        bytes.push(i);
    }
    let h = parse_handshake(&bytes).unwrap();
    assert_eq!(h.protocol_prefix[0], 0);
    assert_eq!(h.reserved[0], 20);
    assert_eq!(h.info_hash[0], 28);
    assert_eq!(h.peer_id[19], 67);
    match parse_handshake(&bytes[..67]) {
        Err(HandshakeError) => {}
        Ok(_) => panic!("short handshake accepted"),
    }
}

#[test]
fn registry_gives_ids_and_finds_by_hash() {
    let mut registry = TorrentRegistry::new();
    assert_eq!(registry.add_torrent("a.torrent".to_string(), [1; 20], 100, 2), 1);
    assert_eq!(registry.add_torrent("b.torrent".to_string(), [2; 20], 100, 2), 2);
    assert_eq!(registry.add_torrent("c.torrent".to_string(), [1; 20], 100, 2), 3);
    let t = registry.find_by_hash(&[1; 20]).unwrap();
    assert_eq!(t.id, 1);
    assert_eq!(t.filename, "a.torrent");
    assert_eq!(t.handshake.len(), 68);
    assert_eq!(&t.handshake[..28], &HANDSHAKE_PREFIX[..]);
    assert_eq!(&t.handshake[28..48], &[1u8; 20][..]);
    assert_eq!(&t.handshake[48..], &PEER_ID[..]);
    assert!(registry.find_by_hash(&[3; 20]).is_none());
    let h = parse_handshake(&t.handshake).unwrap();
    assert_eq!(h.info_hash, [1; 20]);
    assert_eq!(h.peer_id, PEER_ID);
}

#[test]
fn handshake_reply_checked_against_hash() {
    use_check();
}

fn use_check() {
    let mut reply = HANDSHAKE_PREFIX.to_vec();
    reply.extend_from_slice(&[7; 20]);
    reply.extend_from_slice(&PEER_ID);
    assert_eq!(rustorrent::registry::check_handshake_reply(&reply, &[7; 20]).unwrap(), true);
    assert_eq!(rustorrent::registry::check_handshake_reply(&reply, &[8; 20]).unwrap(), false);
    assert!(rustorrent::registry::check_handshake_reply(&reply[..60], &[7; 20]).is_err());
}

#[test]
fn try_read_refuses_what_it_cannot_handle() {
    let bytes: &[u8] = b"d13:creation datei5ee";
    assert!(Torrent::try_read(parse_bencode(bytes)).is_none());
    let bytes: &[u8] = b"d8:announce1:a13:announce-listl1:bee";
    assert!(Torrent::try_read(parse_bencode(bytes)).is_none());
    let bytes: &[u8] = b"d8:announce1:ae";
    assert_eq!(Torrent::try_read(parse_bencode(bytes)).unwrap().unwrap().announce, "a");
}

#[test]
fn torrent_errors_name_the_wrong_kind() {
    let bytes: &[u8] = b"d8:announce1:a13:announce-listi1ee";
    assert!(matches!(Torrent::try_from(parse_bencode(bytes)), Err(TryFromBencode::NotList)));
    let bytes: &[u8] = b"d8:announce1:a13:creation date1:xe";
    assert!(matches!(Torrent::try_from(parse_bencode(bytes)), Err(TryFromBencode::NotInteger)));
    let bytes: &[u8] = b"d8:announce1:\xffe";
    assert!(matches!(Torrent::try_from(parse_bencode(bytes)), Err(TryFromBencode::NotUtf8(_))));
}

#[test]
fn adding_a_torrent_twice_keeps_one() {
    let mut r = TorrentRegistry::new();
    assert_eq!(r.command_add_torrent("a.torrent".to_string(), [1; 20], 100, 2), (1, true));
    assert_eq!(r.command_add_torrent("b.torrent".to_string(), [2; 20], 100, 2), (2, true));
    assert_eq!(r.command_add_torrent("c.torrent".to_string(), [1; 20], 100, 2), (1, false));
    assert_eq!(r.torrents.len(), 2);
    assert_eq!(r.last_id, 2);
    assert_eq!(r.torrents[0].filename, "a.torrent");
    let t = &r.torrents[1];
    assert_eq!(t.torrent_state, rustorrent::storage::TorrentProcessState::Init);
    assert!(matches!(t.announce_state, rustorrent::announce::AnnounceState::Idle));
    assert_eq!((t.stats.downloaded, t.stats.uploaded, t.stats.left), (0, 0, 100));
    assert_eq!(t.pieces.len(), 2);
    assert!(t.pieces.iter().all(|p| p.data.is_empty() && !p.downloaded));
    assert!(t.peers.is_empty());
}
