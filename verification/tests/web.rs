use std::collections::HashMap;

use rustorrent::announce::{
    announce_finished, announce_protocol, command_process_announce, command_start_announce_process, url_encode,
    Announce, AnnounceProtocolError, AnnounceState, AnnouncedPeer, ProcessAnnounceError,
};
use rustorrent::swarm::Peer;
use rustorrent::backend::{
    login_redirect,
    paging_from_pairs, paging_from_query, parse_sort_key, range, range_bounds, sort_downloads,
    torrent_list_page, BackendTorrentDownload, BackendTorrentDownloadDetail, Paging, PagingError,
    SortField, SortKey,
};
use rustorrent::client::{Config, RustorrentApp, Settings};
use rustorrent::static_files::{collect_resources, get_pathbuf, ResourceFiles, UriSegmentError};

#[test]
fn pathbuf_resolves_segments() {
    assert_eq!(get_pathbuf("a/b/../c"), Ok(vec!["a".to_string(), "c".to_string()]));
    assert_eq!(get_pathbuf("/a//b/"), Ok(vec!["a".to_string(), "b".to_string()]));
    assert_eq!(get_pathbuf("../../x"), Ok(vec!["x".to_string()]));
    assert_eq!(get_pathbuf(""), Ok(vec![]));
}

#[test]
fn pathbuf_refuses_bad_segments() {
    assert_eq!(get_pathbuf("a/.hidden"), Err(UriSegmentError::BadStart('.')));
    assert_eq!(get_pathbuf("*x/y"), Err(UriSegmentError::BadStart('*')));
    assert_eq!(get_pathbuf("a/c:"), Err(UriSegmentError::BadEnd(':')));
    assert_eq!(get_pathbuf("a>"), Err(UriSegmentError::BadEnd('>')));
    assert_eq!(get_pathbuf("x</.y"), Err(UriSegmentError::BadEnd('<')));
}

#[test]
fn resource_files_share_their_files() {
    let mut files = HashMap::new();
    files.insert("./path1/file1.txt".to_string(), "hello".to_string());
    let resources = ResourceFiles::new(".", files);
    let _service = resources.new_service();
    collect_resources();
}

#[test]
fn range_header_values() {
    assert_eq!(range("bytes=0-99"), Some(0..100));
    assert_eq!(range("bytes=+5-+7"), Some(5..8));
    assert_eq!(range_bounds("bytes=10-20"), Some((10, 20)));
    assert_eq!(range("bytes=10-"), None);
    assert_eq!(range("bytes=1-2-3"), None);
    assert_eq!(range("items=1-2"), None);
    assert_eq!(range("bytes=a-2"), None);
    assert_eq!(range("bytes=-1-2"), None);
    assert_eq!(range("bytes=99999999999999999999999-1"), None);
    assert_eq!(range_bounds("bytes=0-18446744073709551615"), Some((0, usize::MAX)));
}

#[test]
fn backend_model_values() {
    let d = BackendTorrentDownload {
        id: 1,
        name: "x".to_string(),
        received: 2,
        uploaded: 3,
        length: 4,
        active: true,
    };
    assert_eq!(d.length, 4);
    let _detail = BackendTorrentDownloadDetail {};
}

#[test]
fn url_encoding_of_bytes() {
    assert_eq!(url_encode(&[0x00, 0xab, 0x2f, 0xff]), "%00%AB%2F%FF");
    assert_eq!(url_encode(&[]), "");
}

#[test]
fn announce_protocols() {
    assert_eq!(announce_protocol("http://tracker/announce").unwrap(), Announce::Http);
    assert_eq!(announce_protocol("HTTPS://tracker").unwrap(), Announce::Http);
    assert_eq!(announce_protocol("udp://tracker:80").unwrap(), Announce::Udp);
    assert_eq!(announce_protocol("wss://tracker").unwrap(), Announce::WebSocket);
    match announce_protocol("Gopher://x") {
        Err(AnnounceProtocolError::Unknown(p)) => assert_eq!(p, "gopher"),
        _ => panic!("unknown protocol accepted"),
    }
    match announce_protocol("udp") {
        Ok(Announce::Udp) => {}
        _ => panic!("scheme without separator"),
    }
}

#[test]
fn client_keeps_its_settings() {
    let app = RustorrentApp::new(Settings { config: Config { listen: None, port: 6881, save_to: None } });
    assert_eq!(app.settings.config.port, 6881);
}

#[test]
fn url_encoding_triples_length() {
    let data: Vec<u8> = (0..=255).collect();
    assert_eq!(url_encode(&data).len(), 3 * data.len());
}

#[test]
fn resolved_paths_have_no_dot_segments() {
    let buf = get_pathbuf("a/./b").err();
    assert_eq!(buf, Some(UriSegmentError::BadStart('.')));
    let buf = get_pathbuf("a/b/../../../c/d").unwrap();
    assert_eq!(buf, vec!["c".to_string(), "d".to_string()]);
    assert!(buf.iter().all(|s| !s.is_empty() && !s.starts_with('.')));
}

#[test]
fn paging_from_query_strings() {
    let p = paging_from_query(b"page=2&sort=name&sort=a+b&size=%31%30").unwrap();
    assert_eq!(p.page, Some(2));
    assert_eq!(p.size, Some(10));
    assert_eq!(p.sort, vec!["name".to_string(), "a b".to_string()]);
    let p = paging_from_query(b"").unwrap();
    assert_eq!((p.page, p.size, p.sort.len()), (None, None, 0));
    assert!(matches!(paging_from_query(b"page=x"), Err(PagingError::Page(_))));
    assert!(matches!(paging_from_query(b"size=-1"), Err(PagingError::Size(_))));
    match paging_from_query(b"sort=a&foo=1&page=x") {
        Err(PagingError::UnexpectedKey(k)) => assert_eq!(k, "foo"),
        other => panic!("unexpected {:?}", other),
    }
}

#[test]
fn paging_last_value_counts() {
    let pairs = vec![
        ("page".to_string(), "1".to_string()),
        ("page".to_string(), "+3".to_string()),
    ];
    assert_eq!(paging_from_pairs(pairs).unwrap().page, Some(3));
}

fn download(id: usize, name: &str) -> BackendTorrentDownload {
    BackendTorrentDownload { id, name: name.to_string(), received: 0, uploaded: 0, length: 0, active: false }
}

fn ids(v: &[BackendTorrentDownload]) -> Vec<usize> {
    v.iter().map(|d| d.id).collect()
}

#[test]
fn sort_keys_from_entries() {
    assert_eq!(parse_sort_key("id"), Some(SortKey { field: SortField::Id, descending: false }));
    assert_eq!(parse_sort_key("name,desc"), Some(SortKey { field: SortField::Name, descending: true }));
    assert_eq!(parse_sort_key("name,asc"), Some(SortKey { field: SortField::Name, descending: false }));
    assert_eq!(parse_sort_key("id,desc,x"), Some(SortKey { field: SortField::Id, descending: true }));
    assert_eq!(parse_sort_key("size"), None);
    assert_eq!(parse_sort_key(""), None);
}

#[test]
fn downloads_sort_stably() {
    let items = vec![download(3, "b"), download(1, "a"), download(2, "b"), download(4, "a")];
    let by_name = [SortKey { field: SortField::Name, descending: false }];
    assert_eq!(ids(&sort_downloads(items, &by_name)), vec![1, 4, 3, 2]);
    let items = vec![download(3, "b"), download(1, "a"), download(2, "b"), download(4, "a")];
    let keys = [
        SortKey { field: SortField::Name, descending: true },
        SortKey { field: SortField::Id, descending: false },
    ];
    assert_eq!(ids(&sort_downloads(items, &keys)), vec![2, 3, 1, 4]);
    let items = vec![download(1, "ab"), download(2, "a"), download(3, "b")];
    assert_eq!(ids(&sort_downloads(items, &by_name)), vec![2, 1, 3]);
}

#[test]
fn list_pages() {
    let items: Vec<BackendTorrentDownload> = (0..5).map(|i| download(5 - i, "x")).collect();
    let paging = Paging { page: Some(1), size: Some(2), sort: vec!["id".to_string()] };
    assert_eq!(ids(&torrent_list_page(items, &paging)), vec![3, 4]);
    let items: Vec<BackendTorrentDownload> = (0..5).map(|i| download(i, "x")).collect();
    let paging = Paging { page: None, size: None, sort: vec![] };
    assert_eq!(ids(&torrent_list_page(items, &paging)), vec![0, 1, 2, 3, 4]);
    let items: Vec<BackendTorrentDownload> = (0..5).map(|i| download(i, "x")).collect();
    let paging = Paging { page: Some(3), size: Some(2), sort: vec!["id,desc".to_string()] };
    assert!(torrent_list_page(items, &paging).is_empty());
}

#[test]
fn announce_starts_once_and_names_the_torrent() {
    let mut state = AnnounceState::Idle;
    let url = command_start_announce_process(&mut state, "http://t/a", &[0xab; 20], 1024, Some(6881), Some(true));
    let hash = "%AB".repeat(20);
    let id = url_encode(&rustorrent::registry::PEER_ID);
    assert_eq!(
        url,
        Some(format!("http://t/a?info_hash={}&peer_id={}&left=1024&port=6881&compact=1", hash, id))
    );
    assert!(matches!(state, AnnounceState::Request));
    assert_eq!(
        command_start_announce_process(&mut state, "http://t/a", &[0xab; 20], 1024, None, None),
        None
    );
    announce_finished(&mut state, Err("refused".to_string()));
    assert!(matches!(state, AnnounceState::Error(ref e) if e == "refused"));
    assert_eq!(
        command_start_announce_process(&mut state, "http://t/a", &[0; 20], 0, None, Some(false)),
        None
    );
    announce_finished(&mut state, Ok(()));
    let url = command_start_announce_process(&mut state, "udp://t", &[0; 20], 0, None, Some(false));
    assert_eq!(
        url,
        Some(format!("udp://t?info_hash={}&peer_id={}&left=0&compact=0", "%00".repeat(20), id))
    );
}

#[test]
fn only_the_allowed_user_logs_in() {
    assert_eq!(login_redirect(Some("user@localhost"), "user@localhost", "http://ui", Some("/list")), Some("http://ui/list".to_string()));
    assert_eq!(login_redirect(Some("user@localhost"), "user@localhost", "http://ui", None), Some("http://ui/".to_string()));
    assert_eq!(login_redirect(Some("other@localhost"), "user@localhost", "http://ui", None), None);
    assert_eq!(login_redirect(None, "user@localhost", "http://ui", None), None);
}

#[test]
fn announced_peers_are_counted_and_connected() {
    let a = Peer { ip: 1, port: 10 };
    let b = Peer { ip: 2, port: 20 };
    let mut peers = vec![
        AnnouncedPeer { peer: a, announcement_count: 3, idle: false },
        AnnouncedPeer { peer: b, announcement_count: usize::MAX, idle: true },
    ];
    let c = Peer { ip: 3, port: 30 };
    let r = command_process_announce(&AnnounceState::Idle, &mut peers, &[a, b, c, c]);
    assert_eq!(r.unwrap(), vec![1, 2, 2]);
    assert_eq!(peers[0].announcement_count, 4);
    assert_eq!(peers[1].announcement_count, 0);
    assert_eq!(peers[2], AnnouncedPeer { peer: c, announcement_count: 1, idle: true });
    assert_eq!(peers.len(), 3);

    let r = command_process_announce(&AnnounceState::Error("timeout".to_string()), &mut peers, &[a]);
    assert!(matches!(r, Err(ProcessAnnounceError::Failure(ref e)) if e == "timeout"));
    assert!(matches!(
        command_process_announce(&AnnounceState::Request, &mut peers, &[a]),
        Err(ProcessAnnounceError::WrongState)
    ));
    assert_eq!(peers[0].announcement_count, 4);
}
