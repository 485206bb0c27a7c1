use memmap::MmapMut;
use rustorrent::flat_storage::{FlatStorage, FlatStorageError, FlatStorageFile};
use rustorrent::mmap_storage::MmapFlatStorage;
use rustorrent::storage::{load_piece, save_piece, TorrentPiece, TorrentProcessState, TorrentStorageState};

fn file(path: &str, length: usize) -> FlatStorageFile {
    FlatStorageFile { path: path.into(), length }
}

fn anon(len: usize) -> Option<MmapMut> {
    Some(MmapMut::map_anon(len).unwrap())
}

fn two_files() -> MmapFlatStorage {
    MmapFlatStorage::create(
        vec![anon(300), anon(400)],
        2,
        500,
        vec![file("a", 300), file("b", 400)],
        &[],
    )
    .unwrap()
}

#[test]
fn storage_reads_back_what_was_written() {
    let mut storage = two_files();
    assert_eq!(storage.piece_count(), 2);
    let block: Vec<u8> = (0..500).map(|i| (i % 251) as u8).collect();
    storage.write_piece(0, block.clone()).unwrap();
    let read = storage.read_piece(0).unwrap().unwrap();
    assert_eq!(read, block);
    let tail: Vec<u8> = vec![7; 200];
    storage.write_piece(1, tail.clone()).unwrap();
    assert_eq!(storage.read_piece(1).unwrap().unwrap(), tail);
    assert_eq!(storage.read_piece(0).unwrap().unwrap(), block);
    assert_eq!(storage.saved(), vec![300, 400]);
}

#[test]
fn storage_counts_saved_pieces_of_bitfield() {
    let storage = MmapFlatStorage::create(
        vec![anon(300), anon(400)],
        2,
        500,
        vec![file("a", 300), file("b", 400)],
        &[0b0100_0000],
    )
    .unwrap();
    assert_eq!(storage.saved(), vec![0, 200]);
}

#[test]
fn storage_refuses_missing_map() {
    let r = MmapFlatStorage::create(vec![anon(300)], 2, 500, vec![file("a", 300), file("b", 400)], &[]);
    assert!(matches!(r, Err(FlatStorageError::AllocateFile)));
    let r = MmapFlatStorage::create(
        vec![anon(300), anon(10)],
        2,
        500,
        vec![file("a", 300), file("b", 400)],
        &[],
    );
    assert!(matches!(r, Err(FlatStorageError::AllocateFile)));
}

#[test]
fn storage_file_info() {
    let storage = two_files();
    let info = storage.file_info(1).unwrap();
    assert_eq!(info.file.path, "b");
    assert_eq!(info.piece, 0);
    assert_eq!(info.piece_offset, 300);
    assert!(storage.file_info(2).is_none());
    assert_eq!(storage.files().len(), 2);
}

#[test]
fn state_counts_pieces_left() {
    let mut state = TorrentStorageState::new(10);
    assert!(state.downloaded.is_empty());
    assert!(state.piece_saved(9));
    assert_eq!(state.downloaded, vec![0, 0b0100_0000, 0, 0, 0, 0, 0, 0, 0, 0]);
    assert_eq!(state.pieces_left, 9);
    assert!(!state.piece_saved(9));
    assert_eq!(state.pieces_left, 9);
    assert!(state.piece_saved(0));
    assert_eq!(state.downloaded[0], 0b1000_0000);
    assert_eq!(state.pieces_left, 8);
    assert_eq!(state.downloaded.len(), 10);
}

#[test]
fn torrent_piece_blocks() {
    let piece = TorrentPiece::new(vec![1, 2, 3, 4, 5]);
    assert_eq!(piece.as_ref(), &[1, 2, 3, 4, 5]);
    assert_eq!(piece.block(1, 3), vec![2, 3, 4]);
    assert_eq!(piece.block(5, 0), Vec::<u8>::new());
}

#[test]
fn process_state_on_block_request() {
    assert_eq!(TorrentProcessState::Init.on_block_request(), TorrentProcessState::Download);
    assert_eq!(TorrentProcessState::Download.on_block_request(), TorrentProcessState::Download);
    assert_eq!(TorrentProcessState::Upload.on_block_request(), TorrentProcessState::DownloadUpload);
    assert_eq!(TorrentProcessState::Finished.on_block_request(), TorrentProcessState::DownloadUpload);
    assert_eq!(
        TorrentProcessState::DownloadUpload.on_block_request(),
        TorrentProcessState::DownloadUpload
    );
}

#[test]
fn save_piece_writes_and_records() {
    let mut storage = two_files();
    let mut state = TorrentStorageState::new(2);
    assert!(storage.can_write_piece(1, 200));
    assert!(!storage.can_write_piece(1, 199));
    assert!(!storage.can_write_piece(2, 1000));
    assert_eq!(save_piece(&mut storage, &mut state, 1, vec![9; 200]), Ok(true));
    assert_eq!(state.pieces_left, 1);
    assert_eq!(state.downloaded, vec![0b0100_0000, 0]);
    assert_eq!(save_piece(&mut storage, &mut state, 1, vec![8; 200]), Ok(false));
    assert_eq!(state.pieces_left, 1);
    let piece = load_piece(&storage, 1).unwrap().unwrap();
    assert_eq!(piece.as_ref(), &vec![8u8; 200][..]);
}

#[test]
fn saves_in_any_order_mark_each_piece_once() {
    let mut state = TorrentStorageState::new(4);
    for index in [2, 0, 2, 3, 0] {
        state.piece_saved(index);
    }
    assert_eq!(state.pieces_left, 1);
    assert_eq!(state.downloaded[0], 0b1011_0000);
    assert!(state.downloaded[1..].iter().all(|&b| b == 0));
}

#[test]
fn writes_to_other_pieces_keep_a_piece() {
    let mut storage = MmapFlatStorage::create(
        vec![anon(5), anon(6)],
        3,
        4,
        vec![file("a", 5), file("b", 6)],
        &[],
    )
    .unwrap();
    storage.write_piece(1, vec![1, 2, 3, 4]).unwrap();
    storage.write_piece(0, vec![9, 9, 9, 9]).unwrap();
    storage.write_piece(2, vec![8, 8, 8, 5]).unwrap();
    assert_eq!(storage.read_piece(1).unwrap().unwrap(), vec![1, 2, 3, 4]);
    assert_eq!(storage.read_piece(2).unwrap().unwrap(), vec![8, 8, 8]);
}

#[test]
fn files_are_created_on_the_first_write_that_needs_them() {
    let mut storage = MmapFlatStorage::create(
        vec![None, None, None],
        0,
        4,
        vec![file("a", 5), file("b", 3), file("c", 4)],
        &[],
    )
    .unwrap();
    assert_eq!(storage.missing_files(0), vec![0]);
    assert_eq!(storage.missing_files(1), vec![0, 1]);
    assert_eq!(storage.read_piece(0).unwrap().unwrap(), Vec::<u8>::new());
    assert!(matches!(
        storage.attach_file(0, MmapMut::map_anon(4).unwrap()),
        Err(FlatStorageError::AllocateFile)
    ));
    storage.attach_file(0, MmapMut::map_anon(5).unwrap()).unwrap();
    assert!(matches!(
        storage.attach_file(0, MmapMut::map_anon(5).unwrap()),
        Err(FlatStorageError::AllocateFile)
    ));
    assert!(storage.missing_files(0).is_empty());
    assert_eq!(storage.missing_files(1), vec![1]);
    storage.write_piece(0, vec![1, 2, 3, 4]).unwrap();
    assert_eq!(storage.read_piece(0).unwrap().unwrap(), vec![1, 2, 3, 4]);
    assert_eq!(storage.missing_files(2), vec![2]);
    storage.attach_file(1, MmapMut::map_anon(3).unwrap()).unwrap();
    assert_eq!(storage.read_piece(0).unwrap().unwrap(), vec![1, 2, 3, 4]);
}

#[test]
fn empty_files_fit_pieces_of_no_bytes() {
    let storage = MmapFlatStorage::create(vec![None, None], 0, 0, vec![file("a", 0), file("b", 0)], &[]).unwrap();
    assert_eq!(storage.piece_count(), 1);
    assert!(storage.missing_files(0).is_empty());
    assert_eq!(storage.read_piece(0).unwrap().unwrap(), Vec::<u8>::new());
}

#[test]
fn every_piece_saved_means_every_byte_saved() {
    let storage = MmapFlatStorage::create(
        vec![anon(300), anon(400)],
        2,
        500,
        vec![file("a", 300), file("b", 400)],
        &[0b1100_0000],
    )
    .unwrap();
    assert_eq!(storage.saved(), vec![300, 400]);
}
