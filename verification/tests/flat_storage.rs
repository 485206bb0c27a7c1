use rustorrent::bitarray::{bit_by_index, index_in_bitarray};
use rustorrent::flat_storage::FlatStorageFile;
use rustorrent::mapping::{map_pieces_to_files, FileBlock, MmapFlatStorageMapping};

#[test]
fn checks_index_in_bitarray() {
    assert_eq!((0, 0b10000000), index_in_bitarray(0));
    assert_eq!((0, 0b01000000), index_in_bitarray(1));
    assert_eq!((0, 0b00100000), index_in_bitarray(2));
    assert_eq!((0, 0b00010000), index_in_bitarray(3));
    assert_eq!((0, 0b00001000), index_in_bitarray(4));
    assert_eq!((0, 0b00000100), index_in_bitarray(5));
    assert_eq!((0, 0b00000010), index_in_bitarray(6));
    assert_eq!((0, 0b00000001), index_in_bitarray(7));
    assert_eq!((1, 0b10000000), index_in_bitarray(8));
}

#[test]
fn checks_bit_by_index() {
    assert_eq!(None, bit_by_index(0, &[]));
    assert_eq!(None, bit_by_index(0, &[0b0000_0000]));
    assert_eq!(Some((0, 0b10000000)), bit_by_index(0, &[0b1000_0000]));
    assert_eq!(Some((0, 0b00000001)), bit_by_index(7, &[0b1000_0001]));
    assert_eq!(None, bit_by_index(6, &[0b1000_0001]));
    assert_eq!(None, bit_by_index(8, &[0b1000_0001]));
    assert_eq!(
        Some((1, 0b10000000)),
        bit_by_index(8, &[0b1000_0001, 0b1000_0000])
    );
}

fn file(path: &str, length: usize) -> FlatStorageFile {
    FlatStorageFile {
        path: path.into(),
        length,
    }
}

fn block(offset: usize, file_index: usize, file_offset: usize, size: usize) -> FileBlock {
    FileBlock {
        offset,
        file_index,
        file_offset,
        size,
    }
}

#[test]
fn pieces_to_files() {
    let result = map_pieces_to_files(100, &[file("test", 1000)]);
    assert_eq!(result.len(), 10);

    let result = map_pieces_to_files(1000, &[file("test", 1000)]);
    assert_eq!(
        result,
        vec![MmapFlatStorageMapping(vec![block(0, 0, 0, 1000)])]
    );

    let result = map_pieces_to_files(1000, &[file("test", 800)]);
    assert_eq!(
        result,
        vec![MmapFlatStorageMapping(vec![block(0, 0, 0, 800)])]
    );

    let result = map_pieces_to_files(333, &[file("test", 1000)]);
    assert_eq!(
        result,
        vec![
            MmapFlatStorageMapping(vec![block(0, 0, 0, 333)]),
            MmapFlatStorageMapping(vec![block(0, 0, 333, 333)]),
            MmapFlatStorageMapping(vec![block(0, 0, 666, 333)]),
            MmapFlatStorageMapping(vec![block(0, 0, 999, 1)]),
        ]
    );

    let result = map_pieces_to_files(
        500,
        &[file("test1", 300), file("test2", 400), file("test3", 500)],
    );
    assert_eq!(
        result,
        vec![
            MmapFlatStorageMapping(vec![block(0, 0, 0, 300), block(300, 1, 0, 200)]),
            MmapFlatStorageMapping(vec![block(0, 1, 200, 200), block(200, 2, 0, 300)]),
            MmapFlatStorageMapping(vec![block(0, 2, 300, 200)]),
        ]
    );
}

#[test]
fn empty_files_make_one_piece_of_empty_blocks() {
    let result = map_pieces_to_files(0, &[file("a", 0), file("b", 0)]);
    assert_eq!(result.len(), 1);
    assert_eq!(result[0].0.len(), 2);
    assert!(result[0].0.iter().all(|b| b.size == 0 && b.offset == 0));
}
