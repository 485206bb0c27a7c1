use rustorrent::pieces::{
    block_from_piece, collect_pieces_and_update, count_parts, downloadable_pieces, match_pieces,
    request_message, Block, BLOCK_SIZE,
};

fn check_collect_pieces_and_update_cases() {
    let mut current_pieces = vec![];

    let result = collect_pieces_and_update(&mut current_pieces, &[192], &[]);
    assert_eq!(result, vec![0, 1]);
    assert_eq!(current_pieces, vec![192]);

    let mut current_pieces = vec![192];

    let result = collect_pieces_and_update(&mut current_pieces, &[192], &[192]);
    assert_eq!(result, Vec::<usize>::new());
    assert_eq!(current_pieces, vec![192]);

    let mut current_pieces = vec![];

    let result = collect_pieces_and_update(&mut current_pieces, &[192, 192], &[]);
    assert_eq!(result, vec![0, 1, 8, 9]);
    assert_eq!(current_pieces, vec![192, 192]);

    let mut current_pieces = vec![];

    let result = collect_pieces_and_update(&mut current_pieces, &[0b1010_1010], &[0b010_10101]);
    assert_eq!(result, vec![0, 2, 4, 6]);
    assert_eq!(current_pieces, vec![0b1010_1010]);

    let mut current_pieces = vec![];

    let result = collect_pieces_and_update(&mut current_pieces, &[0b1010_1010], &[0b1101_0101]);
    assert_eq!(result, vec![2, 4, 6]);
    assert_eq!(current_pieces, vec![0b1010_1010]);
}

#[test]
fn app_check_collect_pieces_and_update() {
    check_collect_pieces_and_update_cases();
}

#[test]
fn mod_check_collect_pieces_and_update() {
    check_collect_pieces_and_update_cases();
}

#[test]
fn collect_keeps_known_pieces_and_grows() {
    let mut current = vec![0b0000_0001, 0b1000_0000];
    let result = collect_pieces_and_update(&mut current, &[0b1000_0000], &[]);
    assert_eq!(result, vec![0]);
    assert_eq!(current, vec![0b1000_0001, 0b1000_0000]);
}

#[test]
fn match_pieces_appends_missing_pieces() {
    let mut pieces = vec![42];
    match_pieces(&mut pieces, &[0b1111_0000], 0, 0b1010_1010);
    assert_eq!(pieces, vec![42, 4, 6]);
    let mut pieces = vec![];
    match_pieces(&mut pieces, &[], 2, 0b0000_0011);
    assert_eq!(pieces, vec![22, 23]);
}

#[test]
fn downloadable_pieces_of_a_bitfield() {
    assert_eq!(downloadable_pieces(&[0b1100_0000, 0b0000_0001], &[0b0100_0000]), vec![0, 15]);
    assert_eq!(downloadable_pieces(&[], &[0xff]), Vec::<usize>::new());
}

#[test]
fn count_parts_rounds_up() {
    assert_eq!(count_parts(0, 10), 0);
    assert_eq!(count_parts(10, 10), 1);
    assert_eq!(count_parts(11, 10), 2);
    assert_eq!(count_parts(1000, 333), 4);
}

#[test]
fn request_message_asks_for_next_block() {
    assert_eq!(request_message(&[], 3, 100), (3, 0, 100));
    let buffer = vec![0u8; BLOCK_SIZE];
    assert_eq!(
        request_message(&buffer, 7, 3 * BLOCK_SIZE),
        (7, BLOCK_SIZE as u32, BLOCK_SIZE as u32)
    );
    assert_eq!(
        request_message(&buffer, 7, BLOCK_SIZE + 5),
        (7, BLOCK_SIZE as u32, 5)
    );
}

#[test]
fn block_from_piece_cuts_blocks() {
    let b: Block = block_from_piece(2, 40000, 0, 3);
    assert_eq!(b, Block { piece: 2, begin: 0, length: BLOCK_SIZE as u32 });
    let b: Block = block_from_piece(2, 40000, 2, 3);
    assert_eq!(b, Block { piece: 2, begin: 2 * BLOCK_SIZE as u32, length: (40000 - 2 * BLOCK_SIZE) as u32 });
}

#[test]
fn merging_twice_changes_nothing() {
    let mut current = vec![0b0000_1111];
    collect_pieces_and_update(&mut current, &[0b1010_0000, 0b0000_0001], &[]);
    let once = current.clone();
    collect_pieces_and_update(&mut current, &[0b1010_0000, 0b0000_0001], &[]);
    assert_eq!(current, once);
    assert_eq!(once, vec![0b1010_1111, 0b0000_0001]);
}

#[test]
fn blocks_of_a_piece_cover_it_once() {
    let piece_length = 40000;
    let count = count_parts(piece_length, BLOCK_SIZE);
    assert_eq!(count, 3);
    let blocks: Vec<Block> = (0..count).map(|i| block_from_piece(7, piece_length, i, count)).collect();
    let mut next = 0u32;
    for b in &blocks {
        assert_eq!(b.piece, 7);
        assert_eq!(b.begin, next);
        assert!(b.length >= 1 && b.length as usize <= BLOCK_SIZE);
        next = b.begin + b.length;
    }
    assert_eq!(next as usize, piece_length);
}
