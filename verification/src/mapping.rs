//! How the pieces of a torrent fall onto its files.
//!
//! The files are laid end to end and cut into pieces of `piece_size` bytes.
//! Each piece is described by the blocks it takes from the files: where a
//! block starts inside the piece, which file it comes from, where it starts
//! in that file and how many bytes it has.

use vstd::prelude::*;
use crate::bitarray::{has_bit, bit_by_index};
use crate::flat_storage::{FlatStorageFile, file_lengths};

verus! {

/// A run of bytes that a piece shares with one file.
#[derive(Debug, Clone, Copy, PartialEq, Eq, Structural)]
pub struct FileBlock {
    /// Where the run starts inside the piece.
    pub offset: usize,
    /// The file that holds the run.
    pub file_index: usize,
    /// Where the run starts inside the file.
    pub file_offset: usize,
    /// The number of bytes in the run.
    pub size: usize,
}

/// The blocks of one piece, in the order of the piece's bytes.
#[derive(Debug, PartialEq, Eq)]
pub struct MmapFlatStorageMapping(pub Vec<FileBlock>);

impl View for MmapFlatStorageMapping {
    type V = Seq<FileBlock>;

    open spec fn view(&self) -> Seq<FileBlock> {
        self.0@
    }
}

/// The blocks of every piece of a mapping.
pub open spec fn mappings_view(m: Seq<MmapFlatStorageMapping>) -> Seq<Seq<FileBlock>> {
    m.map_values(|p: MmapFlatStorageMapping| p@)
}

/// The state of cutting files into pieces: the pieces that are complete,
/// the blocks of the piece being filled, the room left in it and where the
/// next block starts inside it.
pub struct Carving {
    pub done: Seq<Seq<FileBlock>>,
    pub current: Seq<FileBlock>,
    pub left: nat,
    pub offset: nat,
}

/// Cuts the `remaining` bytes of file `file_index`, from `file_offset` on,
/// into the pieces: while the file does not fit in the room that is left,
/// fill the piece with the next bytes of the file and start a new one; then
/// put the rest into the piece being filled.
pub open spec fn carve(
    piece_size: nat,
    file_index: nat,
    remaining: nat,
    file_offset: nat,
    c: Carving,
) -> Carving
    decreases remaining, (if c.left == 0 { 1nat } else { 0nat }),
    when piece_size > 0 || remaining == 0
{
    if c.left < remaining {
        let block = FileBlock {
            offset: c.offset as usize,
            file_index: file_index as usize,
            file_offset: file_offset as usize,
            size: c.left as usize,
        };
        carve(
            piece_size,
            file_index,
            (remaining - c.left) as nat,
            file_offset + c.left,
            Carving { done: c.done.push(c.current.push(block)), current: seq![], left: piece_size, offset: 0 },
        )
    } else {
        let block = FileBlock {
            offset: c.offset as usize,
            file_index: file_index as usize,
            file_offset: file_offset as usize,
            size: remaining as usize,
        };
        Carving {
            done: c.done,
            current: c.current.push(block),
            left: (c.left - remaining) as nat,
            offset: c.offset + remaining,
        }
    }
}

/// Files of lengths `lens` can be cut into pieces of `piece_size` bytes:
/// pieces have bytes, or the files have none (an empty file fits in a piece
/// of no bytes).
pub open spec fn cuttable(piece_size: nat, lens: Seq<usize>) -> bool {
    piece_size > 0 || forall|i: int| 0 <= i < lens.len() ==> #[trigger] lens[i] == 0
}

/// The empty carving that starts a piece of `piece_size` bytes.
pub open spec fn start_carving(piece_size: nat) -> Carving {
    Carving { done: seq![], current: seq![], left: piece_size, offset: 0 }
}

/// The carving after the files of lengths `lens` were cut, one after the other.
pub open spec fn place_files(piece_size: nat, lens: Seq<usize>) -> Carving
    decreases lens.len(),
{
    if lens.len() == 0 {
        start_carving(piece_size)
    } else {
        carve(
            piece_size,
            (lens.len() - 1) as nat,
            lens.last() as nat,
            0,
            place_files(piece_size, lens.drop_last()),
        )
    }
}

/// The pieces of files of lengths `lens`: the complete ones, then the last
/// one being filled unless it has no block.
pub open spec fn pieces_to_files(piece_size: nat, lens: Seq<usize>) -> Seq<Seq<FileBlock>> {
    let c = place_files(piece_size, lens);
    if c.current.len() > 0 {
        c.done.push(c.current)
    } else {
        c.done
    }
}

/// Cuts `files`, laid end to end, into pieces of `piece_size` bytes.
pub fn map_pieces_to_files(piece_size: usize, files: &[FlatStorageFile]) -> (mapping: Vec<
    MmapFlatStorageMapping,
>)
    requires
        cuttable(piece_size as nat, file_lengths(files@)),
    ensures
        mappings_view(mapping@) == pieces_to_files(piece_size as nat, file_lengths(files@)),
{
    let ghost ps = piece_size as nat;
    let ghost lens = file_lengths(files@);
    let mut current_piece_left = piece_size;
    let mut current_piece = MmapFlatStorageMapping(Vec::new());
    let mut offset: usize = 0;
    let mut mapping: Vec<MmapFlatStorageMapping> = Vec::new();
    let mut file_index: usize = 0;
    assert(lens.take(0) =~= Seq::<usize>::empty());
    assert(mappings_view(mapping@) =~= Seq::<Seq<FileBlock>>::empty());
    while file_index < files.len()
        invariant
            file_index <= files.len(),
            cuttable(ps, lens),
            ps == piece_size as nat,
            lens == file_lengths(files@),
            offset + current_piece_left == piece_size,
            place_files(ps, lens.take(file_index as int)) == (Carving {
                done: mappings_view(mapping@),
                current: current_piece@,
                left: current_piece_left as nat,
                offset: offset as nat,
            }),
        decreases files.len() - file_index,
    {
        let file_length = files[file_index].length;
        assert(file_length == lens[file_index as int]);
        let mut file_remaining_length = file_length;
        let mut file_offset: usize = 0;
        let ghost c0 = place_files(ps, lens.take(file_index as int));
        while current_piece_left < file_remaining_length
            invariant
                piece_size > 0 || file_length == 0,
                ps == piece_size as nat,
                offset + current_piece_left == piece_size,
                file_offset + file_remaining_length == file_length,
                carve(ps, file_index as nat, file_length as nat, 0, c0) == carve(
                    ps,
                    file_index as nat,
                    file_remaining_length as nat,
                    file_offset as nat,
                    Carving {
                        done: mappings_view(mapping@),
                        current: current_piece@,
                        left: current_piece_left as nat,
                        offset: offset as nat,
                    },
                ),
            decreases file_remaining_length, (if current_piece_left == 0 { 1nat } else { 0nat }),
        {
            current_piece.0.push(
                FileBlock {
                    offset,
                    file_index,
                    file_offset,
                    size: current_piece_left,
                },
            );
            file_remaining_length -= current_piece_left;
            file_offset += current_piece_left;
            current_piece_left = piece_size;
            let ghost before = mapping@;
            mapping.push(current_piece);
            assert(mappings_view(mapping@) =~= mappings_view(before).push(
                mapping@.last()@,
            ));
            current_piece = MmapFlatStorageMapping(Vec::new());
            offset = 0;
            assert(current_piece@ =~= Seq::<FileBlock>::empty());
        }
        if current_piece_left >= file_remaining_length {
            current_piece.0.push(
                FileBlock {
                    offset,
                    file_index,
                    file_offset,
                    size: file_remaining_length,
                },
            );
            current_piece_left -= file_remaining_length;
            offset += file_remaining_length;
        }
        assert(lens.take(file_index + 1).drop_last() =~= lens.take(file_index as int));
        file_index += 1;
    }
    assert(lens.take(files.len() as int) =~= lens);
    if current_piece.0.len() > 0 {
        let ghost before = mapping@;
        mapping.push(current_piece);
        assert(mappings_view(mapping@) =~= mappings_view(before).push(mapping@.last()@));
    }
    mapping
}


/// The number of bytes in `blocks`.
pub open spec fn blocks_size(blocks: Seq<FileBlock>) -> nat
    decreases blocks.len(),
{
    if blocks.len() == 0 {
        0
    } else {
        blocks_size(blocks.drop_last()) + blocks.last().size as nat
    }
}

/// The number of bytes in `pieces`.
pub open spec fn pieces_size(pieces: Seq<Seq<FileBlock>>) -> nat
    decreases pieces.len(),
{
    if pieces.len() == 0 {
        0
    } else {
        pieces_size(pieces.drop_last()) + blocks_size(pieces.last())
    }
}

/// The sum of `lens`.
pub open spec fn total_length(lens: Seq<usize>) -> nat
    decreases lens.len(),
{
    if lens.len() == 0 {
        0
    } else {
        total_length(lens.drop_last()) + lens.last() as nat
    }
}

/// Where file `i` starts when the files of lengths `lens` are laid end to end.
pub open spec fn file_start(lens: Seq<usize>, i: int) -> nat {
    total_length(lens.take(i))
}

/// The blocks before `k` and block `k` together make the blocks before
/// `k + 1`, and no prefix is larger than the whole.
pub proof fn lemma_blocks_size_take(blocks: Seq<FileBlock>, k: int)
    requires
        0 <= k < blocks.len(),
    ensures
        blocks_size(blocks.take(k + 1)) == blocks_size(blocks.take(k)) + blocks[k].size,
        blocks_size(blocks.take(k + 1)) <= blocks_size(blocks),
    decreases blocks.len() - k,
{
    assert(blocks.take(k + 1).drop_last() =~= blocks.take(k));
    if k + 1 < blocks.len() {
        lemma_blocks_size_take(blocks, k + 1);
    } else {
        assert(blocks.take(k + 1) =~= blocks);
    }
}

/// Each block of the piece starts where the blocks before it end.
pub open spec fn piece_offsets_contiguous(blocks: Seq<FileBlock>) -> bool {
    forall|k: int| 0 <= k < blocks.len() ==> #[trigger] blocks[k].offset == blocks_size(blocks.take(k))
}

/// The blocks of the piece come from files in strictly increasing order.
pub open spec fn piece_files_increase(blocks: Seq<FileBlock>) -> bool {
    forall|j: int, k: int|
        0 <= j < k < blocks.len() ==> #[trigger] blocks[j].file_index < #[trigger] blocks[k].file_index
}

/// Each block lies inside its file.
pub open spec fn blocks_within_files(blocks: Seq<FileBlock>, lens: Seq<usize>) -> bool {
    forall|k: int|
        0 <= k < blocks.len() ==> (#[trigger] blocks[k]).file_index < lens.len()
            && blocks[k].file_offset + blocks[k].size <= lens[blocks[k].file_index as int]
}

/// Each block of a piece that starts at byte `start` of the files laid end to
/// end takes the bytes that lie at that place.
pub open spec fn blocks_in_place(blocks: Seq<FileBlock>, start: nat, lens: Seq<usize>) -> bool {
    forall|k: int|
        0 <= k < blocks.len() ==> start + (#[trigger] blocks[k]).offset == file_start(
            lens,
            blocks[k].file_index as int,
        ) + blocks[k].file_offset
}

/// What a well-formed piece satisfies in a mapping.
pub open spec fn piece_well_formed(blocks: Seq<FileBlock>, start: nat, lens: Seq<usize>) -> bool {
    &&& piece_offsets_contiguous(blocks)
    &&& piece_files_increase(blocks)
    &&& blocks_within_files(blocks, lens)
    &&& blocks_in_place(blocks, start, lens)
}

/// A mapping of the files of lengths `lens` onto pieces of `piece_size` bytes:
/// every piece is well formed, every piece but the last has `piece_size`
/// bytes, the last has at most that many, and together the pieces have as
/// many bytes as the files.
pub open spec fn mapping_well_formed(m: Seq<Seq<FileBlock>>, piece_size: nat, lens: Seq<usize>) -> bool {
    &&& forall|p: int|
        0 <= p < m.len() ==> piece_well_formed(#[trigger] m[p], pieces_size(m.take(p)), lens)
    &&& forall|p: int| 0 <= p < m.len() ==> blocks_size(#[trigger] m[p]) <= piece_size
    &&& forall|p: int| 0 <= p < m.len() - 1 ==> blocks_size(#[trigger] m[p]) == piece_size
    &&& pieces_size(m) == total_length(lens)
}

/// What holds of a carving while file `fi` is cut, `fo` bytes of it already placed.
pub open spec fn carving_invariant(c: Carving, piece_size: nat, lens: Seq<usize>, fi: nat, fo: nat) -> bool {
    &&& c.offset + c.left == piece_size
    &&& blocks_size(c.current) == c.offset
    &&& forall|p: int|
        0 <= p < c.done.len() ==> piece_well_formed(#[trigger] c.done[p], pieces_size(c.done.take(p)), lens)
    &&& forall|p: int| 0 <= p < c.done.len() ==> blocks_size(#[trigger] c.done[p]) == piece_size
    &&& piece_well_formed(c.current, pieces_size(c.done), lens)
    &&& forall|k: int| 0 <= k < c.current.len() ==> (#[trigger] c.current[k]).file_index < fi
    &&& pieces_size(c.done) + c.offset == file_start(lens, fi as int) + fo
}

proof fn lemma_blocks_size_push(blocks: Seq<FileBlock>, b: FileBlock)
    ensures
        blocks_size(blocks.push(b)) == blocks_size(blocks) + b.size,
{
    assert(blocks.push(b).drop_last() =~= blocks);
}

proof fn lemma_pieces_size_push(pieces: Seq<Seq<FileBlock>>, b: Seq<FileBlock>)
    ensures
        pieces_size(pieces.push(b)) == pieces_size(pieces) + blocks_size(b),
{
    assert(pieces.push(b).drop_last() =~= pieces);
}

proof fn lemma_file_start_next(lens: Seq<usize>, i: int)
    requires
        0 <= i < lens.len(),
    ensures
        file_start(lens, i + 1) == file_start(lens, i) + lens[i],
{
    assert(lens.take(i + 1).drop_last() =~= lens.take(i));
}

/// Pushing a block that starts where the piece ends, comes from a later file
/// and lies in place keeps the piece well formed.
proof fn lemma_push_block(blocks: Seq<FileBlock>, b: FileBlock, start: nat, lens: Seq<usize>)
    requires
        piece_well_formed(blocks, start, lens),
        b.offset == blocks_size(blocks),
        forall|k: int| 0 <= k < blocks.len() ==> (#[trigger] blocks[k]).file_index < b.file_index,
        b.file_index < lens.len(),
        b.file_offset + b.size <= lens[b.file_index as int],
        start + b.offset == file_start(lens, b.file_index as int) + b.file_offset,
    ensures
        piece_well_formed(blocks.push(b), start, lens),
{
    let nb = blocks.push(b);
    assert forall|k: int| 0 <= k < nb.len() implies #[trigger] nb[k].offset == blocks_size(nb.take(k)) by {
        if k < blocks.len() {
            assert(nb.take(k) =~= blocks.take(k));
        } else {
            assert(nb.take(k) =~= blocks);
        }
    }
    assert forall|j: int, k: int| 0 <= j < k < nb.len() implies #[trigger] nb[j].file_index
        < #[trigger] nb[k].file_index by {
        if k < blocks.len() {
            assert(blocks[j].file_index < blocks[k].file_index);
        } else {
            assert(blocks[j].file_index < b.file_index);
        }
    }
    assert forall|k: int| 0 <= k < nb.len() implies (#[trigger] nb[k]).file_index < lens.len()
        && nb[k].file_offset + nb[k].size <= lens[nb[k].file_index as int] by {
        if k < blocks.len() {
            assert(nb[k] == blocks[k]);
        }
    }
    assert forall|k: int| 0 <= k < nb.len() implies start + (#[trigger] nb[k]).offset == file_start(
        lens,
        nb[k].file_index as int,
    ) + nb[k].file_offset by {
        if k < blocks.len() {
            assert(nb[k] == blocks[k]);
        }
    }
}

/// Cutting file `fi` keeps the carving invariant, and afterwards the next
/// file starts where file `fi` ends.
#[verifier::rlimit(80)]
#[verifier::spinoff_prover]
proof fn lemma_carve(piece_size: nat, lens: Seq<usize>, fi: nat, remaining: nat, fo: nat, c: Carving)
    requires
        piece_size <= usize::MAX,
        piece_size > 0 || remaining == 0,
        fi < lens.len() <= usize::MAX,
        fo + remaining == lens[fi as int],
        carving_invariant(c, piece_size, lens, fi, fo),
    ensures
        carving_invariant(carve(piece_size, fi, remaining, fo, c), piece_size, lens, fi + 1, 0),
    decreases remaining, (if c.left == 0 { 1nat } else { 0nat }),
{
    assert(fo <= lens[fi as int]);
    lemma_file_start_next(lens, fi as int);
    if c.left < remaining {
        let block = FileBlock {
            offset: c.offset as usize,
            file_index: fi as usize,
            file_offset: fo as usize,
            size: c.left as usize,
        };
        lemma_push_block(c.current, block, pieces_size(c.done), lens);
        let full = c.current.push(block);
        lemma_blocks_size_push(c.current, block);
        lemma_pieces_size_push(c.done, full);
        let done2 = c.done.push(full);
        assert forall|p: int| 0 <= p < done2.len() implies piece_well_formed(
            #[trigger] done2[p],
            pieces_size(done2.take(p)),
            lens,
        ) by {
            if p < c.done.len() {
                assert(done2.take(p) =~= c.done.take(p));
            } else {
                assert(done2.take(p) =~= c.done);
            }
        }
        assert forall|p: int| 0 <= p < done2.len() implies blocks_size(#[trigger] done2[p])
            == piece_size by {
            if p < c.done.len() {
                assert(done2[p] == c.done[p]);
            }
        }
        let c2 = Carving { done: done2, current: seq![], left: piece_size, offset: 0 };
        assert(blocks_size(c2.current) == 0);
        assert(carving_invariant(c2, piece_size, lens, fi, fo + c.left));
        lemma_carve(piece_size, lens, fi, (remaining - c.left) as nat, fo + c.left, c2);
    } else {
        let block = FileBlock {
            offset: c.offset as usize,
            file_index: fi as usize,
            file_offset: fo as usize,
            size: remaining as usize,
        };
        lemma_push_block(c.current, block, pieces_size(c.done), lens);
        lemma_blocks_size_push(c.current, block);
        let cur2 = c.current.push(block);
        assert forall|k: int| 0 <= k < cur2.len() implies (#[trigger] cur2[k]).file_index < fi + 1 by {
            if k < c.current.len() {
                assert(cur2[k] == c.current[k]);
            }
        }
    }
}

/// The carving invariant holds after the first `n` files were cut.
#[verifier::rlimit(60)]
#[verifier::spinoff_prover]
proof fn lemma_place_files(piece_size: nat, lens: Seq<usize>, n: nat)
    requires
        piece_size <= usize::MAX,
        cuttable(piece_size, lens),
        n <= lens.len() <= usize::MAX,
    ensures
        carving_invariant(place_files(piece_size, lens.take(n as int)), piece_size, lens, n, 0),
    decreases n,
{
    if n == 0 {
        assert(lens.take(0) =~= Seq::<usize>::empty());
        assert(file_start(lens, 0) == 0) by {
            assert(lens.take(0) =~= Seq::<usize>::empty());
        }
        let c = start_carving(piece_size);
        assert(blocks_size(c.current) == 0);
        assert(pieces_size(c.done) == 0);
    } else {
        lemma_place_files(piece_size, lens, (n - 1) as nat);
        let t = lens.take(n as int);
        assert(t.drop_last() =~= lens.take(n - 1));
        assert(t.last() == lens[n - 1]);
        lemma_carve(
            piece_size,
            lens,
            (n - 1) as nat,
            lens[n - 1] as nat,
            0,
            place_files(piece_size, lens.take(n - 1)),
        );
    }
}

/// Law: the pieces that files are cut into form a well-formed mapping: each
/// block takes the bytes at its own place in the files laid end to end, the
/// blocks of a piece follow one another from its first byte and come from
/// distinct files, every piece but the last is full, and the pieces hold
/// exactly the bytes of the files.
pub proof fn lemma_pieces_to_files_well_formed(piece_size: usize, lens: Seq<usize>)
    requires
        cuttable(piece_size as nat, lens),
        lens.len() <= usize::MAX,
    ensures
        mapping_well_formed(pieces_to_files(piece_size as nat, lens), piece_size as nat, lens),
{
    let piece_size = piece_size as nat;
    lemma_place_files(piece_size, lens, lens.len());
    assert(lens.take(lens.len() as int) =~= lens);
    assert(file_start(lens, lens.len() as int) == total_length(lens));
    let c = place_files(piece_size, lens);
    let m = pieces_to_files(piece_size, lens);
    if c.current.len() > 0 {
        lemma_pieces_size_push(c.done, c.current);
        assert forall|p: int| 0 <= p < m.len() implies piece_well_formed(
            #[trigger] m[p],
            pieces_size(m.take(p)),
            lens,
        ) by {
            if p < c.done.len() {
                assert(m.take(p) =~= c.done.take(p));
            } else {
                assert(m.take(p) =~= c.done);
            }
        }
        assert forall|p: int| 0 <= p < m.len() implies blocks_size(#[trigger] m[p]) <= piece_size by {
            if p < c.done.len() {
                assert(m[p] == c.done[p]);
            }
        }
        assert forall|p: int| 0 <= p < m.len() - 1 implies blocks_size(#[trigger] m[p])
            == piece_size by {
            assert(m[p] == c.done[p]);
        }
    } else {
        assert(c.current =~= Seq::<FileBlock>::empty());
    }
}

/// The runs `ws` and `rs` share no byte of any file.
pub open spec fn blocks_disjoint(ws: Seq<FileBlock>, rs: Seq<FileBlock>) -> bool {
    forall|k: int, l: int|
        #![trigger ws[k], rs[l]]
        0 <= k < ws.len() && 0 <= l < rs.len() && ws[k].file_index == rs[l].file_index ==> ws[k].file_offset
            + ws[k].size <= rs[l].file_offset || rs[l].file_offset + rs[l].size <= ws[k].file_offset
}

proof fn lemma_piece_start_next(m: Seq<Seq<FileBlock>>, p: int)
    requires
        0 <= p < m.len(),
    ensures
        pieces_size(m.take(p + 1)) == pieces_size(m.take(p)) + blocks_size(m[p]),
{
    assert(m.take(p + 1).drop_last() =~= m.take(p));
}

proof fn lemma_piece_starts_increase(m: Seq<Seq<FileBlock>>, a: int, b: int)
    requires
        0 <= a <= b <= m.len(),
    ensures
        pieces_size(m.take(a)) <= pieces_size(m.take(b)),
    decreases b - a,
{
    if a < b {
        lemma_piece_starts_increase(m, a, b - 1);
        lemma_piece_start_next(m, b - 1);
    }
}

/// Two distinct pieces of a well-formed mapping take no byte of a file in
/// common.
pub proof fn lemma_pieces_disjoint(m: Seq<Seq<FileBlock>>, piece_size: nat, lens: Seq<usize>, i: int, j: int)
    requires
        mapping_well_formed(m, piece_size, lens),
        0 <= i < m.len(),
        0 <= j < m.len(),
        i != j,
    ensures
        blocks_disjoint(m[j], m[i]),
{
    let ws = m[j];
    let rs = m[i];
    assert(piece_well_formed(ws, pieces_size(m.take(j)), lens));
    assert(piece_well_formed(rs, pieces_size(m.take(i)), lens));
    if i < j {
        lemma_piece_start_next(m, i);
        lemma_piece_starts_increase(m, i + 1, j);
    } else {
        lemma_piece_start_next(m, j);
        lemma_piece_starts_increase(m, j + 1, i);
    }
    assert forall|k: int, l: int|
        #![trigger ws[k], rs[l]]
        0 <= k < ws.len() && 0 <= l < rs.len() && ws[k].file_index == rs[l].file_index implies ws[k].file_offset
            + ws[k].size <= rs[l].file_offset || rs[l].file_offset + rs[l].size <= ws[k].file_offset by {
        lemma_blocks_size_take(ws, k);
        lemma_blocks_size_take(rs, l);
    }
}

} // verus!

verus! {

/// The number of bytes of file `fi` in the blocks of one piece.
pub open spec fn file_size_in_piece(blocks: Seq<FileBlock>, fi: int) -> nat
    decreases blocks.len(),
{
    if blocks.len() == 0 {
        0
    } else {
        file_size_in_piece(blocks.drop_last(), fi) + if blocks.last().file_index == fi {
            blocks.last().size as nat
        } else {
            0
        }
    }
}

/// The number of bytes of file `fi` in `pieces`.
pub open spec fn file_size_in_pieces(pieces: Seq<Seq<FileBlock>>, fi: int) -> nat
    decreases pieces.len(),
{
    if pieces.len() == 0 {
        0
    } else {
        file_size_in_pieces(pieces.drop_last(), fi) + file_size_in_piece(pieces.last(), fi)
    }
}

/// While file `fi` is cut, `fo` bytes of it placed: the earlier files are
/// placed whole, the later ones not at all.
pub open spec fn file_accounting(c: Carving, lens: Seq<usize>, fi: nat, fo: nat) -> bool {
    forall|j: int|
        0 <= j < lens.len() ==> #[trigger] file_size_in_pieces(c.done, j) + file_size_in_piece(c.current, j)
            == (if j < fi {
            lens[j] as int
        } else if j == fi {
            fo as int
        } else {
            0
        })
}

proof fn lemma_file_size_push(blocks: Seq<FileBlock>, b: FileBlock, j: int)
    ensures
        file_size_in_piece(blocks.push(b), j) == file_size_in_piece(blocks, j) + if b.file_index == j {
            b.size as nat
        } else {
            0
        },
{
    assert(blocks.push(b).drop_last() =~= blocks);
}

proof fn lemma_file_size_pieces_push(pieces: Seq<Seq<FileBlock>>, p: Seq<FileBlock>, j: int)
    ensures
        file_size_in_pieces(pieces.push(p), j) == file_size_in_pieces(pieces, j) + file_size_in_piece(p, j),
{
    assert(pieces.push(p).drop_last() =~= pieces);
}

proof fn lemma_carve_accounting(
    piece_size: nat,
    lens: Seq<usize>,
    fi: nat,
    remaining: nat,
    fo: nat,
    c: Carving,
)
    requires
        piece_size <= usize::MAX,
        piece_size > 0 || remaining == 0,
        fi < lens.len() <= usize::MAX,
        fo + remaining == lens[fi as int],
        c.left <= piece_size,
        file_accounting(c, lens, fi, fo),
    ensures
        file_accounting(carve(piece_size, fi, remaining, fo, c), lens, fi + 1, 0),
    decreases remaining, (if c.left == 0 { 1nat } else { 0nat }),
{
    if c.left < remaining {
        let block = FileBlock {
            offset: c.offset as usize,
            file_index: fi as usize,
            file_offset: fo as usize,
            size: c.left as usize,
        };
        let full = c.current.push(block);
        let done2 = c.done.push(full);
        let c2 = Carving { done: done2, current: seq![], left: piece_size, offset: 0 };
        assert forall|j: int| 0 <= j < lens.len() implies #[trigger] file_size_in_pieces(c2.done, j)
            + file_size_in_piece(c2.current, j) == (if j < fi {
            lens[j] as int
        } else if j == fi {
            (fo + c.left) as int
        } else {
            0
        }) by {
            lemma_file_size_push(c.current, block, j);
            lemma_file_size_pieces_push(c.done, full, j);
            assert(file_size_in_pieces(c.done, j) + file_size_in_piece(c.current, j) == (if j < fi {
                lens[j] as int
            } else if j == fi {
                fo as int
            } else {
                0
            }));
        }
        lemma_carve_accounting(piece_size, lens, fi, (remaining - c.left) as nat, fo + c.left, c2);
    } else {
        let block = FileBlock {
            offset: c.offset as usize,
            file_index: fi as usize,
            file_offset: fo as usize,
            size: remaining as usize,
        };
        let r = carve(piece_size, fi, remaining, fo, c);
        assert(r.current == c.current.push(block));
        assert forall|j: int| 0 <= j < lens.len() implies #[trigger] file_size_in_pieces(r.done, j)
            + file_size_in_piece(r.current, j) == (if j < fi + 1 {
            lens[j] as int
        } else {
            0
        }) by {
            lemma_file_size_push(c.current, block, j);
            assert(file_size_in_pieces(c.done, j) + file_size_in_piece(c.current, j) == (if j < fi {
                lens[j] as int
            } else if j == fi {
                fo as int
            } else {
                0
            }));
        }
    }
}

proof fn lemma_place_files_accounting(piece_size: nat, lens: Seq<usize>, n: nat)
    requires
        piece_size <= usize::MAX,
        cuttable(piece_size, lens),
        n <= lens.len() <= usize::MAX,
    ensures
        file_accounting(place_files(piece_size, lens.take(n as int)), lens, n, 0),
    decreases n,
{
    if n == 0 {
        assert(lens.take(0) =~= Seq::<usize>::empty());
        let c = start_carving(piece_size);
        assert forall|j: int| 0 <= j < lens.len() implies #[trigger] file_size_in_pieces(c.done, j)
            + file_size_in_piece(c.current, j) == 0 by {}
    } else {
        lemma_place_files_accounting(piece_size, lens, (n - 1) as nat);
        lemma_place_files(piece_size, lens, (n - 1) as nat);
        let t = lens.take(n as int);
        assert(t.drop_last() =~= lens.take(n - 1));
        assert(t.last() == lens[n - 1]);
        lemma_carve_accounting(
            piece_size,
            lens,
            (n - 1) as nat,
            lens[n - 1] as nat,
            0,
            place_files(piece_size, lens.take(n - 1)),
        );
    }
}

/// Law: the pieces that files are cut into hold every byte of every file, once.
pub proof fn lemma_pieces_cover_files(piece_size: usize, lens: Seq<usize>)
    requires
        cuttable(piece_size as nat, lens),
        lens.len() <= usize::MAX,
    ensures
        forall|j: int|
            0 <= j < lens.len() ==> #[trigger] file_size_in_pieces(pieces_to_files(piece_size as nat, lens), j)
                == lens[j],
{
    let ps = piece_size as nat;
    lemma_place_files_accounting(ps, lens, lens.len());
    assert(lens.take(lens.len() as int) =~= lens);
    let c = place_files(ps, lens);
    assert forall|j: int| 0 <= j < lens.len() implies #[trigger] file_size_in_pieces(
        pieces_to_files(ps, lens),
        j,
    ) == lens[j] by {
        if c.current.len() > 0 {
            lemma_file_size_pieces_push(c.done, c.current, j);
        } else {
            assert(c.current =~= Seq::<FileBlock>::empty());
        }
    }
}

/// The number of bytes of file `fi` in those of the first `n` pieces that
/// the bitfield `downloaded` holds.
pub open spec fn saved_in_pieces(m: Seq<Seq<FileBlock>>, downloaded: Seq<u8>, fi: int, n: int) -> nat
    decreases n,
{
    if n <= 0 {
        0
    } else {
        saved_in_pieces(m, downloaded, fi, n - 1) + if has_bit(downloaded, n - 1) {
            file_size_in_piece(m[n - 1], fi)
        } else {
            0
        }
    }
}

proof fn lemma_saved_all_or_none(m: Seq<Seq<FileBlock>>, downloaded: Seq<u8>, fi: int, k: int)
    requires
        0 <= k <= m.len(),
    ensures
        (forall|p: int| 0 <= p < k ==> #[trigger] has_bit(downloaded, p)) ==> saved_in_pieces(m, downloaded, fi, k)
            == file_size_in_pieces(m.take(k), fi),
        (forall|p: int| 0 <= p < k ==> !#[trigger] has_bit(downloaded, p)) ==> saved_in_pieces(m, downloaded, fi, k)
            == 0,
    decreases k,
{
    if k > 0 {
        lemma_saved_all_or_none(m, downloaded, fi, k - 1);
        assert(m.take(k).drop_last() =~= m.take(k - 1));
        assert(m.take(k).last() == m[k - 1]);
        if forall|p: int| 0 <= p < k ==> #[trigger] has_bit(downloaded, p) {
            assert(has_bit(downloaded, k - 1));
        }
        if forall|p: int| 0 <= p < k ==> !#[trigger] has_bit(downloaded, p) {
            assert(!has_bit(downloaded, k - 1));
        }
    }
}

/// Law: with every piece saved, the bytes saved of a file are all its
/// bytes; with none saved, none are.
pub proof fn lemma_saved_all_or_none_of_file(piece_size: usize, lens: Seq<usize>, downloaded: Seq<u8>, fi: int)
    requires
        cuttable(piece_size as nat, lens),
        lens.len() <= usize::MAX,
        0 <= fi < lens.len(),
    ensures
        ({
            let m = pieces_to_files(piece_size as nat, lens);
            &&& (forall|p: int| 0 <= p < m.len() ==> #[trigger] has_bit(downloaded, p)) ==> saved_in_pieces(
                m,
                downloaded,
                fi,
                m.len() as int,
            ) == lens[fi]
            &&& (forall|p: int| 0 <= p < m.len() ==> !#[trigger] has_bit(downloaded, p)) ==> saved_in_pieces(
                m,
                downloaded,
                fi,
                m.len() as int,
            ) == 0
        }),
{
    let m = pieces_to_files(piece_size as nat, lens);
    lemma_saved_all_or_none(m, downloaded, fi, m.len() as int);
    assert(m.take(m.len() as int) =~= m);
    lemma_pieces_cover_files(piece_size, lens);
    assert(file_size_in_pieces(m, fi) == lens[fi]);
}

proof fn lemma_saved_monotonic(m: Seq<Seq<FileBlock>>, downloaded: Seq<u8>, fi: int, a: int, b: int)
    requires
        a <= b,
    ensures
        saved_in_pieces(m, downloaded, fi, a) <= saved_in_pieces(m, downloaded, fi, b),
    decreases b - a,
{
    if a < b {
        lemma_saved_monotonic(m, downloaded, fi, a, b - 1);
    }
}

proof fn lemma_file_size_in_piece_take(blocks: Seq<FileBlock>, fi: int, k: int)
    requires
        0 <= k < blocks.len(),
    ensures
        file_size_in_piece(blocks.take(k + 1), fi) == file_size_in_piece(blocks.take(k), fi) + if blocks[k].file_index
            == fi {
            blocks[k].size as nat
        } else {
            0
        },
        file_size_in_piece(blocks.take(k + 1), fi) <= file_size_in_piece(blocks, fi),
    decreases blocks.len() - k,
{
    assert(blocks.take(k + 1).drop_last() =~= blocks.take(k));
    if k + 1 < blocks.len() {
        lemma_file_size_in_piece_take(blocks, fi, k + 1);
    } else {
        assert(blocks.take(k + 1) =~= blocks);
    }
}

/// Law: the bytes of a file counted in downloaded pieces never exceed the
/// bytes of that file in all the pieces.
pub proof fn lemma_saved_within_pieces(m: Seq<Seq<FileBlock>>, downloaded: Seq<u8>, fi: int, n: int)
    requires
        forall|p: int| 0 <= p < n ==> #[trigger] has_bit(downloaded, p) ==> p < m.len(),
    ensures
        saved_in_pieces(m, downloaded, fi, n) <= file_size_in_pieces(m, fi),
    decreases n,
{
    if n <= 0 {
    } else if n > m.len() {
        lemma_saved_within_pieces(m, downloaded, fi, n - 1);
        assert(!has_bit(downloaded, n - 1));
    } else {
        lemma_saved_within_prefix(m, downloaded, fi, n);
        assert(m.take(m.len() as int) =~= m);
        lemma_file_size_in_pieces_prefix(m, fi, n);
    }
}

proof fn lemma_saved_within_prefix(m: Seq<Seq<FileBlock>>, downloaded: Seq<u8>, fi: int, n: int)
    requires
        0 <= n <= m.len(),
    ensures
        saved_in_pieces(m, downloaded, fi, n) <= file_size_in_pieces(m.take(n), fi),
    decreases n,
{
    if n > 0 {
        lemma_saved_within_prefix(m, downloaded, fi, n - 1);
        assert(m.take(n).drop_last() =~= m.take(n - 1));
        assert(m.take(n).last() == m[n - 1]);
    } else {
        assert(m.take(n) =~= Seq::<Seq<FileBlock>>::empty());
    }
}

proof fn lemma_file_size_in_pieces_prefix(m: Seq<Seq<FileBlock>>, fi: int, n: int)
    requires
        0 <= n <= m.len(),
    ensures
        file_size_in_pieces(m.take(n), fi) <= file_size_in_pieces(m, fi),
    decreases m.len() - n,
{
    if n < m.len() {
        lemma_file_size_in_pieces_prefix(m, fi, n + 1);
        assert(m.take(n + 1).drop_last() =~= m.take(n));
    } else {
        assert(m.take(n) =~= m);
    }
}

/// The number of bytes of file `file_index` in those of the first
/// `pieces_count` pieces that `downloaded` holds.
pub fn calculate_saved(
    pieces_count: usize,
    file_index: usize,
    mapping: &[MmapFlatStorageMapping],
    downloaded: &[u8],
) -> (saved: usize)
    requires
        forall|p: int| 0 <= p < pieces_count ==> #[trigger] has_bit(downloaded@, p) ==> p < mapping@.len(),
        saved_in_pieces(mappings_view(mapping@), downloaded@, file_index as int, pieces_count as int)
            <= usize::MAX,
    ensures
        saved == saved_in_pieces(mappings_view(mapping@), downloaded@, file_index as int, pieces_count as int),
{
    let ghost m = mappings_view(mapping@);
    let ghost fi = file_index as int;
    let mut saved: usize = 0;
    let mut piece: usize = 0;
    while piece < pieces_count
        invariant
            piece <= pieces_count,
            m == mappings_view(mapping@),
            fi == file_index,
            forall|p: int| 0 <= p < pieces_count ==> #[trigger] has_bit(downloaded@, p) ==> p < mapping@.len(),
            saved_in_pieces(m, downloaded@, fi, pieces_count as int) <= usize::MAX,
            saved == saved_in_pieces(m, downloaded@, fi, piece as int),
        decreases pieces_count - piece,
    {
        proof {
            lemma_saved_monotonic(m, downloaded@, fi, piece + 1, pieces_count as int);
        }
        if bit_by_index(piece, downloaded).is_some() {
            assert(has_bit(downloaded@, piece as int));
            let mapping_block = &mapping[piece];
            let ghost bs = mapping_block@;
            assert(bs == m[piece as int]);
            let mut k: usize = 0;
            assert(bs.take(0) =~= Seq::<FileBlock>::empty());
            while k < mapping_block.0.len()
                invariant
                    k <= bs.len(),
                    bs == mapping_block@,
                    fi == file_index,
                    saved_in_pieces(m, downloaded@, fi, piece as int) + file_size_in_piece(bs, fi) <= usize::MAX,
                    saved == saved_in_pieces(m, downloaded@, fi, piece as int) + file_size_in_piece(bs.take(k as int), fi),
                decreases bs.len() - k,
            {
                let file_block = mapping_block.0[k];
                proof {
                    lemma_file_size_in_piece_take(bs, fi, k as int);
                }
                if file_block.file_index == file_index {
                    saved += file_block.size;
                }
                k += 1;
            }
            assert(bs.take(k as int) =~= bs);
        }
        piece += 1;
    }
    saved
}

} // verus!
