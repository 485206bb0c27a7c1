//! What the storage of a torrent tells the rest of the client: which pieces
//! are saved and how many are left, and the pieces it reads back.

use vstd::prelude::*;
use crate::bitarray::{bit_mask, has_bit, index_in_bitarray};
use crate::flat_storage::{FlatStorage, FlatStorageError};
use crate::mapping::blocks_size;
use crate::mmap_storage::{add_saved, read_blocks, write_blocks, MmapFlatStorage};

verus! {

/// Which pieces are saved, as a bitfield, and how many are still missing.
#[derive(Clone, Debug)]
pub struct TorrentStorageState {
    pub downloaded: Vec<u8>,
    pub pieces_left: usize,
}

/// How many of the pieces below `n` the bitfield `d` holds.
pub open spec fn saved_count(d: Seq<u8>, n: nat) -> nat
    decreases n,
{
    if n == 0 {
        0
    } else {
        saved_count(d, (n - 1) as nat) + if has_bit(d, n - 1) { 1nat } else { 0nat }
    }
}

/// The bitfield `d` grown with zero bytes until it covers piece `index`,
/// then with the bit of `index` set.
pub open spec fn mark_piece(d: Seq<u8>, index: int) -> Seq<u8> {
    let padded = if d.len() <= index {
        d + Seq::new((index + 1 - d.len()) as nat, |i: int| 0u8)
    } else {
        d
    };
    padded.update(index / 8, padded[index / 8] | bit_mask(index))
}

/// The state agrees with a torrent of `piece_count` pieces: no piece beyond
/// the last is marked, and the pieces left are those not marked.
pub open spec fn state_consistent(downloaded: Seq<u8>, pieces_left: int, piece_count: nat) -> bool {
    &&& forall|i: int| i >= piece_count ==> !#[trigger] has_bit(downloaded, i)
    &&& pieces_left + saved_count(downloaded, piece_count) == piece_count
}

proof fn lemma_mask_bits(b: u8, x: u8, y: u8)
    requires
        x < 8,
        y < 8,
    ensures
        (b | (128u8 >> x)) & (128u8 >> x) == (128u8 >> x),
        x != y ==> (((b | (128u8 >> x)) & (128u8 >> y) == (128u8 >> y)) == (b & (128u8 >> y) == (128u8
            >> y))),
{
    assert((b | (128u8 >> x)) & (128u8 >> x) == (128u8 >> x)) by (bit_vector)
        requires
            x < 8,
    ;
    assert(x != y ==> (((b | (128u8 >> x)) & (128u8 >> y) == (128u8 >> y)) == (b & (128u8 >> y) == (128u8
        >> y)))) by (bit_vector)
        requires
            x < 8,
            y < 8,
    ;
}

proof fn lemma_zero_byte(y: u8)
    requires
        y < 8,
    ensures
        (0u8 & (128u8 >> y)) != (128u8 >> y),
{
    assert((0u8 & (128u8 >> y)) != (128u8 >> y)) by (bit_vector)
        requires
            y < 8,
    ;
}

/// Marking a piece sets its bit and keeps every other bit as it was.
pub proof fn lemma_mark_piece_bits(d: Seq<u8>, index: int, j: int)
    requires
        0 <= index,
    ensures
        has_bit(mark_piece(d, index), j) == (j == index || has_bit(d, j)),
{
    let padded = if d.len() <= index {
        d + Seq::new((index + 1 - d.len()) as nat, |i: int| 0u8)
    } else {
        d
    };
    let m = mark_piece(d, index);
    assert(padded.len() > index / 8);
    assert(m.len() == padded.len());
    if j >= 0 && j / 8 < padded.len() {
        let b = padded[j / 8];
        if j / 8 < d.len() {
            assert(padded[j / 8] == d[j / 8]);
        } else {
            assert(padded[j / 8] == 0u8);
            lemma_zero_byte((j % 8) as u8);
        }
        if j / 8 == index / 8 {
            lemma_mask_bits(b, (index % 8) as u8, (j % 8) as u8);
            if j != index {
                assert(j % 8 != index % 8);
            }
        } else {
            assert(m[j / 8] == b);
        }
    } else if j >= 0 {
        assert(j / 8 >= d.len());
    }
}

proof fn lemma_saved_count_bounded(d: Seq<u8>, n: nat)
    ensures
        saved_count(d, n) <= n,
    decreases n,
{
    if n > 0 {
        lemma_saved_count_bounded(d, (n - 1) as nat);
    }
}

proof fn lemma_saved_count_mark(d: Seq<u8>, index: int, n: nat)
    requires
        0 <= index,
    ensures
        saved_count(mark_piece(d, index), n) == saved_count(d, n) + if index < n && !has_bit(d, index) {
            1nat
        } else {
            0nat
        },
    decreases n,
{
    if n > 0 {
        lemma_saved_count_mark(d, index, (n - 1) as nat);
        lemma_mark_piece_bits(d, index, n - 1);
    }
}

/// Saving a piece of the torrent keeps the state consistent with it: the
/// pieces left still count exactly the pieces not yet saved.
pub proof fn lemma_piece_saved_consistent(d: Seq<u8>, pieces_left: int, piece_count: nat, index: int)
    requires
        state_consistent(d, pieces_left, piece_count),
        0 <= index < piece_count,
    ensures
        !has_bit(d, index) ==> pieces_left > 0,
        state_consistent(
            mark_piece(d, index),
            if has_bit(d, index) { pieces_left } else { pieces_left - 1 },
            piece_count,
        ),
{
    lemma_saved_count_mark(d, index, piece_count);
    assert forall|i: int| i >= piece_count implies !#[trigger] has_bit(mark_piece(d, index), i) by {
        lemma_mark_piece_bits(d, index, i);
    }
    if !has_bit(d, index) {
        lemma_saved_count_bounded(mark_piece(d, index), piece_count);
    }
}

/// The bitfield `d` after the pieces `saves` were marked in turn.
pub open spec fn mark_pieces(d: Seq<u8>, saves: Seq<int>) -> Seq<u8>
    decreases saves.len(),
{
    if saves.len() == 0 {
        d
    } else {
        mark_piece(mark_pieces(d, saves.drop_last()), saves.last())
    }
}

/// The count of missing pieces, `left` before the pieces `saves` were
/// saved in turn into the bitfield `d`: each save of a piece not yet marked
/// takes one off.
pub open spec fn pieces_left_after(left: int, d: Seq<u8>, saves: Seq<int>) -> int
    decreases saves.len(),
{
    if saves.len() == 0 {
        left
    } else {
        let before = saves.drop_last();
        pieces_left_after(left, d, before) - if has_bit(mark_pieces(d, before), saves.last()) {
            0int
        } else {
            1int
        }
    }
}

/// Saves of a torrent of `piece_count` pieces, from a state with none
/// saved, in any order and with repeats: exactly the saved pieces are
/// marked, the pieces left are the pieces never saved, a piece saved again
/// is not counted again, and the state stays consistent with the torrent.
pub proof fn lemma_saves_mark_exactly_the_saved_pieces(piece_count: nat, saves: Seq<int>)
    requires
        forall|k: int| 0 <= k < saves.len() ==> 0 <= #[trigger] saves[k] < piece_count,
    ensures
        forall|j: int| #[trigger] has_bit(mark_pieces(Seq::empty(), saves), j) <==> saves.contains(j),
        pieces_left_after(piece_count as int, Seq::empty(), saves) == piece_count - saves.to_set().len(),
        state_consistent(
            mark_pieces(Seq::empty(), saves),
            pieces_left_after(piece_count as int, Seq::empty(), saves),
            piece_count,
        ),
    decreases saves.len(),
{
    broadcast use vstd::set::group_set_axioms, vstd::seq_lib::seq_to_set_is_finite;

    if saves.len() == 0 {
        lemma_saved_count_empty(piece_count);
        assert(saves.to_set() =~= Set::<int>::empty());
    } else {
        let before = saves.drop_last();
        let x = saves.last();
        lemma_saves_mark_exactly_the_saved_pieces(piece_count, before);
        let m = mark_pieces(Seq::<u8>::empty(), before);
        assert(saves =~= before.push(x));
        assert forall|j: int| #[trigger] has_bit(mark_pieces(Seq::empty(), saves), j) <==> saves.contains(j) by {
            lemma_mark_piece_bits(m, x, j);
            if before.contains(j) {
                let k = choose|k: int| 0 <= k < before.len() && before[k] == j;
                assert(saves[k] == j);
            }
            if saves.contains(j) && j != x {
                let k = choose|k: int| 0 <= k < saves.len() && saves[k] == j;
                assert(k < before.len());
                assert(before[k] == j);
            }
        }
        assert(saves.to_set() =~= before.to_set().insert(x)) by {
            assert forall|j: int| saves.to_set().contains(j) <==> before.to_set().insert(x).contains(j) by {
                lemma_mark_piece_bits(m, x, j);
            }
        }
        assert(has_bit(m, x) == before.to_set().contains(x));
        lemma_piece_saved_consistent(
            m,
            pieces_left_after(piece_count as int, Seq::empty(), before),
            piece_count,
            x,
        );
    }
}

impl TorrentStorageState {
    /// The state of a torrent of `pieces_left` pieces before any is saved.
    pub fn new(pieces_left: usize) -> (r: Self)
        ensures
            r.downloaded@ == Seq::<u8>::empty(),
            r.pieces_left == pieces_left,
            state_consistent(r.downloaded@, r.pieces_left as int, pieces_left as nat),
    {
        let r = TorrentStorageState { downloaded: Vec::new(), pieces_left };
        proof {
            lemma_saved_count_empty(pieces_left as nat);
        }
        r
    }

    /// Records that piece `index` was written: the bitfield grows to cover
    /// it and gets its bit; if it was not saved before, one piece fewer is
    /// left and the result is `true`.
    pub fn piece_saved(&mut self, index: usize) -> (newly: bool)
        requires
            index < usize::MAX,
            !has_bit(old(self).downloaded@, index as int) ==> old(self).pieces_left > 0,
        ensures
            newly == !has_bit(old(self).downloaded@, index as int),
            final(self).downloaded@ == mark_piece(old(self).downloaded@, index as int),
            final(self).pieces_left == if newly {
                old(self).pieces_left - 1
            } else {
                old(self).pieces_left as int
            },
    {
        let ghost d0 = self.downloaded@;
        let ghost p0 = self.pieces_left;
        let ghost padded = if d0.len() <= index {
            d0 + Seq::new((index + 1 - d0.len()) as nat, |i: int| 0u8)
        } else {
            d0
        };
        let (block_index, bit) = index_in_bitarray(index);
        while self.downloaded.len() <= index
            invariant
                index < usize::MAX,
                self.pieces_left == p0,
                d0.len() <= self.downloaded@.len(),
                self.downloaded@.len() <= index + 1 || self.downloaded@ == d0,
                self.downloaded@ == d0 + Seq::new(
                    (self.downloaded@.len() - d0.len()) as nat,
                    |i: int| 0u8,
                ),
            decreases index + 1 - self.downloaded@.len(),
        {
            self.downloaded.push(0);
            proof {
                assert(self.downloaded@ =~= d0 + Seq::new(
                    (self.downloaded@.len() - d0.len()) as nat,
                    |i: int| 0u8,
                ));
            }
        }
        proof {
            if d0.len() <= index {
                assert(self.downloaded@ =~= padded);
            } else {
                assert(self.downloaded@ =~= d0);
            }
        }
        let byte = self.downloaded[block_index];
        let newly = byte & bit == 0;
        proof {
            let x = (index % 8) as u8;
            assert(bit == 128u8 >> x);
            assert((byte & (128u8 >> x) == 0) == (byte & (128u8 >> x) != (128u8 >> x))) by (bit_vector)
                requires
                    x < 8,
            ;
            if block_index >= d0.len() {
                lemma_zero_byte(x);
            } else {
                assert(byte == d0[block_index as int]);
            }
        }
        if newly {
            self.pieces_left = self.pieces_left - 1;
        }
        self.downloaded.set(block_index, byte | bit);
        newly
    }
}

proof fn lemma_saved_count_empty(n: nat)
    ensures
        saved_count(Seq::<u8>::empty(), n) == 0,
        forall|i: int| !#[trigger] has_bit(Seq::<u8>::empty(), i),
    decreases n,
{
    if n > 0 {
        lemma_saved_count_empty((n - 1) as nat);
    }
}

/// The bytes of one piece, as storage reads them back.
#[derive(Debug, Clone)]
pub struct TorrentPiece(Vec<u8>);

impl TorrentPiece {
    /// A piece with the bytes `data`.
    pub fn new(data: Vec<u8>) -> (r: Self)
        ensures
            r@ == data@,
    {
        TorrentPiece(data)
    }

    /// The bytes of the piece.
    pub fn as_ref(&self) -> (r: &[u8])
        ensures
            r@ == self@,
    {
        self.0.as_slice()
    }

    /// The `length` bytes of the piece from `begin` on, as a peer asks for
    /// them.
    pub fn block(&self, begin: u32, length: u32) -> (r: Vec<u8>)
        requires
            begin + length <= self@.len(),
        ensures
            r@ == self@.subrange(begin as int, begin + length),
    {
        let n = self.0.len();
        let from = begin as usize;
        assert(from + length as usize <= n);
        let to = from + length as usize;
        vstd::slice::slice_to_vec(vstd::slice::slice_subrange(self.0.as_slice(), from, to))
    }
}

impl View for TorrentPiece {
    type V = Seq<u8>;

    closed spec fn view(&self) -> Seq<u8> {
        self.0@
    }
}

/// Where a torrent is in its life.
#[derive(Debug, PartialEq, Eq, Structural, Clone, Copy)]
pub enum TorrentProcessState {
    Init,
    Download,
    DownloadUpload,
    Upload,
    Finished,
}

/// The state once a block is asked for: a torrent that was only starting
/// downloads, and one that was uploading now does both.
pub open spec fn after_block_request(s: TorrentProcessState) -> TorrentProcessState {
    match s {
        TorrentProcessState::Init => TorrentProcessState::Download,
        TorrentProcessState::Download => TorrentProcessState::Download,
        _ => TorrentProcessState::DownloadUpload,
    }
}

impl TorrentProcessState {
    /// The state once a block is asked for: a torrent that was only
    /// starting downloads, and one that was uploading now does both.
    pub fn on_block_request(self) -> (r: Self)
        ensures
            r == after_block_request(self),
    {
        match self {
            TorrentProcessState::Init => TorrentProcessState::Download,
            TorrentProcessState::Download => TorrentProcessState::Download,
            TorrentProcessState::DownloadUpload => TorrentProcessState::DownloadUpload,
            TorrentProcessState::Upload => TorrentProcessState::DownloadUpload,
            TorrentProcessState::Finished => TorrentProcessState::DownloadUpload,
        }
    }
}

/// Saves piece `index` of a torrent: `data` is written into `storage`, then
/// `state` records the piece; the result says whether the piece is new.
/// A failed write leaves `state` as it was.
pub fn save_piece(
    storage: &mut MmapFlatStorage,
    state: &mut TorrentStorageState,
    index: usize,
    data: Vec<u8>,
) -> (r: Result<bool, FlatStorageError>)
    requires
        old(storage).well_formed(),
        index < old(storage).spec_mapping().len(),
        old(storage).piece_writable(index as int),
        blocks_size(old(storage).spec_mapping()[index as int]) <= data@.len(),
        index < usize::MAX,
        !has_bit(old(state).downloaded@, index as int) ==> old(state).pieces_left > 0,
    ensures
        final(storage).well_formed(),
        final(storage).spec_files() == old(storage).spec_files(),
        final(storage).spec_mapping() == old(storage).spec_mapping(),
        final(storage).spec_contents() == write_blocks(
            old(storage).spec_contents(),
            old(storage).spec_mapping()[index as int],
            data@,
        ),
        final(storage).spec_saved() == add_saved(old(storage).spec_saved(), old(storage).spec_mapping()[index as int]),
        r == Ok::<bool, FlatStorageError>(!has_bit(old(state).downloaded@, index as int)),
        final(state).downloaded@ == mark_piece(old(state).downloaded@, index as int),
        final(state).pieces_left == if has_bit(old(state).downloaded@, index as int) {
            old(state).pieces_left as int
        } else {
            old(state).pieces_left - 1
        },
{
    proof {
        storage.lemma_flat_storage_well_formed();
    }
    match storage.write_piece(index, data) {
        Ok(()) => {},
        Err(e) => {
            return Err(e);
        },
    }
    proof {
        storage.lemma_flat_storage_well_formed();
    }
    let newly = state.piece_saved(index);
    Ok(newly)
}

/// Reads piece `index` of a torrent back from `storage`.
pub fn load_piece(storage: &MmapFlatStorage, index: usize) -> (r: Result<Option<TorrentPiece>, FlatStorageError>)
    requires
        storage.well_formed(),
        index < storage.spec_mapping().len(),
    ensures
        r matches Ok(Some(p)) && p@ == read_blocks(storage.spec_contents(), storage.spec_mapping()[index as int]),
{
    proof {
        storage.lemma_flat_storage_well_formed();
    }
    match storage.read_piece(index) {
        Ok(Some(data)) => Ok(Some(TorrentPiece::new(data))),
        Ok(None) => Ok(None),
        Err(e) => Err(e),
    }
}

} // verus!
