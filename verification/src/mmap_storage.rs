//! Flat storage on memory-mapped files: each piece is read from, and written
//! to, the files that its blocks take bytes from.

use vstd::prelude::*;
use memmap::MmapMut;
use crate::flat_storage::{FlatStorage, FlatStorageFile, FlatStorageError, file_lengths};
use crate::bitarray::has_bit;
use crate::mapping::{
    FileBlock, MmapFlatStorageMapping, mappings_view, piece_offsets_contiguous,
    piece_files_increase, blocks_within_files, blocks_size, lemma_blocks_size_take,
    pieces_to_files, map_pieces_to_files, calculate_saved, saved_in_pieces,
    lemma_pieces_to_files_well_formed, lemma_pieces_cover_files, lemma_saved_within_pieces,
    mapping_well_formed, piece_well_formed, blocks_disjoint, cuttable, lemma_pieces_disjoint, pieces_size,
};

verus! {

#[verifier::external_type_specification]
#[verifier::external_body]
pub struct ExMmapMut(MmapMut);

/// The bytes that a memory map holds.
pub uninterp spec fn mmap_bytes(m: MmapMut) -> Seq<u8>;

/// `<MmapMut as Deref>::deref`: the mapped bytes, to read.
#[verifier::external_body]
fn mmap_slice(m: &MmapMut) -> (r: &[u8])
    ensures
        r@ == mmap_bytes(*m),
{
    std::ops::Deref::deref(m)
}

/// `<MmapMut as DerefMut>::deref_mut`: the mapped bytes, to write; what is
/// written through the slice is what the map holds afterwards.
#[verifier::external_body]
fn mmap_slice_mut(m: &mut MmapMut) -> (r: &mut [u8])
    ensures
        r@ == mmap_bytes(*old(m)),
        mmap_bytes(*final(m)) == final(r)@,
{
    std::ops::DerefMut::deref_mut(m)
}

/// `MmapMut::len`: the number of mapped bytes.
#[verifier::external_body]
fn mmap_len(m: &MmapMut) -> (r: usize)
    ensures
        r == mmap_bytes(*m).len(),
{
    m.len()
}

/// The bytes of a file held in the map `o`; `None` for a file with no map.
pub open spec fn map_contents(o: Option<MmapMut>) -> Option<Seq<u8>> {
    match o {
        Some(m) => Some(mmap_bytes(m)),
        None => None,
    }
}

/// `seq` with the bytes from `at` on replaced by `part`.
pub open spec fn splice(seq: Seq<u8>, at: int, part: Seq<u8>) -> Seq<u8> {
    seq.take(at) + part + seq.skip(at + part.len())
}

/// The bytes of `blocks` read from files whose contents are `contents`
/// (`None` for a file whose map was released: it gives no bytes).
pub open spec fn read_blocks(contents: Seq<Option<Seq<u8>>>, blocks: Seq<FileBlock>) -> Seq<u8>
    decreases blocks.len(),
{
    if blocks.len() == 0 {
        seq![]
    } else {
        let b = blocks.last();
        read_blocks(contents, blocks.drop_last()) + match contents[b.file_index as int] {
            Some(d) => d.subrange(b.file_offset as int, b.file_offset + b.size),
            None => Seq::<u8>::empty(),
        }
    }
}

/// The file contents after the bytes of block `b` were copied from `data`.
pub open spec fn write_block(contents: Seq<Option<Seq<u8>>>, b: FileBlock, data: Seq<u8>) -> Seq<
    Option<Seq<u8>>,
> {
    match contents[b.file_index as int] {
        Some(d) => contents.update(
            b.file_index as int,
            Some(splice(d, b.file_offset as int, data.subrange(b.offset as int, b.offset + b.size))),
        ),
        None => contents,
    }
}

/// The file contents after `blocks` were written, one after the other, from `data`.
pub open spec fn write_blocks(contents: Seq<Option<Seq<u8>>>, blocks: Seq<FileBlock>, data: Seq<u8>) -> Seq<
    Option<Seq<u8>>,
>
    decreases blocks.len(),
{
    if blocks.len() == 0 {
        contents
    } else {
        write_block(write_blocks(contents, blocks.drop_last(), data), blocks.last(), data)
    }
}

/// The saved counters after the sizes of `blocks` were added to the files they come from.
pub open spec fn add_saved(saved: Seq<int>, blocks: Seq<FileBlock>) -> Seq<int>
    decreases blocks.len(),
{
    if blocks.len() == 0 {
        saved
    } else {
        let s = add_saved(saved, blocks.drop_last());
        let b = blocks.last();
        s.update(b.file_index as int, s[b.file_index as int] + b.size)
    }
}

/// There is an entry per file of lengths `lens`, and every file that has
/// its bytes has as many as its length; a file not created yet has none.
pub open spec fn maps_fit(contents: Seq<Option<Seq<u8>>>, lens: Seq<usize>) -> bool {
    &&& contents.len() == lens.len()
    &&& forall|i: int| 0 <= i < contents.len() ==> (#[trigger] contents[i] matches Some(d) ==> d.len() == lens[i])
}

/// Every file that `blocks` take bytes from has its bytes (a block of no
/// bytes needs no file).
pub open spec fn blocks_mapped(contents: Seq<Option<Seq<u8>>>, blocks: Seq<FileBlock>) -> bool {
    forall|k: int| 0 <= k < blocks.len() && (#[trigger] blocks[k]).size > 0 ==> contents[blocks[k].file_index as int] is Some
}

/// Law (files are created lazily): writing creates no file. A file without
/// bytes stays without, and every map keeps its file's length; only
/// `attach_file` gives a file its bytes.
pub proof fn lemma_writes_create_no_file(
    contents: Seq<Option<Seq<u8>>>,
    blocks: Seq<FileBlock>,
    lens: Seq<usize>,
    data: Seq<u8>,
)
    requires
        maps_fit(contents, lens),
        blocks_within_files(blocks, lens),
        forall|k: int| 0 <= k < blocks.len() ==> (#[trigger] blocks[k]).offset + blocks[k].size <= data.len(),
    ensures
        maps_fit(write_blocks(contents, blocks, data), lens),
        forall|i: int| 0 <= i < contents.len() ==> (#[trigger] write_blocks(contents, blocks, data)[i] is Some)
            == (contents[i] is Some),
    decreases blocks.len(),
{
    if blocks.len() > 0 {
        let bs = blocks.drop_last();
        assert forall|k: int| 0 <= k < bs.len() implies (#[trigger] bs[k]).file_index < lens.len()
            && bs[k].file_offset + bs[k].size <= lens[bs[k].file_index as int]
            && bs[k].offset + bs[k].size <= data.len() by {
            assert(bs[k] == blocks[k]);
        }
        lemma_writes_create_no_file(contents, bs, lens, data);
        let w = write_blocks(contents, bs, data);
        let b = blocks.last();
        assert(blocks[blocks.len() - 1] == b);
        let w2 = write_block(w, b, data);
        assert(w2 == write_blocks(contents, blocks, data));
        assert forall|i: int| 0 <= i < w2.len() implies (#[trigger] w2[i] matches Some(d) ==> d.len()
            == lens[i]) && (w2[i] is Some) == (w[i] is Some) by {
            if i == b.file_index && w[i] is Some {
                let d = w[i]->0;
                let part = data.subrange(b.offset as int, b.offset + b.size);
                assert(part.len() == b.size);
                assert(splice(d, b.file_offset as int, part).len() == d.len());
            } else {
                assert(w2[i] == w[i]);
            }
        }
        assert(w2.len() == w.len());
    }
}

proof fn lemma_read_blocks_other_file(
    contents: Seq<Option<Seq<u8>>>,
    blocks: Seq<FileBlock>,
    i: int,
    x: Option<Seq<u8>>,
)
    requires
        0 <= i < contents.len(),
        forall|k: int| 0 <= k < blocks.len() ==> (#[trigger] blocks[k]).file_index != i
            && blocks[k].file_index < contents.len(),
    ensures
        read_blocks(contents.update(i, x), blocks) == read_blocks(contents, blocks),
    decreases blocks.len(),
{
    if blocks.len() > 0 {
        let bs = blocks.drop_last();
        assert forall|k: int| 0 <= k < bs.len() implies (#[trigger] bs[k]).file_index != i
            && bs[k].file_index < contents.len() by {
            assert(bs[k] == blocks[k]);
        }
        lemma_read_blocks_other_file(contents, bs, i, x);
        assert(blocks[blocks.len() - 1] == blocks.last());
    }
}

/// Law: when every file a well-formed piece takes bytes from is mapped,
/// reading the blocks of the piece right after writing `data` to them gives
/// back the first bytes of `data`, as many as the piece has.
#[verifier::rlimit(40)]
#[verifier::spinoff_prover]
pub proof fn lemma_read_after_write(
    contents: Seq<Option<Seq<u8>>>,
    blocks: Seq<FileBlock>,
    lens: Seq<usize>,
    data: Seq<u8>,
)
    requires
        maps_fit(contents, lens),
        blocks_mapped(contents, blocks),
        piece_offsets_contiguous(blocks),
        piece_files_increase(blocks),
        blocks_within_files(blocks, lens),
        blocks_size(blocks) <= data.len(),
    ensures
        read_blocks(write_blocks(contents, blocks, data), blocks) == data.take(blocks_size(blocks) as int),
    decreases blocks.len(),
{
    if blocks.len() == 0 {
        assert(data.take(0) =~= Seq::<u8>::empty());
    } else {
        let bs = blocks.drop_last();
        let b = blocks.last();
        let last = blocks.len() - 1;
        assert(blocks[last] == b);
        assert(blocks.take(last) =~= bs);
        assert forall|k: int| 0 <= k < bs.len() implies #[trigger] bs[k].offset == blocks_size(bs.take(k)) by {
            assert(bs[k] == blocks[k]);
            assert(bs.take(k) =~= blocks.take(k));
        }
        assert forall|j: int, k: int| 0 <= j < k < bs.len() implies #[trigger] bs[j].file_index
            < #[trigger] bs[k].file_index by {
            assert(bs[j] == blocks[j] && bs[k] == blocks[k]);
        }
        assert forall|k: int| 0 <= k < bs.len() implies (#[trigger] bs[k]).file_index < lens.len()
            && bs[k].file_offset + bs[k].size <= lens[bs[k].file_index as int] by {
            assert(bs[k] == blocks[k]);
        }
        assert(b.offset == blocks_size(bs));
        lemma_blocks_size_take(blocks, last);
        assert(blocks.take(last + 1) =~= blocks);
        assert forall|k: int| 0 <= k < bs.len() implies (#[trigger] bs[k]).offset + bs[k].size <= data.len() by {
            lemma_blocks_size_take(blocks, k);
            assert(bs[k] == blocks[k]);
        }
        assert forall|k: int| 0 <= k < bs.len() && (#[trigger] bs[k]).size > 0 implies contents[bs[k].file_index as int]
            is Some by {
            assert(bs[k] == blocks[k]);
        }
        lemma_read_after_write(contents, bs, lens, data);
        lemma_writes_create_no_file(contents, bs, lens, data);
        let w = write_blocks(contents, bs, data);
        let fi = b.file_index as int;
        if w[fi] is Some {
            let d = w[fi]->0;
            let part = data.subrange(b.offset as int, b.offset + b.size);
            let nd = splice(d, b.file_offset as int, part);
            assert forall|k: int| 0 <= k < bs.len() implies (#[trigger] bs[k]).file_index != fi
                && bs[k].file_index < w.len() by {
                assert(blocks[k].file_index < blocks[last].file_index);
            }
            lemma_read_blocks_other_file(w, bs, fi, Some(nd));
            assert(nd.subrange(b.file_offset as int, b.file_offset + b.size) =~= part);
            assert(data.take(b.offset as int) + part =~= data.take(b.offset + b.size));
        } else {
            assert(contents[fi] is None);
            assert(b.size == 0);
            assert(write_block(w, b, data) == w);
            assert(data.take(b.offset as int) =~= data.take(b.offset + b.size));
        }
    }
}

struct FileHandle {
    mmap: Option<MmapMut>,
    saved: usize,
}

/// The place of a file in the pieces: the file, the first piece that holds
/// bytes of it, and where in that piece they start.
#[derive(Debug)]
pub struct FileInfo {
    pub file: FlatStorageFile,
    pub piece: usize,
    pub piece_offset: usize,
}

/// Files laid end to end and cut into pieces, each file held in a memory map.
pub struct MmapFlatStorage {
    files: Vec<FlatStorageFile>,
    file_handles: Vec<FileHandle>,
    mapping: Vec<MmapFlatStorageMapping>,
}

impl MmapFlatStorage {
    /// The files.
    pub closed spec fn spec_files(&self) -> Seq<FlatStorageFile> {
        self.files@
    }

    /// The blocks of each piece.
    pub closed spec fn spec_mapping(&self) -> Seq<Seq<FileBlock>> {
        mappings_view(self.mapping@)
    }

    /// The bytes of each file, `None` for a file whose map was released.
    pub closed spec fn spec_contents(&self) -> Seq<Option<Seq<u8>>> {
        self.file_handles@.map_values(
            |h: FileHandle|
                match h.mmap {
                    Some(m) => Some(mmap_bytes(m)),
                    None => None,
                },
        )
    }

    /// The number of bytes written so far into each file.
    pub closed spec fn spec_saved(&self) -> Seq<int> {
        self.file_handles@.map_values(|h: FileHandle| h.saved as int)
    }

    /// Every file that piece `index` takes bytes from is held in a map.
    pub open spec fn piece_mapped(&self, index: int) -> bool {
        blocks_mapped(self.spec_contents(), self.spec_mapping()[index])
    }

    /// The contents of a well-formed storage fit its files.
    pub proof fn lemma_maps_fit(&self)
        requires
            self.well_formed(),
        ensures
            maps_fit(self.spec_contents(), file_lengths(self.spec_files())),
    {
        assert forall|i: int| 0 <= i < self.spec_contents().len() implies (#[trigger] self.spec_contents()[i] matches Some(
            d,
        ) ==> d.len() == file_lengths(self.spec_files())[i]) by {
            assert(file_lengths(self.spec_files())[i] == self.files@[i].length);
        }
    }

    /// The bytes of a piece read back after `data` was written to it give
    /// the first bytes of `data`.
    pub proof fn lemma_read_back(&self, index: int, data: Seq<u8>)
        requires
            self.well_formed(),
            0 <= index < self.spec_mapping().len(),
            self.piece_mapped(index),
            blocks_size(self.spec_mapping()[index]) <= data.len(),
        ensures
            read_blocks(write_blocks(self.spec_contents(), self.spec_mapping()[index], data), self.spec_mapping()[index])
                == data.take(blocks_size(self.spec_mapping()[index]) as int),
            maps_fit(
                write_blocks(self.spec_contents(), self.spec_mapping()[index], data),
                file_lengths(self.spec_files()),
            ),
    {
        let blocks = self.spec_mapping()[index];
        let lens = file_lengths(self.spec_files());
        self.lemma_maps_fit();
        lemma_read_after_write(self.spec_contents(), blocks, lens, data);
        assert forall|k: int| 0 <= k < blocks.len() implies (#[trigger] blocks[k]).offset + blocks[k].size
            <= data.len() by {
            lemma_blocks_size_take(blocks, k);
        }
        lemma_writes_create_no_file(self.spec_contents(), blocks, lens, data);
    }

    /// There is a handle per file, every map holds as many bytes as its file,
    /// and every piece is made of blocks that follow one another, come from
    /// distinct files and lie inside them.
    pub closed spec fn well_formed(&self) -> bool {
        &&& self.file_handles@.len() == self.files@.len()
        &&& forall|i: int|
            0 <= i < self.files@.len() ==> (#[trigger] self.spec_contents()[i] matches Some(d) ==> d.len()
                == self.files@[i].length)
        &&& forall|p: int|
            0 <= p < self.spec_mapping().len() ==> {
                &&& piece_offsets_contiguous(#[trigger] self.spec_mapping()[p])
                &&& piece_files_increase(self.spec_mapping()[p])
                &&& blocks_within_files(self.spec_mapping()[p], file_lengths(self.files@))
            }
    }
}


proof fn lemma_add_saved_other(saved: Seq<int>, blocks: Seq<FileBlock>, i: int)
    requires
        0 <= i < saved.len(),
        forall|j: int| 0 <= j < blocks.len() ==> (#[trigger] blocks[j]).file_index < saved.len(),
        forall|j: int| 0 <= j < blocks.len() ==> (#[trigger] blocks[j]).file_index != i,
    ensures
        add_saved(saved, blocks).len() == saved.len(),
        add_saved(saved, blocks)[i] == saved[i],
    decreases blocks.len(),
{
    if blocks.len() > 0 {
        let bs = blocks.drop_last();
        assert forall|j: int| 0 <= j < bs.len() implies (#[trigger] bs[j]).file_index != i
            && bs[j].file_index < saved.len() by {
            assert(bs[j] == blocks[j]);
        }
        lemma_add_saved_other(saved, bs, i);
        assert(blocks.last() == blocks[blocks.len() - 1]);
    }
}

/// Copies `len` bytes of `src`, from `from` on, into the map at `at`.
fn copy_into_map(m: &mut MmapMut, at: usize, src: &Vec<u8>, from: usize, len: usize)
    requires
        at + len <= mmap_bytes(*old(m)).len(),
        from + len <= src@.len(),
    ensures
        mmap_bytes(*final(m)) == splice(mmap_bytes(*old(m)), at as int, src@.subrange(from as int, from + len)),
{
    let ghost old_bytes = mmap_bytes(*m);
    let data = mmap_slice_mut(m);
    let data_len = data.len();
    let src_len = src.len();
    let mut j: usize = 0;
    assert(splice(old_bytes, at as int, src@.subrange(from as int, from as int)) =~= old_bytes);
    while j < len
        invariant
            data@.len() == old_bytes.len(),
            data_len == data@.len(),
            src_len == src@.len(),
            at + len <= old_bytes.len(),
            from + len <= src@.len(),
            j <= len,
            data@ == splice(old_bytes, at as int, src@.subrange(from as int, from + j)),
        decreases len - j,
    {
        data[at + j] = src[from + j];
        j += 1;
        assert(data@ =~= splice(old_bytes, at as int, src@.subrange(from as int, from + j)));
    }
}

/// The bytes of the present entries of `contents`, in order.
pub open spec fn present_contents(contents: Seq<Option<Seq<u8>>>) -> Seq<Seq<u8>>
    decreases contents.len(),
{
    if contents.len() == 0 {
        seq![]
    } else {
        present_contents(contents.drop_last()) + match contents.last() {
            Some(d) => seq![d],
            None => Seq::<Seq<u8>>::empty(),
        }
    }
}

/// Law (the reference to a piece read after a write): after `write_piece`
/// wrote `data` to a piece whose files are all mapped, `read_piece` of that
/// piece gives back the first bytes of `data`, as many as the piece has, and
/// the maps still fit their files.
pub proof fn lemma_write_then_read(s: &MmapFlatStorage, index: int, data: Seq<u8>)
    requires
        s.well_formed(),
        0 <= index < s.spec_mapping().len(),
        s.piece_mapped(index),
        blocks_size(s.spec_mapping()[index]) <= data.len(),
    ensures
        read_blocks(write_blocks(s.spec_contents(), s.spec_mapping()[index], data), s.spec_mapping()[index])
            == data.take(blocks_size(s.spec_mapping()[index]) as int),
        maps_fit(write_blocks(s.spec_contents(), s.spec_mapping()[index], data), file_lengths(s.spec_files())),
{
    s.lemma_read_back(index, data);
}

/// The files that `blocks` take bytes from and that have no bytes yet, in
/// the order of the blocks (a block of no bytes needs no file).
pub open spec fn missing_of(contents: Seq<Option<Seq<u8>>>, blocks: Seq<FileBlock>) -> Seq<usize>
    decreases blocks.len(),
{
    if blocks.len() == 0 {
        seq![]
    } else {
        missing_of(contents, blocks.drop_last()) + if contents[blocks.last().file_index as int] is None
            && blocks.last().size > 0 {
            seq![blocks.last().file_index]
        } else {
            Seq::<usize>::empty()
        }
    }
}

proof fn lemma_missing_of(contents: Seq<Option<Seq<u8>>>, blocks: Seq<FileBlock>)
    ensures
        (missing_of(contents, blocks).len() == 0) == blocks_mapped(contents, blocks),
        forall|j: int|
            0 <= j < missing_of(contents, blocks).len() ==> contents[#[trigger] missing_of(contents, blocks)[j] as int]
                is None && exists|k: int|
                0 <= k < blocks.len() && #[trigger] blocks[k].file_index == missing_of(contents, blocks)[j]
                    && blocks[k].size > 0,
    decreases blocks.len(),
{
    if blocks.len() > 0 {
        let bs = blocks.drop_last();
        let b = blocks.last();
        let last = blocks.len() - 1;
        assert(blocks[last] == b);
        lemma_missing_of(contents, bs);
        let ms = missing_of(contents, bs);
        let m = missing_of(contents, blocks);
        assert forall|j: int| 0 <= j < m.len() implies contents[#[trigger] m[j] as int] is None && exists|k: int|
            0 <= k < blocks.len() && #[trigger] blocks[k].file_index == m[j] && blocks[k].size > 0 by {
            if j < ms.len() {
                assert(m[j] == ms[j]);
                let k = choose|k: int| 0 <= k < bs.len() && #[trigger] bs[k].file_index == ms[j] && bs[k].size > 0;
                assert(blocks[k] == bs[k]);
            } else {
                assert(m[j] == b.file_index);
                assert(blocks[last].file_index == m[j]);
            }
        }
        if blocks_mapped(contents, bs) && (contents[b.file_index as int] is Some || b.size == 0) {
            assert forall|k: int| 0 <= k < blocks.len() && (#[trigger] blocks[k]).size > 0 implies contents[blocks[k].file_index as int]
                is Some by {
                if k < last {
                    assert(blocks[k] == bs[k]);
                }
            }
        }
        if blocks_mapped(contents, blocks) {
            assert forall|k: int| 0 <= k < bs.len() && (#[trigger] bs[k]).size > 0 implies contents[bs[k].file_index as int]
                is Some by {
                assert(blocks[k] == bs[k]);
            }
            assert(blocks[last].size > 0 ==> contents[blocks[last].file_index as int] is Some);
        }
    }
}

/// Attaching the map of a file that had none leaves the bytes of every
/// piece whose files all have their bytes as they were.
pub proof fn lemma_attach_keeps_mapped_piece(
    contents: Seq<Option<Seq<u8>>>,
    lens: Seq<usize>,
    blocks: Seq<FileBlock>,
    file_index: int,
    bytes: Seq<u8>,
)
    requires
        maps_fit(contents, lens),
        0 <= file_index < contents.len(),
        contents[file_index] is None,
        bytes.len() == lens[file_index],
        blocks_within_files(blocks, lens),
        blocks_mapped(contents, blocks),
    ensures
        read_blocks(contents.update(file_index, Some(bytes)), blocks) == read_blocks(contents, blocks),
{
    let c2 = contents.update(file_index, Some(bytes));
    assert forall|l: int| 0 <= l < blocks.len() implies run_bytes(c2, #[trigger] blocks[l]) == run_bytes(
        contents,
        blocks[l],
    ) by {
        let b = blocks[l];
        if b.file_index == file_index {
            assert(b.size == 0);
            assert(bytes.subrange(b.file_offset as int, b.file_offset as int) =~= Seq::<u8>::empty());
        }
    }
    lemma_read_blocks_frame(contents, c2, blocks);
}

/// The bytes that block `b` reads from files whose contents are `contents`.
pub open spec fn run_bytes(contents: Seq<Option<Seq<u8>>>, b: FileBlock) -> Seq<u8> {
    match contents[b.file_index as int] {
        Some(d) => d.subrange(b.file_offset as int, b.file_offset + b.size),
        None => Seq::<u8>::empty(),
    }
}

proof fn lemma_read_blocks_frame(c: Seq<Option<Seq<u8>>>, c2: Seq<Option<Seq<u8>>>, rs: Seq<FileBlock>)
    requires
        forall|l: int| 0 <= l < rs.len() ==> run_bytes(c2, #[trigger] rs[l]) == run_bytes(c, rs[l]),
    ensures
        read_blocks(c2, rs) == read_blocks(c, rs),
    decreases rs.len(),
{
    if rs.len() > 0 {
        let bs = rs.drop_last();
        assert forall|l: int| 0 <= l < bs.len() implies run_bytes(c2, #[trigger] bs[l]) == run_bytes(c, bs[l]) by {
            assert(bs[l] == rs[l]);
        }
        lemma_read_blocks_frame(c, c2, bs);
        assert(rs.last() == rs[rs.len() - 1]);
        assert(run_bytes(c2, rs.last()) == run_bytes(c, rs.last()));
    }
}

proof fn lemma_write_block_keeps_run(
    c: Seq<Option<Seq<u8>>>,
    lens: Seq<usize>,
    b: FileBlock,
    data: Seq<u8>,
    r: FileBlock,
)
    requires
        maps_fit(c, lens),
        b.file_index < lens.len(),
        b.file_offset + b.size <= lens[b.file_index as int],
        b.offset + b.size <= data.len(),
        r.file_index < lens.len(),
        r.file_offset + r.size <= lens[r.file_index as int],
        b.file_index == r.file_index ==> b.file_offset + b.size <= r.file_offset || r.file_offset + r.size
            <= b.file_offset,
    ensures
        run_bytes(write_block(c, b, data), r) == run_bytes(c, r),
{
    let w = write_block(c, b, data);
    if b.file_index == r.file_index && c[b.file_index as int] is Some {
        let d = c[b.file_index as int]->0;
        let part = data.subrange(b.offset as int, b.offset + b.size);
        let nd = splice(d, b.file_offset as int, part);
        assert(c[b.file_index as int] matches Some(_));
        assert(w[r.file_index as int] == Some(nd));
        assert(nd.len() == d.len());
        assert(nd.subrange(r.file_offset as int, r.file_offset + r.size) =~= d.subrange(
            r.file_offset as int,
            r.file_offset + r.size,
        ));
    } else {
        assert(w[r.file_index as int] == c[r.file_index as int]);
    }
}

/// Writing the runs `ws` leaves the bytes that the runs `rs` read as they
/// were, when the two share no byte of a file.
proof fn lemma_write_blocks_frame(
    c: Seq<Option<Seq<u8>>>,
    lens: Seq<usize>,
    ws: Seq<FileBlock>,
    data: Seq<u8>,
    rs: Seq<FileBlock>,
)
    requires
        maps_fit(c, lens),
        blocks_within_files(ws, lens),
        forall|k: int| 0 <= k < ws.len() ==> (#[trigger] ws[k]).offset + ws[k].size <= data.len(),
        blocks_within_files(rs, lens),
        blocks_disjoint(ws, rs),
    ensures
        read_blocks(write_blocks(c, ws, data), rs) == read_blocks(c, rs),
    decreases ws.len(),
{
    if ws.len() > 0 {
        let bs = ws.drop_last();
        let b = ws.last();
        let last = ws.len() - 1;
        assert(ws[last] == b);
        assert forall|k: int| 0 <= k < bs.len() implies (#[trigger] bs[k]).file_index < lens.len()
            && bs[k].file_offset + bs[k].size <= lens[bs[k].file_index as int]
            && bs[k].offset + bs[k].size <= data.len() by {
            assert(bs[k] == ws[k]);
        }
        assert forall|k: int, l: int|
            #![trigger bs[k], rs[l]]
            0 <= k < bs.len() && 0 <= l < rs.len() && bs[k].file_index == rs[l].file_index implies bs[k].file_offset
                + bs[k].size <= rs[l].file_offset || rs[l].file_offset + rs[l].size <= bs[k].file_offset by {
            assert(bs[k] == ws[k]);
        }
        lemma_write_blocks_frame(c, lens, bs, data, rs);
        lemma_writes_create_no_file(c, bs, lens, data);
        let w = write_blocks(c, bs, data);
        assert forall|l: int| 0 <= l < rs.len() implies run_bytes(write_block(w, b, data), #[trigger] rs[l])
            == run_bytes(w, rs[l]) by {
            assert(ws[last] == b);
            lemma_write_block_keeps_run(w, lens, b, data, rs[l]);
        }
        lemma_read_blocks_frame(w, write_block(w, b, data), rs);
    }
}

/// The file contents after the pieces `writes` were written in turn, each
/// given by its index in the mapping `m` and the data written to it.
pub open spec fn write_pieces(
    contents: Seq<Option<Seq<u8>>>,
    m: Seq<Seq<FileBlock>>,
    writes: Seq<(int, Seq<u8>)>,
) -> Seq<Option<Seq<u8>>>
    decreases writes.len(),
{
    if writes.len() == 0 {
        contents
    } else {
        write_blocks(write_pieces(contents, m, writes.drop_last()), m[writes.last().0], writes.last().1)
    }
}

proof fn lemma_other_pieces_keep_piece(
    c: Seq<Option<Seq<u8>>>,
    m: Seq<Seq<FileBlock>>,
    piece_size: nat,
    lens: Seq<usize>,
    index: int,
    writes: Seq<(int, Seq<u8>)>,
)
    requires
        maps_fit(c, lens),
        mapping_well_formed(m, piece_size, lens),
        0 <= index < m.len(),
        forall|k: int|
            0 <= k < writes.len() ==> 0 <= (#[trigger] writes[k]).0 < m.len() && writes[k].0 != index
                && blocks_size(m[writes[k].0]) <= writes[k].1.len(),
    ensures
        read_blocks(write_pieces(c, m, writes), m[index]) == read_blocks(c, m[index]),
        maps_fit(write_pieces(c, m, writes), lens),
    decreases writes.len(),
{
    if writes.len() > 0 {
        let before = writes.drop_last();
        let (j, data) = writes.last();
        assert(writes[writes.len() - 1] == writes.last());
        assert forall|k: int|
            0 <= k < before.len() implies 0 <= (#[trigger] before[k]).0 < m.len() && before[k].0 != index
            && blocks_size(m[before[k].0]) <= before[k].1.len() by {
            assert(before[k] == writes[k]);
        }
        lemma_other_pieces_keep_piece(c, m, piece_size, lens, index, before);
        let w = write_pieces(c, m, before);
        let ws = m[j];
        assert(piece_well_formed(ws, pieces_size(m.take(j)), lens));
        assert(piece_well_formed(m[index], pieces_size(m.take(index)), lens));
        assert forall|k: int| 0 <= k < ws.len() implies (#[trigger] ws[k]).offset + ws[k].size <= data.len() by {
            lemma_blocks_size_take(ws, k);
        }
        lemma_pieces_disjoint(m, piece_size, lens, index, j);
        lemma_write_blocks_frame(w, lens, ws, data, m[index]);
        lemma_writes_create_no_file(w, ws, lens, data);
    }
}

/// Law (the reference to a piece read after writes): in a storage laid out
/// as `create` lays it out, a piece whose files are mapped and that `data`
/// was written to reads back as the first bytes of `data`, as many as the
/// piece has, whatever was written to other pieces since.
pub proof fn lemma_piece_reads_back_after_other_writes(
    s: &MmapFlatStorage,
    piece_size: nat,
    index: int,
    data: Seq<u8>,
    later: Seq<(int, Seq<u8>)>,
)
    requires
        s.well_formed(),
        mapping_well_formed(s.spec_mapping(), piece_size, file_lengths(s.spec_files())),
        0 <= index < s.spec_mapping().len(),
        s.piece_mapped(index),
        blocks_size(s.spec_mapping()[index]) <= data.len(),
        forall|k: int|
            0 <= k < later.len() ==> 0 <= (#[trigger] later[k]).0 < s.spec_mapping().len() && later[k].0 != index
                && blocks_size(s.spec_mapping()[later[k].0]) <= later[k].1.len(),
    ensures
        read_blocks(
            write_pieces(
                write_blocks(s.spec_contents(), s.spec_mapping()[index], data),
                s.spec_mapping(),
                later,
            ),
            s.spec_mapping()[index],
        ) == data.take(blocks_size(s.spec_mapping()[index]) as int),
{
    s.lemma_read_back(index, data);
    lemma_other_pieces_keep_piece(
        write_blocks(s.spec_contents(), s.spec_mapping()[index], data),
        s.spec_mapping(),
        piece_size,
        file_lengths(s.spec_files()),
        index,
        later,
    );
}

impl MmapFlatStorage {
    /// Builds the storage of `files` cut into pieces of `piece_size` bytes.
    /// Files are created lazily: the entry of `maps` at a file's position is
    /// the map of the file when it exists already, and `None` when it does
    /// not exist yet; creating the storage creates no file (see
    /// `missing_files` and `attach_file` for the files a write needs). The
    /// bytes already saved in each file are those of the first `piece_count`
    /// pieces that the bitfield `downloaded` holds. Fails with
    /// `AllocateFile` unless there is an entry per file and every map holds
    /// as many bytes as its file.
    pub fn create(
        maps: Vec<Option<MmapMut>>,
        piece_count: usize,
        piece_size: usize,
        files: Vec<FlatStorageFile>,
        downloaded: &[u8],
    ) -> (r: Result<Self, FlatStorageError>)
        requires
            cuttable(piece_size as nat, file_lengths(files@)),
            forall|p: int|
                0 <= p < piece_count ==> #[trigger] has_bit(downloaded@, p) ==> p < pieces_to_files(
                    piece_size as nat,
                    file_lengths(files@),
                ).len(),
        ensures
            r is Ok <==> maps@.len() == files@.len() && forall|i: int|
                0 <= i < files@.len() ==> (#[trigger] maps@[i] matches Some(m) ==> mmap_bytes(m).len()
                    == files@[i].length),
            r matches Ok(s) ==> {
                &&& s.well_formed()
                &&& s.spec_files() == files@
                &&& s.spec_mapping() == pieces_to_files(piece_size as nat, file_lengths(files@))
                &&& mapping_well_formed(s.spec_mapping(), piece_size as nat, file_lengths(files@))
                &&& s.spec_contents() == maps@.map_values(|o: Option<MmapMut>| map_contents(o))
                &&& forall|i: int|
                    0 <= i < files@.len() ==> #[trigger] s.spec_saved()[i] == saved_in_pieces(
                        s.spec_mapping(),
                        downloaded@,
                        i,
                        piece_count as int,
                    )
            },
            r matches Err(e) ==> e == FlatStorageError::AllocateFile,
    {
        if maps.len() != files.len() {
            return Err(FlatStorageError::AllocateFile);
        }
        let mut i: usize = 0;
        while i < maps.len()
            invariant
                maps@.len() == files@.len(),
                i <= maps@.len(),
                forall|j: int| 0 <= j < i ==> (#[trigger] maps@[j] matches Some(m) ==> mmap_bytes(m).len()
                    == files@[j].length),
            decreases maps@.len() - i,
        {
            match &maps[i] {
                Some(m) => {
                    if mmap_len(m) != files[i].length {
                        return Err(FlatStorageError::AllocateFile);
                    }
                },
                None => {},
            }
            i += 1;
        }
        let ghost lens = file_lengths(files@);
        let ghost maps0 = maps@;
        let mapping = map_pieces_to_files(piece_size, files.as_slice());
        let ghost m = mappings_view(mapping@);
        proof {
            lemma_pieces_to_files_well_formed(piece_size, lens);
            lemma_pieces_cover_files(piece_size, lens);
        }
        let mut maps = maps;
        let mut file_handles: Vec<FileHandle> = Vec::new();
        let mut index: usize = 0;
        while index < files.len()
            invariant
                index <= files@.len(),
                lens == file_lengths(files@),
                maps0.len() == files@.len(),
                maps@ == maps0.skip(index as int),
                m == mappings_view(mapping@),
                m == pieces_to_files(piece_size as nat, lens),
                forall|p: int|
                    0 <= p < piece_count ==> #[trigger] has_bit(downloaded@, p) ==> p < m.len(),
                forall|j: int| 0 <= j < lens.len() ==> #[trigger] crate::mapping::file_size_in_pieces(m, j) == lens[j],
                file_handles@.len() == index,
                forall|j: int|
                    0 <= j < index ==> (#[trigger] file_handles@[j]).mmap == maps0[j]
                        && file_handles@[j].saved == saved_in_pieces(m, downloaded@, j, piece_count as int),
            decreases files@.len() - index,
        {
            proof {
                lemma_saved_within_pieces(m, downloaded@, index as int, piece_count as int);
                assert(lens[index as int] == files@[index as int].length);
            }
            let saved = calculate_saved(piece_count, index, mapping.as_slice(), downloaded);
            let mmap = maps.remove(0);
            assert(mmap == maps0[index as int]);
            assert(maps@ =~= maps0.skip(index + 1));
            file_handles.push(FileHandle { mmap, saved });
            index += 1;
        }
        let s = MmapFlatStorage { files, file_handles, mapping };
        proof {
            assert(s.spec_contents() =~= maps0.map_values(|o: Option<MmapMut>| map_contents(o)));
            assert forall|p: int| 0 <= p < s.spec_mapping().len() implies {
                &&& piece_offsets_contiguous(#[trigger] s.spec_mapping()[p])
                &&& piece_files_increase(s.spec_mapping()[p])
                &&& blocks_within_files(s.spec_mapping()[p], file_lengths(s.files@))
            } by {
                assert(piece_well_formed(m[p], crate::mapping::pieces_size(m.take(p)), lens));
            }
        }
        Ok(s)
    }

    /// Where file `file_id` lies in the pieces: the first piece with a block
    /// of it, and where the first such block starts in that piece; `None`
    /// when there is no such file or no piece has a block of it.
    pub fn file_info(&self, file_id: usize) -> (r: Option<FileInfo>)
        ensures
            r is Some <==> file_id < self.spec_files().len() && exists|p: int, k: int|
                0 <= p < self.spec_mapping().len() && 0 <= k < self.spec_mapping()[p].len()
                    && #[trigger] self.spec_mapping()[p][k].file_index == file_id,
            r matches Some(info) ==> {
                &&& info.file.path@ == self.spec_files()[file_id as int].path@
                &&& info.file.length == self.spec_files()[file_id as int].length
                &&& info.piece < self.spec_mapping().len()
                &&& forall|p: int, k: int|
                    0 <= p < info.piece && 0 <= k < self.spec_mapping()[p].len()
                        ==> #[trigger] self.spec_mapping()[p][k].file_index != file_id
                &&& exists|k: int|
                    0 <= k < self.spec_mapping()[info.piece as int].len()
                        && #[trigger] self.spec_mapping()[info.piece as int][k].file_index == file_id
                        && self.spec_mapping()[info.piece as int][k].offset == info.piece_offset
                        && forall|j: int| 0 <= j < k ==> #[trigger] self.spec_mapping()[info.piece as int][j].file_index != file_id
            },
    {
        if file_id >= self.files.len() {
            return None;
        }
        let ghost m = self.spec_mapping();
        let mut piece: usize = 0;
        while piece < self.mapping.len()
            invariant
                m == self.spec_mapping(),
                file_id < self.files@.len(),
                piece <= m.len(),
                forall|p: int, k: int|
                    0 <= p < piece && 0 <= k < m[p].len() ==> #[trigger] m[p][k].file_index != file_id,
            decreases m.len() - piece,
        {
            let blocks = &self.mapping[piece];
            assert(blocks@ == m[piece as int]);
            let mut k: usize = 0;
            while k < blocks.0.len()
                invariant
                    blocks@ == m[piece as int],
                    m == self.spec_mapping(),
                    piece < m.len(),
                    file_id < self.files@.len(),
                    forall|p: int, k: int|
                        0 <= p < piece && 0 <= k < m[p].len() ==> #[trigger] m[p][k].file_index != file_id,
                    k <= blocks@.len(),
                    forall|j: int| 0 <= j < k ==> #[trigger] m[piece as int][j].file_index != file_id,
                decreases blocks@.len() - k,
            {
                let block = blocks.0[k];
                if block.file_index == file_id {
                    assert(m[piece as int][k as int].file_index == file_id);
                    let file = self.files[file_id].clone();
                    assert(forall|j: int| 0 <= j < k ==> #[trigger] self.spec_mapping()[piece as int][j].file_index != file_id);
                    assert(self.spec_mapping()[piece as int][k as int].offset == block.offset);
                    assert(exists|kk: int|
                        0 <= kk < self.spec_mapping()[piece as int].len()
                            && #[trigger] self.spec_mapping()[piece as int][kk].file_index == file_id
                            && self.spec_mapping()[piece as int][kk].offset == block.offset
                            && forall|j: int| 0 <= j < kk ==> #[trigger] self.spec_mapping()[piece as int][j].file_index != file_id);
                    return Some(FileInfo { file, piece, piece_offset: block.offset });
                }
                k += 1;
            }
            piece += 1;
        }
        None
    }

    /// The files that a write of piece `index` puts bytes into and that do
    /// not exist yet, in the order of the piece's blocks; none when every
    /// such file has its map.
    pub fn missing_files(&self, index: usize) -> (r: Vec<usize>)
        requires
            self.well_formed(),
            index < self.spec_mapping().len(),
        ensures
            r@ == missing_of(self.spec_contents(), self.spec_mapping()[index as int]),
            (r@.len() == 0) == self.piece_mapped(index as int),
            forall|j: int|
                0 <= j < r@.len() ==> self.spec_contents()[#[trigger] r@[j] as int] is None && exists|k: int|
                    0 <= k < self.spec_mapping()[index as int].len()
                        && #[trigger] self.spec_mapping()[index as int][k].file_index == r@[j]
                        && self.spec_mapping()[index as int][k].size > 0,
    {
        let ghost contents = self.spec_contents();
        let ghost blocks = self.spec_mapping()[index as int];
        let map_to_files = &self.mapping[index];
        assert(map_to_files@ == blocks);
        let mut r: Vec<usize> = Vec::new();
        let mut k: usize = 0;
        assert(blocks.take(0) =~= Seq::<FileBlock>::empty());
        while k < map_to_files.0.len()
            invariant
                self.well_formed(),
                contents == self.spec_contents(),
                map_to_files@ == blocks,
                blocks_within_files(blocks, file_lengths(self.files@)),
                k <= blocks.len(),
                r@ == missing_of(contents, blocks.take(k as int)),
            decreases blocks.len() - k,
        {
            let file_block = map_to_files.0[k];
            assert(blocks[k as int] == file_block);
            assert(file_block.file_index < self.file_handles@.len());
            let f = &self.file_handles[file_block.file_index];
            assert(contents[file_block.file_index as int] == match f.mmap {
                Some(m) => Some(mmap_bytes(m)),
                None => None::<Seq<u8>>,
            });
            if f.mmap.is_none() && file_block.size > 0 {
                r.push(file_block.file_index);
            }
            assert(blocks.take(k + 1).drop_last() =~= blocks.take(k as int));
            k += 1;
        }
        assert(blocks.take(k as int) =~= blocks);
        proof {
            lemma_missing_of(contents, blocks);
        }
        r
    }

    /// Attaches `map`, the map of file `file_index` once the file was
    /// created, when that file has no map yet and `map` holds as many bytes
    /// as the file; otherwise fails with `AllocateFile` and nothing changes.
    pub fn attach_file(&mut self, file_index: usize, map: MmapMut) -> (r: Result<(), FlatStorageError>)
        requires
            old(self).well_formed(),
        ensures
            final(self).well_formed(),
            final(self).spec_files() == old(self).spec_files(),
            final(self).spec_mapping() == old(self).spec_mapping(),
            final(self).spec_saved() == old(self).spec_saved(),
            r is Ok <==> file_index < old(self).spec_files().len() && old(self).spec_contents()[file_index as int] is None
                && mmap_bytes(map).len() == old(self).spec_files()[file_index as int].length,
            r is Ok ==> final(self).spec_contents() == old(self).spec_contents().update(
                file_index as int,
                Some(mmap_bytes(map)),
            ),
            r is Err ==> final(self).spec_contents() == old(self).spec_contents() && r == Err::<(), FlatStorageError>(
                FlatStorageError::AllocateFile,
            ),
    {
        if file_index >= self.files.len() {
            return Err(FlatStorageError::AllocateFile);
        }
        if self.file_handles[file_index].mmap.is_some() {
            return Err(FlatStorageError::AllocateFile);
        }
        if mmap_len(&map) != self.files[file_index].length {
            return Err(FlatStorageError::AllocateFile);
        }
        let ghost prev_handles = self.file_handles@;
        let ghost prev_contents = self.spec_contents();
        let ghost prev_saved = self.spec_saved();
        let ghost files0 = self.files@;
        let ghost mapping0 = self.mapping@;
        let ghost bytes = mmap_bytes(map);
        let mut handle = FileHandle { mmap: None, saved: 0 };
        self.file_handles.set_and_swap(file_index, &mut handle);
        assert(handle == prev_handles[file_index as int]);
        handle.mmap = Some(map);
        let ghost new_handle = handle;
        self.file_handles.set_and_swap(file_index, &mut handle);
        proof {
            assert(self.file_handles@ == prev_handles.update(file_index as int, new_handle));
            assert(self.spec_contents() =~= prev_contents.update(file_index as int, Some(bytes)));
            assert(self.spec_saved() =~= prev_saved);
            assert(self.files@ == files0);
            assert(self.mapping@ == mapping0);
            assert forall|i: int| 0 <= i < self.files@.len() implies (#[trigger] self.spec_contents()[i] matches Some(d)
                ==> d.len() == self.files@[i].length) by {
                if i != file_index {
                    assert(self.spec_contents()[i] == prev_contents[i]);
                }
            }
            assert(self.spec_mapping() == old(self).spec_mapping());
            assert forall|p: int| 0 <= p < self.spec_mapping().len() implies {
                &&& piece_offsets_contiguous(#[trigger] self.spec_mapping()[p])
                &&& piece_files_increase(self.spec_mapping()[p])
                &&& blocks_within_files(self.spec_mapping()[p], file_lengths(self.files@))
            } by {
                assert(piece_offsets_contiguous(old(self).spec_mapping()[p]));
            }
        }
        Ok(())
    }

    /// The number of pieces.
    pub fn piece_count(&self) -> (r: usize)
        ensures
            r == self.spec_mapping().len(),
    {
        self.mapping.len()
    }

    /// Well formed as flat storage means well formed.
    pub proof fn lemma_flat_storage_well_formed(&self)
        ensures
            self.storage_well_formed() == self.well_formed(),
            FlatStorage::piece_count(self) == self.spec_mapping().len(),
            forall|i: int| #[trigger] self.piece_size(i) == blocks_size(self.spec_mapping()[i]),
    {
    }

    /// Whether `block`, of `len` bytes, can be written as piece `index`: the
    /// piece exists, `len` covers it, and no counter of written bytes
    /// overflows.
    pub fn can_write_piece(&self, index: usize, len: usize) -> (r: bool)
        requires
            self.well_formed(),
        ensures
            r == (index < self.spec_mapping().len() && self.piece_writable(index as int) && self.piece_size(
                index as int,
            ) <= len),
    {
        if index >= self.mapping.len() {
            return false;
        }
        let ghost blocks = self.spec_mapping()[index as int];
        let map_to_files = &self.mapping[index];
        assert(map_to_files@ == blocks);
        let n = map_to_files.0.len();
        let mut total: usize = 0;
        let mut k: usize = 0;
        assert(blocks.take(0) =~= Seq::<FileBlock>::empty());
        while k < n
            invariant
                self.well_formed(),
                index < self.spec_mapping().len(),
                blocks == self.spec_mapping()[index as int],
                map_to_files@ == blocks,
                n == blocks.len(),
                k <= n,
                total == blocks_size(blocks.take(k as int)),
                total <= len,
                forall|j: int|
                    0 <= j < k ==> self.spec_saved()[(#[trigger] blocks[j]).file_index as int] + blocks[j].size
                        <= usize::MAX,
            decreases n - k,
        {
            let block = map_to_files.0[k];
            assert(block == blocks[k as int]);
            proof {
                lemma_blocks_size_take(blocks, k as int);
                assert(blocks_within_files(blocks, file_lengths(self.files@)));
            }
            let saved = self.file_handles[block.file_index].saved;
            assert(saved == self.spec_saved()[block.file_index as int]);
            if saved > usize::MAX - block.size {
                return false;
            }
            if block.size > len - total {
                return false;
            }
            total = total + block.size;
            k += 1;
        }
        assert(blocks.take(n as int) =~= blocks);
        true
    }

    /// The number of bytes written so far into each file.
    pub fn saved(&self) -> (r: Vec<usize>)
        ensures
            r@.len() == self.spec_saved().len(),
            forall|i: int| 0 <= i < r@.len() ==> r@[i] == #[trigger] self.spec_saved()[i],
    {
        let mut r: Vec<usize> = Vec::new();
        let mut i: usize = 0;
        while i < self.file_handles.len()
            invariant
                i <= self.file_handles@.len(),
                r@.len() == i,
                forall|j: int| 0 <= j < i ==> r@[j] == #[trigger] self.spec_saved()[j],
            decreases self.file_handles@.len() - i,
        {
            r.push(self.file_handles[i].saved);
            i += 1;
        }
        r
    }

    /// Takes the maps out of the storage, in the order of the files; the
    /// files then read as having no bytes.
    pub fn release_maps(&mut self) -> (r: Vec<MmapMut>)
        requires
            old(self).well_formed(),
        ensures
            final(self).well_formed(),
            final(self).spec_files() == old(self).spec_files(),
            final(self).spec_mapping() == old(self).spec_mapping(),
            final(self).spec_saved() == old(self).spec_saved(),
            final(self).spec_contents() == Seq::new(old(self).spec_contents().len(), |i: int| None::<Seq<u8>>),
            r@.map_values(|m: MmapMut| mmap_bytes(m)) == present_contents(old(self).spec_contents()),
    {
        let ghost contents0 = self.spec_contents();
        let ghost saved0 = self.spec_saved();
        let ghost handles0 = self.file_handles@;
        let ghost files0 = self.files@;
        let ghost mapping0 = self.mapping@;
        let ghost wf0 = self.well_formed();
        let mut r: Vec<MmapMut> = Vec::new();
        let mut i: usize = 0;
        assert(contents0.take(0) =~= Seq::<Option<Seq<u8>>>::empty());
        while i < self.file_handles.len()
            invariant
                i <= self.file_handles@.len(),
                self.file_handles@.len() == handles0.len(),
                self.files@ == files0,
                self.mapping@ == mapping0,
                wf0,
                handles0.len() == files0.len(),
                contents0 == handles0.map_values(
                    |h: FileHandle|
                        match h.mmap {
                            Some(m) => Some(mmap_bytes(m)),
                            None => None,
                        },
                ),
                forall|j: int| 0 <= j < i ==> (#[trigger] self.file_handles@[j]).mmap is None,
                forall|j: int| i <= j < handles0.len() ==> #[trigger] self.file_handles@[j] == handles0[j],
                forall|j: int| 0 <= j < handles0.len() ==> (#[trigger] self.file_handles@[j]).saved == handles0[j].saved,
                r@.map_values(|m: MmapMut| mmap_bytes(m)) == present_contents(contents0.take(i as int)),
            decreases handles0.len() - i,
        {
            let mut handle = FileHandle { mmap: None, saved: 0 };
            self.file_handles.set_and_swap(i, &mut handle);
            let taken = handle.mmap.take();
            let ghost before = r@;
            match taken {
                Some(m) => {
                    r.push(m);
                },
                None => {},
            }
            self.file_handles.set_and_swap(i, &mut handle);
            proof {
                assert(contents0.take(i + 1).drop_last() =~= contents0.take(i as int));
                assert(contents0.take(i + 1).last() == contents0[i as int]);
                assert(r@.map_values(|m: MmapMut| mmap_bytes(m)) =~= present_contents(contents0.take(i + 1)));
            }
            i += 1;
        }
        proof {
            assert(contents0.take(i as int) =~= contents0);
            assert(self.spec_contents() =~= Seq::new(contents0.len(), |i: int| None::<Seq<u8>>));
            assert(self.spec_saved() =~= saved0);
            assert(self.file_handles@.len() == self.files@.len());
            assert(self.spec_mapping() == mappings_view(mapping0));
            assert forall|i: int| 0 <= i < self.files@.len() implies (#[trigger] self.spec_contents()[i] matches Some(
                d,
            ) ==> d.len() == self.files@[i].length) by {
                assert(self.spec_contents()[i] is None);
            }
            assert forall|p: int| 0 <= p < self.spec_mapping().len() implies {
                &&& piece_offsets_contiguous(#[trigger] self.spec_mapping()[p])
                &&& piece_files_increase(self.spec_mapping()[p])
                &&& blocks_within_files(self.spec_mapping()[p], file_lengths(self.files@))
            } by {
                assert(old(self).spec_mapping() == self.spec_mapping());
                assert(old(self).files@ == self.files@);
                assert(piece_offsets_contiguous(old(self).spec_mapping()[p]));
            }
        }
        r
    }
}

impl FlatStorage for MmapFlatStorage {
    closed spec fn storage_well_formed(&self) -> bool {
        self.well_formed()
    }

    closed spec fn piece_count(&self) -> nat {
        self.spec_mapping().len()
    }

    closed spec fn piece_size(&self, index: int) -> nat {
        blocks_size(self.spec_mapping()[index])
    }

    closed spec fn piece_writable(&self, index: int) -> bool {
        forall|k: int|
            0 <= k < self.spec_mapping()[index].len() ==> self.spec_saved()[(
            #[trigger] self.spec_mapping()[index][k]).file_index as int]
                + self.spec_mapping()[index][k].size <= usize::MAX
    }

    fn files(&self) -> (r: &[FlatStorageFile])
        ensures
            r@ == self.spec_files(),
    {
        self.files.as_slice()
    }

    fn read_piece(&self, index: usize) -> (r: Result<Option<Vec<u8>>, FlatStorageError>)
        ensures
            r matches Ok(Some(v)) && v@ == read_blocks(self.spec_contents(), self.spec_mapping()[index as int]),
    {
        let ghost contents = self.spec_contents();
        let ghost blocks = self.spec_mapping()[index as int];
        let ghost lens = file_lengths(self.files@);
        let map_to_files = &self.mapping[index];
        assert(map_to_files@ == blocks);
        let mut result: Vec<u8> = Vec::new();
        let mut k: usize = 0;
        assert(blocks.take(0) =~= Seq::<FileBlock>::empty());
        while k < map_to_files.0.len()
            invariant
                self.well_formed(),
                contents == self.spec_contents(),
                lens == file_lengths(self.files@),
                map_to_files@ == blocks,
                blocks_within_files(blocks, lens),
                k <= blocks.len(),
                result@ == read_blocks(contents, blocks.take(k as int)),
            decreases blocks.len() - k,
        {
            let file_block = map_to_files.0[k];
            assert(blocks[k as int] == file_block);
            let f = &self.file_handles[file_block.file_index];
            assert(contents[file_block.file_index as int] == match f.mmap {
                Some(m) => Some(mmap_bytes(m)),
                None => None::<Seq<u8>>,
            });
            let ghost before = result@;
            match &f.mmap {
                Some(m) => {
                    let data = mmap_slice(m);
                    let part = vstd::slice::slice_subrange(
                        data,
                        file_block.file_offset,
                        file_block.file_offset + file_block.size,
                    );
                    result.extend_from_slice(part);
                },
                None => {},
            }
            assert(blocks.take(k + 1).drop_last() =~= blocks.take(k as int));
            k += 1;
        }
        assert(blocks.take(k as int) =~= blocks);
        Ok(Some(result))
    }

    fn write_piece(&mut self, index: usize, block: Vec<u8>) -> (r: Result<(), FlatStorageError>)
        ensures
            r is Ok,
            final(self).spec_files() == old(self).spec_files(),
            final(self).spec_mapping() == old(self).spec_mapping(),
            final(self).spec_contents() == write_blocks(
                old(self).spec_contents(),
                old(self).spec_mapping()[index as int],
                block@,
            ),
            final(self).spec_saved() == add_saved(old(self).spec_saved(), old(self).spec_mapping()[index as int]),
    {
        let ghost blocks = self.spec_mapping()[index as int];
        let ghost contents0 = self.spec_contents();
        let ghost saved0 = self.spec_saved();
        let ghost lens = file_lengths(self.files@);
        let ghost files0 = self.files@;
        let ghost mapping0 = self.mapping@;
        let n = self.mapping[index].0.len();
        let mut k: usize = 0;
        assert(saved0.len() == lens.len());
        assert(blocks.take(0) =~= Seq::<FileBlock>::empty());
        while k < n
            invariant
                0 <= index < self.mapping@.len(),
                files0 == self.files@,
                mapping0 == self.mapping@,
                saved0.len() == lens.len(),
                blocks == self.spec_mapping()[index as int],
                n == blocks.len(),
                k <= n,
                lens == file_lengths(self.files@),
                self.well_formed(),
                blocks.len() > 0 ==> blocks_size(blocks) <= block@.len(),
                self.spec_contents() == write_blocks(contents0, blocks.take(k as int), block@),
                self.spec_saved() == add_saved(saved0, blocks.take(k as int)),
                forall|j: int|
                    0 <= j < blocks.len() ==> saved0[(#[trigger] blocks[j]).file_index as int] + blocks[j].size
                        <= usize::MAX,
            decreases n - k,
        {
            let file_block = self.mapping[index].0[k];
            assert(file_block == blocks[k as int]);
            let fi = file_block.file_index;
            let ghost prev_contents = self.spec_contents();
            let ghost prev_saved = self.spec_saved();
            let ghost prev_handles = self.file_handles@;
            proof {
                lemma_blocks_size_take(blocks, k as int);
                assert forall|j: int| 0 <= j < k implies (#[trigger] blocks.take(k as int)[j]).file_index != fi by {
                    assert(blocks.take(k as int)[j] == blocks[j]);
                    assert(blocks[j].file_index < blocks[k as int].file_index);
                }
                assert(saved0.len() == lens.len());
                assert forall|j: int| 0 <= j < k implies (#[trigger] blocks.take(k as int)[j]).file_index
                    < saved0.len() by {
                    assert(blocks.take(k as int)[j] == blocks[j]);
                }
                lemma_add_saved_other(saved0, blocks.take(k as int), fi as int);
                assert(blocks_within_files(blocks, lens));
                assert(blocks[k as int].file_index < lens.len());
            }
            let mut handle = FileHandle { mmap: None, saved: 0 };
            self.file_handles.set_and_swap(fi, &mut handle);
            assert(handle == prev_handles[fi as int]);
            assert(prev_contents[fi as int] == match handle.mmap {
                Some(m) => Some(mmap_bytes(m)),
                None => None::<Seq<u8>>,
            });
            assert(lens[fi as int] == files0[fi as int].length);
            assert(prev_saved[fi as int] == handle.saved);
            handle.saved = handle.saved + file_block.size;
            match handle.mmap.take() {
                Some(mut m) => {
                    assert(mmap_bytes(m).len() == lens[fi as int]);
                    copy_into_map(&mut m, file_block.file_offset, &block, file_block.offset, file_block.size);
                    handle.mmap = Some(m);
                },
                None => {},
            }
            let ghost new_handle = handle;
            self.file_handles.set_and_swap(fi, &mut handle);
            proof {
                assert(self.file_handles@ == prev_handles.update(fi as int, new_handle));
                assert(blocks.take(k + 1).drop_last() =~= blocks.take(k as int));
                assert(blocks.take(k + 1).last() == file_block);
                assert(self.spec_contents() =~= write_block(prev_contents, file_block, block@));
                assert(self.spec_saved() =~= prev_saved.update(fi as int, prev_saved[fi as int] + file_block.size));
                assert forall|i: int| 0 <= i < self.files@.len() implies (#[trigger] self.spec_contents()[i] matches Some(d)
                    ==> d.len() == self.files@[i].length) by {
                    if i != fi {
                        assert(self.spec_contents()[i] == prev_contents[i]);
                    }
                }
            }
            k += 1;
        }
        assert(blocks.take(k as int) =~= blocks);
        Ok(())
    }
}

} // verus!
