//! The storage interface: a torrent's files laid end to end and read or
//! written a piece at a time.

use vstd::prelude::*;

verus! {

/// One file of a torrent: where it is stored, relative to the download
/// directory, and how many bytes it has.
#[derive(Debug)]
pub struct FlatStorageFile {
    pub path: String,
    pub length: usize,
}

impl Clone for FlatStorageFile {
    fn clone(&self) -> (r: Self)
        ensures
            r.path@ == self.path@,
            r.length == self.length,
    {
        FlatStorageFile { path: self.path.clone(), length: self.length }
    }
}

/// The lengths of `files`, in order.
pub open spec fn file_lengths(files: Seq<FlatStorageFile>) -> Seq<usize> {
    files.map_values(|f: FlatStorageFile| f.length)
}

/// The index of a piece.
pub struct FlatStoragePieceIndex(pub usize);

impl FlatStoragePieceIndex {
    /// Wraps a piece index.
    pub fn from(value: usize) -> (r: Self)
        ensures
            r.0 == value,
    {
        FlatStoragePieceIndex(value)
    }

    /// The wrapped piece index.
    pub fn deref(&self) -> (r: &usize)
        ensures
            *r == self.0,
    {
        &self.0
    }
}

/// Flat storage of files of different sizes, read and written a piece at a
/// time. Files are created lazily, when a write first puts bytes into them.
pub trait FlatStorage {
    /// The storage is consistent.
    spec fn storage_well_formed(&self) -> bool;

    /// The number of pieces.
    spec fn piece_count(&self) -> nat;

    /// The number of bytes in piece `index`.
    spec fn piece_size(&self, index: int) -> nat;

    /// Piece `index` can be written without a counter of written bytes overflowing.
    spec fn piece_writable(&self, index: int) -> bool;

    /// The files.
    fn files(&self) -> &[FlatStorageFile]
        requires
            self.storage_well_formed(),
    ;

    /// The bytes of piece `index`.
    fn read_piece(&self, index: usize) -> Result<Option<Vec<u8>>, FlatStorageError>
        requires
            self.storage_well_formed(),
            index < self.piece_count(),
    ;

    /// Writes `block` as piece `index`.
    fn write_piece(&mut self, index: usize, block: Vec<u8>) -> (r: Result<(), FlatStorageError>)
        requires
            old(self).storage_well_formed(),
            index < old(self).piece_count(),
            old(self).piece_writable(index as int),
            old(self).piece_size(index as int) <= block@.len(),
        ensures
            final(self).storage_well_formed(),
    ;
}

/// What can go wrong when a piece is read or written.
#[derive(Debug, Clone, Copy, PartialEq, Eq, Structural)]
pub enum FlatStorageError {
    AllocateFile,
    ReadBlock,
    WriteBlock,
}

} // verus!
