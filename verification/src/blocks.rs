//! Pieces put together block by block as the blocks arrive from peers, and
//! the blocks that were asked for and are still awaited.

use std::collections::HashMap;
use vstd::prelude::*;
use crate::bitarray::{bit_mask, index_in_bitarray};
use crate::mmap_storage::splice;
use crate::message::Message;
use crate::peer_loop::{bytes_equal, sha1_digest, sha1_of};
use crate::bitarray::has_bit;
use crate::bitarray::bit_by_index;
use crate::pieces::{block_from_piece, block_of, count_parts, parts_needed, Block, BLOCK_SIZE};
use crate::registry::TorrentProcessStats;
use crate::storage::{after_block_request, TorrentProcessState};

verus! {

broadcast use vstd::std_specs::hash::group_hash_axioms;

/// The key under which a block is awaited: its three numbers side by side.
pub open spec fn block_key(b: Block) -> u128 {
    ((b.piece as u128) << 64u128) | ((b.begin as u128) << 32u128) | (b.length as u128)
}

/// The key under which `b` is awaited.
pub fn key_of(b: Block) -> (r: u128)
    ensures
        r == block_key(b),
{
    ((b.piece as u128) << 64u128) | ((b.begin as u128) << 32u128) | (b.length as u128)
}

/// Distinct blocks are awaited under distinct keys.
pub proof fn lemma_block_key_injective(a: Block, b: Block)
    ensures
        block_key(a) == block_key(b) ==> a == b,
{
    let (ap, ab, al) = (a.piece, a.begin, a.length);
    let (bp, bb, bl) = (b.piece, b.begin, b.length);
    assert((((ap as u128) << 64u128) | ((ab as u128) << 32u128) | (al as u128)) == (((bp as u128) << 64u128)
        | ((bb as u128) << 32u128) | (bl as u128)) ==> ap == bp && ab == bb && al == bl) by (bit_vector);
}

/// A piece being put together: its bytes, a bit per block that arrived, how
/// many blocks are still missing, and whether it is whole.
#[derive(Debug)]
pub struct PieceAssembly {
    pub data: Vec<u8>,
    pub blocks: Vec<u8>,
    pub blocks_to_download: usize,
    pub downloaded: bool,
}

/// The bitfield of blocks `blocks` with the bit of block `index` set, when
/// the bitfield reaches that far.
pub open spec fn mark_block(blocks: Seq<u8>, index: int) -> Seq<u8> {
    if index / 8 < blocks.len() {
        blocks.update(index / 8, blocks[index / 8] | bit_mask(index))
    } else {
        blocks
    }
}

/// Copies `src` into `dst` from `at` on.
fn copy_into(dst: &mut Vec<u8>, at: usize, src: &[u8])
    requires
        at + src@.len() <= old(dst)@.len(),
    ensures
        final(dst)@ == splice(old(dst)@, at as int, src@),
{
    let ghost start = dst@;
    let dst_len = dst.len();
    let mut j: usize = 0;
    assert(splice(start, at as int, src@.take(0)) =~= start);
    while j < src.len()
        invariant
            at + src@.len() <= start.len(),
            dst_len == start.len(),
            dst@.len() == start.len(),
            j <= src@.len(),
            dst@ == splice(start, at as int, src@.take(j as int)),
        decreases src@.len() - j,
    {
        dst.set(at + j, src[j]);
        j += 1;
        assert(dst@ =~= splice(start, at as int, src@.take(j as int)));
    }
    assert(src@.take(src@.len() as int) =~= src@);
}

/// A block of `data` for piece `piece_index`, from `begin` on, arrived from
/// a peer whose flag `downloading` said it was busy: the peer is free again.
/// The block is no longer awaited; the peer it was awaited from, if any, is
/// returned so that it is freed too. Its bytes go into the piece and its
/// bit is set; when it was the last block missing, the piece is whole and
/// its index is returned as well.
pub fn message_piece(
    pieces: &mut Vec<PieceAssembly>,
    blocks_downloading: &mut HashMap<u128, u128>,
    downloading: &mut bool,
    piece_index: u32,
    begin: u32,
    data: Vec<u8>,
) -> (r: (Option<u128>, Option<usize>))
    requires
        piece_index < old(pieces)@.len(),
        begin + data@.len() <= old(pieces)@[piece_index as int].data@.len(),
        old(pieces)@[piece_index as int].blocks_to_download > 0,
    ensures
        !*final(downloading),
        ({
            let key = block_key(Block { piece: piece_index, begin, length: data@.len() as u32 });
            &&& r.0 == if old(blocks_downloading)@.dom().contains(key) {
                Some(old(blocks_downloading)@[key])
            } else {
                None
            }
            &&& final(blocks_downloading)@ == old(blocks_downloading)@.remove(key)
        }),
        final(pieces)@.len() == old(pieces)@.len(),
        forall|i: int|
            0 <= i < old(pieces)@.len() && i != piece_index ==> #[trigger] final(pieces)@[i] == old(pieces)@[i],
        ({
            let before = old(pieces)@[piece_index as int];
            let after = final(pieces)@[piece_index as int];
            &&& after.data@ == splice(before.data@, begin as int, data@)
            &&& after.blocks@ == mark_block(before.blocks@, begin as int / BLOCK_SIZE as int)
            &&& after.blocks_to_download == before.blocks_to_download - 1
            &&& after.downloaded == (before.downloaded || before.blocks_to_download == 1)
            &&& r.1 == if before.blocks_to_download == 1 {
                Some(piece_index as usize)
            } else {
                None
            }
        }),
{
    *downloading = false;
    let block = Block { piece: piece_index, begin, length: data.len() as u32 };
    let other = blocks_downloading.remove(&key_of(block));
    let index = piece_index as usize;
    let ghost before = pieces@;
    let mut piece = pieces.remove(index);
    let block_index = begin as usize / BLOCK_SIZE;
    let (block_index_byte, block_index_bit) = index_in_bitarray(block_index);
    copy_into(&mut piece.data, begin as usize, data.as_slice());
    if block_index_byte < piece.blocks.len() {
        let v = piece.blocks[block_index_byte];
        piece.blocks.set(block_index_byte, v | block_index_bit);
    }
    piece.blocks_to_download = piece.blocks_to_download - 1;
    let mut whole: Option<usize> = None;
    if piece.blocks_to_download == 0 {
        piece.downloaded = true;
        whole = Some(index);
    }
    pieces.insert(index, piece);
    proof {
        assert forall|i: int| 0 <= i < before.len() && i != piece_index implies #[trigger] pieces@[i] == before[i] by {
            if i < index {
                assert(pieces@[i] == before[i]);
            } else {
                assert(pieces@[i] == before[i]);
            }
        }
    }
    (other, whole)
}

/// A peer as block downloads see it: its id, whether it is connected, and,
/// while connected, whether it chokes us, the bitfield of its pieces and
/// whether a block is being fetched from it.
#[derive(Debug)]
pub struct BlockPeer {
    pub id: u128,
    pub connected: bool,
    pub chocked: bool,
    pub pieces: Vec<u8>,
    pub downloading: bool,
}

/// No two peers share an id.
pub open spec fn ids_distinct(peers: Seq<BlockPeer>) -> bool {
    forall|i: int, j: int| 0 <= i < peers.len() && 0 <= j < peers.len() && i != j ==> #[trigger] peers[i].id
        != #[trigger] peers[j].id
}

/// The peer with id `id` is connected and a block is being fetched from it.
pub open spec fn busy(peers: Seq<BlockPeer>, id: u128) -> bool {
    exists|j: int| 0 <= j < peers.len() && #[trigger] peers[j].id == id && peers[j].connected && peers[j].downloading
}

/// Where the peer with id `id` stands in `peers`.
fn find_peer(peers: &Vec<BlockPeer>, id: u128) -> (r: Option<usize>)
    ensures
        match r {
            Some(j) => j < peers@.len() && peers@[j as int].id == id,
            None => forall|j: int| 0 <= j < peers@.len() ==> #[trigger] peers@[j].id != id,
        },
{
    let mut j: usize = 0;
    while j < peers.len()
        invariant
            j <= peers@.len(),
            forall|k: int| 0 <= k < j ==> #[trigger] peers@[k].id != id,
        decreases peers@.len() - j,
    {
        if peers[j].id == id {
            return Some(j);
        }
        j += 1;
    }
    None
}

/// Peer `peer` is asked for `block`, in a torrent whose state is `state`:
/// the torrent is downloading from then on. When another peer, or this one,
/// is already fetching the block, nothing more happens. Otherwise, when the
/// peer is connected, does not choke us and is not busy, it becomes busy,
/// the block is awaited from it and the request to send it is returned.
pub fn command_download_block(
    state: TorrentProcessState,
    blocks_downloading: &mut HashMap<u128, u128>,
    peers: &mut Vec<BlockPeer>,
    peer: usize,
    block: Block,
) -> (r: (TorrentProcessState, Option<Message>))
    requires
        peer < old(peers)@.len(),
        ids_distinct(old(peers)@),
    ensures
        r.0 == after_block_request(state),
        ({
            let key = block_key(block);
            let taken = old(blocks_downloading)@.dom().contains(key) && busy(
                old(peers)@,
                old(blocks_downloading)@[key],
            );
            let p = old(peers)@[peer as int];
            let sends = !taken && p.connected && !p.chocked && !p.downloading;
            &&& r.1 is Some <==> sends
            &&& sends ==> {
                &&& r.1 == Some(Message::Request { index: block.piece, begin: block.begin, length: block.length })
                &&& final(peers)@.len() == old(peers)@.len()
                &&& forall|j: int| 0 <= j < old(peers)@.len() && j != peer ==> #[trigger] final(peers)@[j] == old(peers)@[j]
                &&& final(peers)@[peer as int] == (BlockPeer { downloading: true, ..p })
                &&& final(blocks_downloading)@ == old(blocks_downloading)@.insert(key, p.id)
            }
            &&& !sends ==> final(peers)@ == old(peers)@ && final(blocks_downloading)@ == old(blocks_downloading)@
        }),
{
    let new_state = state.on_block_request();
    let key = key_of(block);
    match blocks_downloading.get(&key) {
        Some(other) => {
            match find_peer(peers, *other) {
                Some(j) => {
                    if peers[j].connected && peers[j].downloading {
                        return (new_state, None);
                    }
                    proof {
                        assert forall|k: int| 0 <= k < peers@.len() && #[trigger] peers@[k].id == *other implies !(
                        peers@[k].connected && peers@[k].downloading) by {
                            if k != j {
                                assert(peers@[k].id != peers@[j as int].id);
                            }
                        }
                    }
                },
                None => {},
            }
        },
        None => {},
    }
    if !(peers[peer].connected && !peers[peer].chocked && !peers[peer].downloading) {
        return (new_state, None);
    }
    let ghost before = peers@;
    let p = peers.remove(peer);
    let BlockPeer { id, connected, chocked, pieces, downloading: _ } = p;
    peers.insert(peer, BlockPeer { id, connected, chocked, pieces, downloading: true });
    proof {
        assert forall|j: int| 0 <= j < before.len() && j != peer implies #[trigger] peers@[j] == before[j] by {
            if j < peer {
                assert(peers@[j] == before[j]);
            } else {
                assert(peers@[j] == before[j]);
            }
        }
    }
    blocks_downloading.insert(key, id);
    (new_state, Some(Message::Request { index: block.piece, begin: block.begin, length: block.length }))
}

/// Piece `p` is ready to be put together from the blocks of a piece of
/// `piece_length` bytes: its bytes are all zero, it has a clear bit per
/// block, every block is missing and it is not whole.
pub open spec fn ready_piece(p: PieceAssembly, piece_length: usize) -> bool {
    let blocks_count = parts_needed(piece_length as int, BLOCK_SIZE as int);
    &&& p.data@ == Seq::new(piece_length as nat, |i: int| 0u8)
    &&& p.blocks@ == Seq::new(parts_needed(blocks_count, 8) as nat, |i: int| 0u8)
    &&& p.blocks_to_download == blocks_count
    &&& !p.downloaded
}

/// `n` zero bytes.
fn zeros(n: usize) -> (r: Vec<u8>)
    ensures
        r@ == Seq::new(n as nat, |i: int| 0u8),
{
    let mut r: Vec<u8> = Vec::new();
    let mut i: usize = 0;
    while i < n
        invariant
            i <= n,
            r@ == Seq::new(i as nat, |k: int| 0u8),
        decreases n - i,
    {
        r.push(0);
        i += 1;
        assert(r@ =~= Seq::new(i as nat, |k: int| 0u8));
    }
    r
}

impl PieceAssembly {
    /// A piece of `piece_length` bytes, ready to be put together.
    pub fn ready(piece_length: usize) -> (r: Self)
        ensures
            ready_piece(r, piece_length),
    {
        let blocks_count = count_parts(piece_length, BLOCK_SIZE);
        let bitfield_length = count_parts(blocks_count, 8);
        PieceAssembly {
            data: zeros(piece_length),
            blocks: zeros(bitfield_length),
            blocks_to_download: blocks_count,
            downloaded: false,
        }
    }
}

/// The ids of the connected peers among `peers`, in order.
pub open spec fn connected_ids(peers: Seq<BlockPeer>) -> Seq<u128>
    decreases peers.len(),
{
    if peers.len() == 0 {
        seq![]
    } else {
        connected_ids(peers.drop_last()) + if peers.last().connected {
            seq![peers.last().id]
        } else {
            Seq::<u128>::empty()
        }
    }
}

fn connected_peer_ids(peers: &[BlockPeer]) -> (r: Vec<u128>)
    ensures
        r@ == connected_ids(peers@),
{
    let mut r: Vec<u128> = Vec::new();
    let mut j: usize = 0;
    assert(peers@.take(0) =~= Seq::<BlockPeer>::empty());
    while j < peers.len()
        invariant
            j <= peers@.len(),
            r@ == connected_ids(peers@.take(j as int)),
        decreases peers@.len() - j,
    {
        assert(peers@.take(j + 1).drop_last() =~= peers@.take(j as int));
        if peers[j].connected {
            r.push(peers[j].id);
        }
        j += 1;
    }
    assert(peers@.take(j as int) =~= peers@);
    r
}

/// What the check of a piece that arrived whole decides.
#[derive(Debug)]
pub enum PieceCheck {
    /// There is no such piece.
    WrongIndex,
    /// The piece does not match its digest and is put together again.
    Redownload,
    /// The piece is accepted: the peers with the ids `have` are told that we
    /// have it; `finished` says that nothing is left, so the torrent only
    /// uploads from then on, and otherwise the next block is fetched.
    Accepted { have: Vec<u128>, finished: bool },
}

/// The counters can take the bytes of a piece of `len` bytes that arrived.
pub open spec fn stats_take(stats: TorrentProcessStats, len: nat) -> bool {
    stats.downloaded + len <= usize::MAX && len <= stats.left
}

/// The check of piece `piece`, of `pieces` (becoming `pieces2`) in a
/// torrent whose pieces have the lengths `lengths`, with counters `stats`
/// (becoming `stats2`), state `state` (becoming `state2`) and peers
/// `peers`, when its digest matches (`matches`) or not, answers `r`.
pub open spec fn piece_checked(
    pieces: Seq<PieceAssembly>,
    pieces2: Seq<PieceAssembly>,
    lengths: Seq<usize>,
    stats: TorrentProcessStats,
    stats2: TorrentProcessStats,
    state: TorrentProcessState,
    state2: TorrentProcessState,
    peers: Seq<BlockPeer>,
    piece: int,
    matches: bool,
    r: PieceCheck,
) -> bool {
    if piece >= pieces.len() {
        r is WrongIndex && pieces2 == pieces && stats2 == stats && state2 == state
    } else if !matches {
        &&& r is Redownload
        &&& pieces2.len() == pieces.len()
        &&& forall|i: int| 0 <= i < pieces.len() && i != piece ==> #[trigger] pieces2[i] == pieces[i]
        &&& ready_piece(pieces2[piece], lengths[piece])
        &&& stats2 == stats && state2 == state
    } else {
        let len = pieces[piece].data@.len();
        let left = stats.left - len;
        &&& r matches PieceCheck::Accepted { have, finished } && have@ == connected_ids(peers) && finished == (left
            == 0)
        &&& pieces2 == pieces
        &&& stats2 == TorrentProcessStats { downloaded: (stats.downloaded + len) as usize, left: left as usize, ..stats }
        &&& state2 == if left == 0 {
            TorrentProcessState::Upload
        } else {
            state
        }
    }
}

/// Piece `piece` arrived whole and `digest` is the digest of its bytes: it
/// is checked against `piece_hashes` and decided on (see `piece_checked`).
pub fn piece_downloaded(
    pieces: &mut Vec<PieceAssembly>,
    piece_hashes: &[[u8; 20]],
    piece_lengths: &[usize],
    stats: &mut TorrentProcessStats,
    torrent_state: &mut TorrentProcessState,
    peers: &[BlockPeer],
    piece: usize,
    digest: &[u8; 20],
) -> (r: PieceCheck)
    requires
        piece < old(pieces)@.len() ==> piece < piece_hashes@.len() && piece < piece_lengths@.len(),
        piece < old(pieces)@.len() && digest@ == piece_hashes@[piece as int]@ ==> stats_take(
            *old(stats),
            old(pieces)@[piece as int].data@.len(),
        ),
    ensures
        piece_checked(
            old(pieces)@,
            final(pieces)@,
            piece_lengths@,
            *old(stats),
            *final(stats),
            *old(torrent_state),
            *final(torrent_state),
            peers@,
            piece as int,
            piece < old(pieces)@.len() && digest@ == piece_hashes@[piece as int]@,
            r,
        ),
{
    if piece >= pieces.len() {
        return PieceCheck::WrongIndex;
    }
    if !bytes_equal(digest, &piece_hashes[piece]) {
        let ghost before = pieces@;
        let _old_piece = pieces.remove(piece);
        pieces.insert(piece, PieceAssembly::ready(piece_lengths[piece]));
        proof {
            assert forall|i: int| 0 <= i < before.len() && i != piece implies #[trigger] pieces@[i] == before[i] by {
                if i < piece {
                    assert(pieces@[i] == before[i]);
                } else {
                    assert(pieces@[i] == before[i]);
                }
            }
        }
        return PieceCheck::Redownload;
    }
    let len = pieces[piece].data.len();
    stats.downloaded = stats.downloaded + len;
    stats.left = stats.left - len;
    let have = connected_peer_ids(peers);
    let finished = stats.left == 0;
    if finished {
        *torrent_state = TorrentProcessState::Upload;
    }
    PieceCheck::Accepted { have, finished }
}

/// Piece `piece` arrived whole: the SHA-1 digest of its bytes decides (see
/// `piece_downloaded`). When the digest matches but the counters cannot take
/// the piece's bytes, nothing changes and the answer is `None`.
pub fn command_piece_downloaded(
    pieces: &mut Vec<PieceAssembly>,
    piece_hashes: &[[u8; 20]],
    piece_lengths: &[usize],
    stats: &mut TorrentProcessStats,
    torrent_state: &mut TorrentProcessState,
    peers: &[BlockPeer],
    piece: usize,
) -> (r: Option<PieceCheck>)
    requires
        piece < old(pieces)@.len() ==> piece < piece_hashes@.len() && piece < piece_lengths@.len(),
    ensures
        ({
            let matches = piece < old(pieces)@.len() && sha1_digest(old(pieces)@[piece as int].data@)
                == piece_hashes@[piece as int]@;
            &&& r is None <==> matches && !stats_take(*old(stats), old(pieces)@[piece as int].data@.len())
            &&& r is None ==> final(pieces)@ == old(pieces)@ && *final(stats) == *old(stats) && *final(torrent_state)
                == *old(torrent_state)
            &&& r matches Some(check) ==> piece_checked(
                old(pieces)@,
                final(pieces)@,
                piece_lengths@,
                *old(stats),
                *final(stats),
                *old(torrent_state),
                *final(torrent_state),
                peers@,
                piece as int,
                matches,
                check,
            )
        }),
{
    if piece >= pieces.len() {
        return Some(PieceCheck::WrongIndex);
    }
    let digest = sha1_of(pieces[piece].data.as_slice());
    let len = pieces[piece].data.len();
    if bytes_equal(&digest, &piece_hashes[piece]) && !(stats.downloaded <= usize::MAX - len && len <= stats.left) {
        return None;
    }
    Some(piece_downloaded(pieces, piece_hashes, piece_lengths, stats, torrent_state, peers, piece, &digest))
}

/// The peer can be asked for a block of piece `piece`: it is connected,
/// does not choke us and has the piece.
pub open spec fn candidate(peer: BlockPeer, piece: int) -> bool {
    peer.connected && !peer.chocked && has_bit(peer.pieces@, piece)
}

/// `bi` is the first of the `count` blocks of `p` that did not arrive.
pub open spec fn first_missing_block(p: PieceAssembly, count: int, bi: int) -> bool {
    &&& 0 <= bi < count
    &&& !has_bit(p.blocks@, bi)
    &&& forall|j: int| 0 <= j < bi ==> #[trigger] has_bit(p.blocks@, j)
}

/// The number of blocks of a piece of `len` bytes.
pub open spec fn blocks_of(len: usize) -> int {
    parts_needed(len as int, BLOCK_SIZE as int)
}

/// A piece that is looked at for a block to fetch, `before` it is looked at
/// and `after`: one that is not whole and was never started is made ready
/// for its `len` bytes; the others stay as they are.
pub open spec fn looked_at(before: PieceAssembly, after: PieceAssembly, len: usize) -> bool {
    if !before.downloaded && before.data@.len() == 0 {
        ready_piece(after, len)
    } else {
        after == before
    }
}

/// There is no block of piece `i` to fetch: it is whole, every block of it
/// arrived, or no peer can be asked for it.
pub open spec fn nothing_to_fetch(before: PieceAssembly, after: PieceAssembly, len: usize, peers: Seq<BlockPeer>, i: int) -> bool {
    ||| before.downloaded
    ||| forall|j: int| 0 <= j < blocks_of(len) ==> #[trigger] has_bit(after.blocks@, j)
    ||| forall|k: int| 0 <= k < peers.len() ==> !#[trigger] candidate(peers[k], i)
}

/// The first of the `count` blocks of `p` that did not arrive, if any.
fn find_missing_block(p: &PieceAssembly, count: usize) -> (r: Option<usize>)
    ensures
        match r {
            Some(bi) => first_missing_block(*p, count as int, bi as int),
            None => forall|j: int| 0 <= j < count ==> #[trigger] has_bit(p.blocks@, j),
        },
{
    let mut bi: usize = 0;
    while bi < count
        invariant
            bi <= count,
            forall|j: int| 0 <= j < bi ==> #[trigger] has_bit(p.blocks@, j),
        decreases count - bi,
    {
        if bit_by_index(bi, p.blocks.as_slice()).is_none() {
            return Some(bi);
        }
        bi += 1;
    }
    None
}

/// The first peer that can be asked for a block of piece `piece`, if any.
fn find_candidate(peers: &[BlockPeer], piece: usize) -> (r: Option<usize>)
    ensures
        match r {
            Some(k) => k < peers@.len() && candidate(peers@[k as int], piece as int) && forall|j: int|
                0 <= j < k ==> !#[trigger] candidate(peers@[j], piece as int),
            None => forall|j: int| 0 <= j < peers@.len() ==> !#[trigger] candidate(peers@[j], piece as int),
        },
{
    let mut k: usize = 0;
    while k < peers.len()
        invariant
            k <= peers@.len(),
            forall|j: int| 0 <= j < k ==> !#[trigger] candidate(peers@[j], piece as int),
        decreases peers@.len() - k,
    {
        let p = &peers[k];
        if p.connected && !p.chocked && bit_by_index(piece, p.pieces.as_slice()).is_some() {
            return Some(k);
        }
        k += 1;
    }
    None
}

/// The next block to fetch: the pieces are looked at in order, each made
/// ready when it was never started (see `looked_at`); the first piece that
/// is not whole, misses a block and has a peer that can be asked for it
/// gives its first missing block and the first such peer: the position of
/// the peer in `peers`, the piece and the block are returned. `None` when
/// no piece has a block to fetch.
pub fn command_download_next_block(pieces: &mut Vec<PieceAssembly>, piece_lengths: &[usize], peers: &[BlockPeer]) -> (r:
    Option<(usize, usize, Block)>)
    requires
        piece_lengths@.len() == old(pieces)@.len(),
        forall|i: int| 0 <= i < piece_lengths@.len() ==> #[trigger] piece_lengths@[i] <= u32::MAX,
    ensures
        final(pieces)@.len() == old(pieces)@.len(),
        ({
            let end = match r {
                Some((_, p, _)) => p + 1,
                None => old(pieces)@.len() as int,
            };
            &&& forall|i: int| 0 <= i < end ==> #[trigger] looked_at(old(pieces)@[i], final(pieces)@[i], piece_lengths@[i])
            &&& forall|i: int| end <= i < old(pieces)@.len() ==> #[trigger] final(pieces)@[i] == old(pieces)@[i]
            &&& forall|i: int|
                0 <= i < end - (if r is Some { 1int } else { 0int }) ==> #[trigger] nothing_to_fetch(
                    old(pieces)@[i],
                    final(pieces)@[i],
                    piece_lengths@[i],
                    peers@,
                    i,
                )
        }),
        r matches Some((k, piece, b)) ==> {
            let p = piece as int;
            let len = piece_lengths@[p];
            &&& p < old(pieces)@.len()
            &&& !old(pieces)@[p].downloaded
            &&& k < peers@.len()
            &&& candidate(peers@[k as int], p)
            &&& forall|j: int| 0 <= j < k ==> !#[trigger] candidate(peers@[j], p)
            &&& exists|bi: int| #[trigger] first_missing_block(final(pieces)@[p], blocks_of(len), bi) && b == block_of(
                piece,
                len,
                bi,
                blocks_of(len),
            )
        },
{
    let ghost before = pieces@;
    let mut piece_index: usize = 0;
    while piece_index < pieces.len()
        invariant
            before == old(pieces)@,
            pieces@.len() == before.len(),
            piece_lengths@.len() == before.len(),
            forall|i: int| 0 <= i < piece_lengths@.len() ==> #[trigger] piece_lengths@[i] <= u32::MAX,
            piece_index <= before.len(),
            forall|i: int| 0 <= i < piece_index ==> #[trigger] looked_at(before[i], pieces@[i], piece_lengths@[i]),
            forall|i: int| piece_index <= i < before.len() ==> #[trigger] pieces@[i] == before[i],
            forall|i: int|
                0 <= i < piece_index ==> #[trigger] nothing_to_fetch(before[i], pieces@[i], piece_lengths@[i], peers@, i),
        decreases before.len() - piece_index,
    {
        assert(pieces@[piece_index as int] == before[piece_index as int]);
        if pieces[piece_index].downloaded {
            assert(looked_at(before[piece_index as int], pieces@[piece_index as int], piece_lengths@[piece_index as int]));
            assert(nothing_to_fetch(before[piece_index as int], pieces@[piece_index as int], piece_lengths@[piece_index as int], peers@, piece_index as int));
            piece_index += 1;
            continue;
        }
        let piece_length = piece_lengths[piece_index];
        let blocks_count = count_parts(piece_length, BLOCK_SIZE);
        if pieces[piece_index].data.len() == 0 {
            let ghost prev = pieces@;
            let _unstarted = pieces.remove(piece_index);
            pieces.insert(piece_index, PieceAssembly::ready(piece_length));
            proof {
                assert forall|i: int| 0 <= i < prev.len() && i != piece_index implies #[trigger] pieces@[i] == prev[i] by {
                    if i < piece_index {
                        assert(pieces@[i] == prev[i]);
                    } else {
                        assert(pieces@[i] == prev[i]);
                    }
                }
            }
        }
        assert(looked_at(before[piece_index as int], pieces@[piece_index as int], piece_length));
        let missing = find_missing_block(&pieces[piece_index], blocks_count);
        let chosen = find_candidate(peers, piece_index);
        match (missing, chosen) {
            (Some(bi), Some(k)) => {
                proof {
                    lemma_blocks_cover_piece_index(piece_length, bi);
                }
                let block = block_from_piece(piece_index, piece_length, bi, blocks_count);
                assert(first_missing_block(pieces@[piece_index as int], blocks_of(piece_length), bi as int));
                assert(blocks_count as int == blocks_of(piece_length));
                assert(block == block_of(piece_index, piece_length, bi as int, blocks_of(piece_length)));
                assert(piece_lengths@[piece_index as int] == piece_length);
                assert(exists|b2: int| #[trigger] first_missing_block(pieces@[piece_index as int], blocks_of(piece_length), b2) && block == block_of(
                    piece_index,
                    piece_length,
                    b2,
                    blocks_of(piece_length),
                ));
                return Some((k, piece_index, block));
            },
            _ => {},
        }
        assert(nothing_to_fetch(before[piece_index as int], pieces@[piece_index as int], piece_length, peers@, piece_index as int));
        piece_index += 1;
    }
    None
}

/// Block `bi` of a piece of `len` bytes, below the number of its blocks,
/// starts inside the piece, and so within `u32` numbers when the piece
/// length is one.
proof fn lemma_blocks_cover_piece_index(len: usize, bi: usize)
    requires
        len <= u32::MAX,
        bi < blocks_of(len),
    ensures
        bi * BLOCK_SIZE < len,
        (bi as u32) * BLOCK_SIZE <= u32::MAX,
        bi == blocks_of(len) - 1 ==> (bi as u32) * BLOCK_SIZE <= len as u32,
{
    crate::pieces::lemma_blocks_cover_piece(0, len);
}

} // verus!
