//! The torrents the client downloads: each gets an id and the handshake it
//! greets its peers with, and incoming handshakes are matched to them by
//! their info hash.

use vstd::prelude::*;
use crate::announce::AnnounceState;
use crate::blocks::PieceAssembly;
use crate::message::{parse_handshake, HandshakeError};
use crate::storage::TorrentProcessState;
use crate::swarm::Peer;

verus! {

/// The start of the peer wire handshake: the length and name of the
/// protocol, then the eight reserved bytes.
pub const HANDSHAKE_PREFIX: [u8; 28] = [
    19u8, 66u8, 105u8, 116u8, 84u8, 111u8, 114u8, 114u8, 101u8, 110u8, 116u8, 32u8, 112u8, 114u8, 111u8,
    116u8, 111u8, 99u8, 111u8, 108u8, 0u8, 0u8, 0u8, 0u8, 0u8, 0u8, 0u8, 0u8,
];

/// The id this client gives itself towards peers.
pub const PEER_ID: [u8; 20] = [
    45u8, 114u8, 115u8, 48u8, 48u8, 48u8, 49u8, 45u8, 122u8, 122u8, 122u8, 122u8, 120u8, 120u8, 120u8,
    120u8, 121u8, 121u8, 121u8, 121u8,
];

/// The bytes a torrent moved so far, and the bytes it still misses.
#[derive(Debug, Clone, Copy, PartialEq, Eq, Structural)]
pub struct TorrentProcessStats {
    pub downloaded: usize,
    pub uploaded: usize,
    pub left: usize,
}

/// A torrent being downloaded.
#[derive(Debug)]
pub struct TorrentProcess {
    pub id: usize,
    /// The name of the torrent file.
    pub filename: String,
    /// The SHA-1 digest of the torrent's info dictionary.
    pub hash_id: [u8; 20],
    /// The handshake sent to its peers.
    pub handshake: Vec<u8>,
    /// Where the torrent is in its life.
    pub torrent_state: TorrentProcessState,
    /// Whether an announce to its tracker is under way.
    pub announce_state: AnnounceState,
    /// The bytes moved and left.
    pub stats: TorrentProcessStats,
    /// The pieces being put together, one per piece of the torrent.
    pub pieces: Vec<PieceAssembly>,
    /// The peers of the torrent.
    pub peers: Vec<Peer>,
}

/// A torrent just added: not started, no announce under way, nothing moved
/// and `left` bytes missing, an empty piece per piece, and no peers.
pub open spec fn fresh_process(t: TorrentProcess, left: usize, piece_count: usize) -> bool {
    &&& t.torrent_state == TorrentProcessState::Init
    &&& t.announce_state is Idle
    &&& t.stats == TorrentProcessStats { downloaded: 0, uploaded: 0, left }
    &&& t.pieces@.len() == piece_count
    &&& forall|i: int| 0 <= i < piece_count ==> #[trigger] empty_piece(t.pieces@[i])
    &&& t.peers@.len() == 0
}

/// A piece with no bytes and no block yet.
pub open spec fn empty_piece(p: PieceAssembly) -> bool {
    &&& p.data@.len() == 0
    &&& p.blocks@.len() == 0
    &&& p.blocks_to_download == 0
    &&& !p.downloaded
}

/// `piece_count` empty pieces.
fn empty_pieces(piece_count: usize) -> (r: Vec<PieceAssembly>)
    ensures
        r@.len() == piece_count,
        forall|i: int| 0 <= i < piece_count ==> #[trigger] empty_piece(r@[i]),
{
    let mut r: Vec<PieceAssembly> = Vec::new();
    let mut i: usize = 0;
    while i < piece_count
        invariant
            i <= piece_count,
            r@.len() == i,
            forall|j: int| 0 <= j < i ==> #[trigger] empty_piece(r@[j]),
        decreases piece_count - i,
    {
        r.push(PieceAssembly { data: Vec::new(), blocks: Vec::new(), blocks_to_download: 0, downloaded: false });
        i += 1;
    }
    r
}

/// The torrents of the client, in the order they were added, and the last
/// id given out.
#[derive(Debug)]
pub struct TorrentRegistry {
    pub torrents: Vec<TorrentProcess>,
    pub last_id: usize,
}

/// The handshake of a torrent with info hash `hash_id`: the prefix, the
/// info hash, then this client's id.
pub open spec fn handshake_of(hash_id: Seq<u8>) -> Seq<u8> {
    HANDSHAKE_PREFIX@ + hash_id + PEER_ID@
}

/// `j` is the first torrent of `torrents` with info hash `hash`.
pub open spec fn first_with_hash(torrents: Seq<TorrentProcess>, hash: Seq<u8>, j: int) -> bool {
    &&& 0 <= j < torrents.len()
    &&& torrents[j].hash_id@ == hash
    &&& forall|i: int| 0 <= i < j ==> #[trigger] torrents[i].hash_id@ != hash
}

/// Whether `a` and `b` hold the same bytes.
fn same_hash(a: &[u8; 20], b: &[u8; 20]) -> (r: bool)
    ensures
        r == (a@ == b@),
{
    let mut i: usize = 0;
    while i < 20
        invariant
            a@.len() == 20,
            b@.len() == 20,
            i <= 20,
            forall|j: int| 0 <= j < i ==> a@[j] == b@[j],
        decreases 20 - i,
    {
        if a[i] != b[i] {
            return false;
        }
        i += 1;
    }
    assert(a@ =~= b@);
    true
}

impl TorrentRegistry {
    /// No torrents yet.
    pub fn new() -> (r: Self)
        ensures
            r.torrents@.len() == 0,
            r.last_id == 0,
    {
        TorrentRegistry { torrents: Vec::new(), last_id: 0 }
    }

    /// Adds the torrent of file `filename` with info hash `hash_id`, of
    /// `left` bytes in `piece_count` pieces, under the next id, which is
    /// returned, with its handshake; it starts fresh (see `fresh_process`).
    pub fn add_torrent(&mut self, filename: String, hash_id: [u8; 20], left: usize, piece_count: usize) -> (id: usize)
        requires
            old(self).last_id < usize::MAX,
        ensures
            id == old(self).last_id + 1,
            final(self).last_id == id,
            final(self).torrents@.len() == old(self).torrents@.len() + 1,
            final(self).torrents@.drop_last() == old(self).torrents@,
            final(self).torrents@.last().id == id,
            final(self).torrents@.last().filename@ == filename@,
            final(self).torrents@.last().hash_id == hash_id,
            final(self).torrents@.last().handshake@ == handshake_of(hash_id@),
            fresh_process(final(self).torrents@.last(), left, piece_count),
    {
        let mut handshake: Vec<u8> = Vec::new();
        handshake.extend_from_slice(&HANDSHAKE_PREFIX);
        handshake.extend_from_slice(&hash_id);
        handshake.extend_from_slice(&PEER_ID);
        assert(handshake@ =~= handshake_of(hash_id@));
        self.last_id = self.last_id + 1;
        let id = self.last_id;
        let ghost before = self.torrents@;
        let pieces = empty_pieces(piece_count);
        self.torrents.push(
            TorrentProcess {
                id,
                filename,
                hash_id,
                handshake,
                torrent_state: TorrentProcessState::Init,
                announce_state: AnnounceState::Idle,
                stats: TorrentProcessStats { downloaded: 0, uploaded: 0, left },
                pieces,
                peers: Vec::new(),
            },
        );
        assert(self.torrents@.drop_last() =~= before);
        id
    }

    /// Adds the torrent of file `filename` with info hash `hash_id`, of
    /// `left` bytes in `piece_count` pieces, unless a torrent with that info
    /// hash is there already. Returns the id of the torrent that stands for
    /// it, and whether it was added; one that is added starts fresh (see
    /// `fresh_process`).
    pub fn command_add_torrent(
        &mut self,
        filename: String,
        hash_id: [u8; 20],
        left: usize,
        piece_count: usize,
    ) -> (r: (usize, bool))
        requires
            (forall|j: int| 0 <= j < old(self).torrents@.len() ==> #[trigger] old(self).torrents@[j].hash_id@
                != hash_id@) ==> old(self).last_id < usize::MAX,
        ensures
            r.1 <==> forall|j: int| 0 <= j < old(self).torrents@.len() ==> #[trigger] old(self).torrents@[j].hash_id@
                != hash_id@,
            !r.1 ==> final(self).torrents@ == old(self).torrents@ && final(self).last_id == old(self).last_id
                && exists|j: int| #[trigger] first_with_hash(old(self).torrents@, hash_id@, j) && r.0
                == old(self).torrents@[j].id,
            r.1 ==> {
                &&& r.0 == old(self).last_id + 1
                &&& final(self).last_id == r.0
                &&& final(self).torrents@.len() == old(self).torrents@.len() + 1
                &&& final(self).torrents@.drop_last() == old(self).torrents@
                &&& final(self).torrents@.last().id == r.0
                &&& final(self).torrents@.last().filename@ == filename@
                &&& final(self).torrents@.last().hash_id == hash_id
                &&& final(self).torrents@.last().handshake@ == handshake_of(hash_id@)
                &&& fresh_process(final(self).torrents@.last(), left, piece_count)
            },
    {
        match self.find_by_hash(&hash_id) {
            Some(existing) => (existing.id, false),
            None => {
                let id = self.add_torrent(filename, hash_id, left, piece_count);
                (id, true)
            },
        }
    }

    /// The first torrent with info hash `hash`, the one a peer's handshake
    /// asks for.
    pub fn find_by_hash(&self, hash: &[u8; 20]) -> (r: Option<&TorrentProcess>)
        ensures
            match r {
                Some(t) => exists|j: int| #[trigger] first_with_hash(self.torrents@, hash@, j) && *t == self.torrents@[j],
                None => forall|j: int| 0 <= j < self.torrents@.len() ==> #[trigger] self.torrents@[j].hash_id@ != hash@,
            },
    {
        let mut i: usize = 0;
        while i < self.torrents.len()
            invariant
                i <= self.torrents@.len(),
                forall|j: int| 0 <= j < i ==> #[trigger] self.torrents@[j].hash_id@ != hash@,
            decreases self.torrents@.len() - i,
        {
            if same_hash(&self.torrents[i].hash_id, hash) {
                assert(first_with_hash(self.torrents@, hash@, i as int));
                return Some(&self.torrents[i]);
            }
            i += 1;
        }
        None
    }
}

/// The handshake a peer answered with, checked against the torrent's info
/// hash `hash_id`: `Err` when it is too short to be a handshake, else
/// whether it names that torrent.
pub fn check_handshake_reply(reply: &[u8], hash_id: &[u8; 20]) -> (r: Result<bool, HandshakeError>)
    ensures
        r is Err <==> reply@.len() < 68,
        r matches Ok(same) ==> same == (reply@.subrange(28, 48) == hash_id@),
{
    match parse_handshake(reply) {
        Ok(handshake) => Ok(same_hash(&handshake.info_hash, hash_id)),
        Err(e) => Err(e),
    }
}

} // verus!
