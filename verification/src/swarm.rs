//! The peers of one torrent download and the decisions taken on each event
//! about them: whom to connect to, which piece to ask whom for, whom to tell
//! that a piece arrived. The caller performs the actions that come back.

use std::collections::HashMap;
use vstd::prelude::*;
use crate::bitarray::{bit_by_index, bit_mask, has_bit, index_in_bitarray};
use crate::pieces::{
    collect_pieces_and_update, downloadable_pieces, match_pieces, merged_bitfield, new_bits, offered_pieces,
    set_positions,
};
use vstd::std_specs::iter::IteratorSpec;

verus! {

broadcast use vstd::std_specs::hash::group_hash_axioms;

/// The address of a peer: its IP address as an IPv6 address (IPv4 ones
/// mapped), and its port.
#[derive(Debug, Clone, Copy, PartialEq, Eq, Structural)]
pub struct Peer {
    pub ip: u128,
    pub port: u16,
}

/// A peer that a connection is open to.
#[derive(Debug)]
pub struct ConnectedPeer {
    /// The peer chokes us.
    pub chocked: bool,
    /// The peer asked to download from us.
    pub interested: bool,
    /// The piece we download from the peer.
    pub downloading_piece: Option<usize>,
    /// When that download started.
    pub downloading_since: Option<u64>,
    pub downloaded: usize,
    pub uploaded: usize,
    /// The pieces the peer has, as a bitfield.
    pub pieces: Vec<u8>,
}

/// Where the connection to a peer stands.
#[derive(Debug)]
pub enum TorrentPeerState {
    Idle,
    Connecting,
    Connected(ConnectedPeer),
}

/// A peer of the torrent.
#[derive(Debug)]
pub struct PeerState {
    pub peer: Peer,
    pub state: TorrentPeerState,
    /// How often a tracker announced the peer while connected.
    pub announce_count: usize,
}

/// The peers of a download, by their id.
pub type PeerStates = HashMap<u128, PeerState>;

/// A connected peer as the contracts see it.
pub struct ConnectedView {
    pub chocked: bool,
    pub interested: bool,
    pub downloading_piece: Option<usize>,
    pub downloading_since: Option<u64>,
    pub downloaded: usize,
    pub uploaded: usize,
    pub pieces: Seq<u8>,
}

/// Where the connection to a peer stands, as the contracts see it.
pub enum PeerStatus {
    Idle,
    Connecting,
    Connected(ConnectedView),
}

/// A peer as the contracts see it.
pub struct PeerView {
    pub peer: Peer,
    pub status: PeerStatus,
    pub announce_count: usize,
}

impl View for ConnectedPeer {
    type V = ConnectedView;

    open spec fn view(&self) -> ConnectedView {
        ConnectedView {
            chocked: self.chocked,
            interested: self.interested,
            downloading_piece: self.downloading_piece,
            downloading_since: self.downloading_since,
            downloaded: self.downloaded,
            uploaded: self.uploaded,
            pieces: self.pieces@,
        }
    }
}

impl View for PeerState {
    type V = PeerView;

    open spec fn view(&self) -> PeerView {
        PeerView {
            peer: self.peer,
            status: match self.state {
                TorrentPeerState::Idle => PeerStatus::Idle,
                TorrentPeerState::Connecting => PeerStatus::Connecting,
                TorrentPeerState::Connected(c) => PeerStatus::Connected(c@),
            },
            announce_count: self.announce_count,
        }
    }
}

/// The peers by id, as the contracts see them.
pub open spec fn peers_view(m: Map<u128, PeerState>) -> Map<u128, PeerView> {
    m.map_values(|s: PeerState| s@)
}

proof fn lemma_peers_view_insert(m: Map<u128, PeerState>, k: u128, s: PeerState)
    ensures
        peers_view(m.insert(k, s)) == peers_view(m).insert(k, s@),
{
    assert(peers_view(m.insert(k, s)) =~= peers_view(m).insert(k, s@));
}

proof fn lemma_peers_view_remove(m: Map<u128, PeerState>, k: u128)
    ensures
        peers_view(m.remove(k)) == peers_view(m).remove(k),
{
    assert(peers_view(m.remove(k)) =~= peers_view(m).remove(k));
}

/// How pieces are handed out: normally a piece goes to one peer at a time;
/// near the end, when fewer pieces are left than peers are connected, it
/// may go to several.
#[derive(Debug, Clone, Copy, PartialEq, Eq, Structural)]
pub enum TorrentDownloadMode {
    Normal,
    Final,
}

/// What the caller is to do after a decision.
#[derive(Debug)]
pub enum PeerAction {
    /// Open a connection to `peer`, known under `peer_id`.
    Connect { peer_id: u128, peer: Peer },
    /// Ask the peer to download `piece`.
    Download { peer_id: u128, piece: usize },
    /// Tell the peer that `piece` is now here.
    Have { peer_id: u128, piece: usize },
    /// Tell the peer to give up the piece it downloads.
    Cancel { peer_id: u128 },
    /// Send the peer the bitfield of the pieces that are here.
    Bitfield { peer_id: u128, pieces: Vec<u8> },
}

/// The peer is connected.
pub open spec fn is_connected(s: PeerView) -> bool {
    s.status is Connected
}

/// The peer is connected and downloads `piece` from us.
pub open spec fn downloads(s: PeerView, piece: usize) -> bool {
    s.status matches PeerStatus::Connected(c) && c.downloading_piece == Some(piece)
}

/// Some peer downloads `piece`.
pub open spec fn being_downloaded(m: Map<u128, PeerView>, piece: usize) -> bool {
    exists|k: u128| m.dom().contains(k) && #[trigger] downloads(m[k], piece)
}

/// The ids of the connected peers.
pub open spec fn connected_ids(m: Map<u128, PeerView>) -> Set<u128> {
    m.dom().filter(|k: u128| is_connected(m[k]))
}

/// The bitfields of the connected peers are small enough to number their
/// pieces with a `usize`.
pub open spec fn peers_well_formed(m: Map<u128, PeerView>) -> bool {
    forall|k: u128|
        #![trigger m[k]]
        m.dom().contains(k) ==> (m[k].status matches PeerStatus::Connected(c) ==> c.pieces.len() * 8
            <= usize::MAX)
}

/// The download mode for `pieces_left` missing pieces: final once fewer are
/// missing than peers are connected.
pub open spec fn download_mode(m: Map<u128, PeerView>, pieces_left: int) -> TorrentDownloadMode {
    if pieces_left < connected_ids(m).len() {
        TorrentDownloadMode::Final
    } else {
        TorrentDownloadMode::Normal
    }
}

/// How many of `ids` satisfy `p`.
pub open spec fn count_where(ids: Seq<u128>, p: spec_fn(u128) -> bool) -> nat
    decreases ids.len(),
{
    if ids.len() == 0 {
        0
    } else {
        count_where(ids.drop_last(), p) + if p(ids.last()) {
            1nat
        } else {
            0nat
        }
    }
}

proof fn lemma_count_where_set(ids: Seq<u128>, p: spec_fn(u128) -> bool)
    requires
        ids.no_duplicates(),
    ensures
        count_where(ids, p) == ids.to_set().filter(p).len(),
    decreases ids.len(),
{
    if ids.len() == 0 {
        assert(ids.to_set().filter(p) =~= Set::<u128>::empty());
    } else {
        let t = ids.drop_last();
        let x = ids.last();
        assert(t.no_duplicates()) by {
            assert forall|i: int, j: int| 0 <= i < t.len() && 0 <= j < t.len() && i != j implies t[i]
                != t[j] by {
                assert(t[i] == ids[i] && t[j] == ids[j]);
            }
        }
        lemma_count_where_set(t, p);
        assert(ids =~= t.push(x));
        assert(ids.to_set() =~= t.to_set().insert(x)) by {
            t.lemma_push_to_set_commute(x);
        }
        assert(!t.to_set().contains(x)) by {
            if t.to_set().contains(x) {
                let i = choose|i: int| 0 <= i < t.len() && t[i] == x;
                assert(ids[i] == ids[ids.len() - 1]);
            }
        }
        vstd::seq_lib::seq_to_set_is_finite(t);
        if p(x) {
            assert(ids.to_set().filter(p) =~= t.to_set().filter(p).insert(x));
        } else {
            assert(ids.to_set().filter(p) =~= t.to_set().filter(p));
        }
    }
}

/// Whether some peer downloads `piece`.
fn is_being_downloaded(states: &PeerStates, piece: usize) -> (r: bool)
    ensures
        r == being_downloaded(peers_view(states@), piece),
{
    let ghost v = peers_view(states@);
    let ids = peer_ids(states);
    let mut i: usize = 0;
    while i < ids.len()
        invariant
            i <= ids@.len(),
            v == peers_view(states@),
            ids@.to_set() == states@.dom(),
            forall|j: int| 0 <= j < i ==> !#[trigger] downloads(v[ids@[j]], piece),
        decreases ids@.len() - i,
    {
        let id = ids[i];
        assert(ids@.to_set().contains(ids@[i as int]));
        match states.get(&id) {
            Some(ps) => {
                match &ps.state {
                    TorrentPeerState::Connected(c) => {
                        if c.downloading_piece == Some(piece) {
                            assert(v.dom().contains(id) && downloads(v[id], piece));
                            return true;
                        }
                    },
                    _ => {},
                }
            },
            None => {},
        }
        i += 1;
    }
    proof {
        if being_downloaded(v, piece) {
            let k = choose|k: u128| v.dom().contains(k) && #[trigger] downloads(v[k], piece);
            assert(ids@.to_set().contains(k));
            let j = choose|j: int| 0 <= j < ids@.len() && ids@[j] == k;
            assert(downloads(v[ids@[j]], piece));
        }
    }
    false
}

/// Law: a peer that is not connected (idle, or being connected to) does not
/// count towards the download mode: adding it, dropping it or changing it
/// into another peer that is not connected leaves the mode as it was.
pub proof fn lemma_mode_ignores_unconnected_peers(m: Map<u128, PeerView>, k: u128, v: PeerView, pieces_left: int)
    requires
        m.dom().finite(),
        !(v.status is Connected),
    ensures
        download_mode(m.insert(k, v), pieces_left) == download_mode(m.remove(k), pieces_left),
{
    assert(connected_ids(m.insert(k, v)) =~= connected_ids(m.remove(k)));
}

/// Law: a new connected peer counts once: with it, the mode for
/// `pieces_left` missing pieces is the mode without it for one piece less.
pub proof fn lemma_mode_counts_connected_peer(m: Map<u128, PeerView>, k: u128, v: PeerView, pieces_left: int)
    requires
        m.dom().finite(),
        !m.dom().contains(k),
        v.status is Connected,
    ensures
        download_mode(m.insert(k, v), pieces_left) == download_mode(m, pieces_left - 1),
{
    let before = connected_ids(m);
    m.dom().lemma_len_filter(|j: u128| is_connected(m[j]));
    assert(connected_ids(m.insert(k, v)) =~= before.insert(k));
    assert(!before.contains(k));
}

/// Law: with no connected peer, the download is in the normal mode for any
/// number of missing pieces (the final mode needs fewer missing pieces
/// than connected peers).
pub proof fn lemma_mode_without_connected_peers(m: Map<u128, PeerView>, pieces_left: int)
    requires
        forall|k: u128| #[trigger] m.dom().contains(k) ==> !(m[k].status is Connected),
    ensures
        download_mode(m, pieces_left) == if pieces_left < 0 {
            TorrentDownloadMode::Final
        } else {
            TorrentDownloadMode::Normal
        },
{
    assert(connected_ids(m) =~= Set::<u128>::empty());
}

/// Law: with a single connected peer, among any number of peers that are
/// not connected, the download is in the final mode exactly when no piece is
/// missing.
pub proof fn lemma_mode_with_one_connected_peer(m: Map<u128, PeerView>, k: u128, v: PeerView, pieces_left: nat)
    requires
        m.dom().finite(),
        !m.dom().contains(k),
        forall|j: u128| #[trigger] m.dom().contains(j) ==> !(m[j].status is Connected),
        v.status is Connected,
    ensures
        download_mode(m.insert(k, v), pieces_left as int) == if pieces_left == 0 {
            TorrentDownloadMode::Final
        } else {
            TorrentDownloadMode::Normal
        },
{
    lemma_mode_counts_connected_peer(m, k, v, pieces_left as int);
    lemma_mode_without_connected_peers(m, pieces_left - 1);
}

/// The number of connected peers.
fn connected_count(states: &PeerStates) -> (r: usize)
    ensures
        r == connected_ids(peers_view(states@)).len(),
{
    let ids = peer_ids(states);
    let ghost v = peers_view(states@);
    let ghost p = |k: u128| is_connected(v[k]);
    let mut count: usize = 0;
    let mut i: usize = 0;
    assert(ids@.take(0) =~= Seq::<u128>::empty());
    while i < ids.len()
        invariant
            i <= ids@.len(),
            v == peers_view(states@),
            ids@.to_set() == states@.dom(),
            p == (|k: u128| is_connected(v[k])),
            count == count_where(ids@.take(i as int), p),
            count <= i,
        decreases ids@.len() - i,
    {
        let id = ids[i];
        assert(ids@.take(i + 1).drop_last() =~= ids@.take(i as int));
        assert(ids@.to_set().contains(ids@[i as int]));
        match states.get(&id) {
            Some(ps) => {
                match &ps.state {
                    TorrentPeerState::Connected(_) => {
                        count = count + 1;
                    },
                    _ => {},
                }
            },
            None => {},
        }
        i += 1;
    }
    proof {
        assert(ids@.take(ids@.len() as int) =~= ids@);
        lemma_count_where_set(ids@, p);
        assert(ids@.to_set().filter(p) =~= connected_ids(v));
    }
    count
}

/// The download mode once a piece was saved and `pieces_left` are missing.
pub fn determine_download_mode(states: &PeerStates, pieces_left: usize) -> (r: TorrentDownloadMode)
    ensures
        r == download_mode(peers_view(states@), pieces_left as int),
{
    let connected = connected_count(states);
    if pieces_left < connected {
        TorrentDownloadMode::Final
    } else {
        TorrentDownloadMode::Normal
    }
}

/// The ids of all the peers, each once.
pub fn peer_ids(states: &PeerStates) -> (ids: Vec<u128>)
    ensures
        ids@.no_duplicates(),
        ids@.to_set() == states@.dom(),
        ids@.len() == states@.dom().len(),
{
    let mut ids: Vec<u128> = Vec::new();
    let ghost all = vstd::std_specs::hash::spec_keys_iter(states).remaining().unref();
    for k in it: states.keys()
        invariant
            it.seq().unref() == all,
            ids@ == all.take(it.index()),
    {
        proof {
            assert(all.take(it.index() + 1) =~= all.take(it.index()).push(*k));
        }
        ids.push(*k);
    }
    assert(ids@ =~= all);
    ids
}

/// In `mode`, `piece` may be handed to a peer: in final mode always, else
/// only while no peer downloads it.
pub open spec fn selectable(m: Map<u128, PeerView>, mode: TorrentDownloadMode, piece: usize) -> bool {
    mode == TorrentDownloadMode::Final || !being_downloaded(m, piece)
}

/// The peer `peer_id` is connected and downloads nothing.
pub open spec fn can_start(m: Map<u128, PeerView>, peer_id: u128) -> bool {
    &&& m.dom().contains(peer_id)
    &&& m[peer_id].status matches PeerStatus::Connected(c) && c.downloading_piece is None
}

/// The peer `s` once it was asked, at `now`, to download `piece`.
pub open spec fn started(s: PeerView, piece: usize, now: u64) -> PeerView {
    match s.status {
        PeerStatus::Connected(c) => PeerView {
            status: PeerStatus::Connected(
                ConnectedView { downloading_piece: Some(piece), downloading_since: Some(now), ..c },
            ),
            ..s
        },
        _ => s,
    }
}

/// `j` is the first position of `pieces` whose piece may be handed out.
pub open spec fn first_selectable(
    m: Map<u128, PeerView>,
    mode: TorrentDownloadMode,
    pieces: Seq<usize>,
    j: int,
) -> bool {
    &&& 0 <= j < pieces.len()
    &&& selectable(m, mode, pieces[j])
    &&& forall|i: int| 0 <= i < j ==> !#[trigger] selectable(m, mode, pieces[i])
}

/// What handing out one of `pieces` to `peer_id` does: when the peer is
/// connected and idle and one of the pieces may be handed out, the first
/// such piece is its download and the peer is asked for it; else nothing
/// changes.
pub open spec fn selected(
    m: Map<u128, PeerView>,
    mode: TorrentDownloadMode,
    pieces: Seq<usize>,
    peer_id: u128,
    now: u64,
    final_m: Map<u128, PeerView>,
    actions: Seq<PeerAction>,
) -> bool {
    if can_start(m, peer_id) && exists|j: int| 0 <= j < pieces.len() && #[trigger] selectable(m, mode, pieces[j]) {
        exists|j: int|
            #[trigger] first_selectable(m, mode, pieces, j) && final_m == m.insert(
                peer_id,
                started(m[peer_id], pieces[j], now),
            ) && actions == seq![PeerAction::Download { peer_id, piece: pieces[j] }]
    } else {
        final_m == m && actions.len() == 0
    }
}

/// The peer `s` asked, at `now`, to download `piece`.
fn start_download(s: PeerState, piece: usize, now: u64) -> (r: PeerState)
    ensures
        r@ == started(s@, piece, now),
{
    let PeerState { peer, state, announce_count } = s;
    let state = match state {
        TorrentPeerState::Connected(c) => TorrentPeerState::Connected(
            ConnectedPeer { downloading_piece: Some(piece), downloading_since: Some(now), ..c },
        ),
        other => other,
    };
    PeerState { peer, state, announce_count }
}

/// Whether `peer_id` is connected and downloads nothing.
fn peer_can_start(states: &PeerStates, peer_id: u128) -> (r: bool)
    ensures
        r == can_start(peers_view(states@), peer_id),
{
    match states.get(&peer_id) {
        Some(ps) => match &ps.state {
            TorrentPeerState::Connected(c) => c.downloading_piece.is_none(),
            _ => false,
        },
        None => false,
    }
}

/// Hands `peer_id` the first of `new_pieces` that may be handed out, when
/// the peer is connected and idle, and asks it, at `now`, to download it.
pub fn select_new_peer(
    new_pieces: &[usize],
    states: &mut PeerStates,
    mode: TorrentDownloadMode,
    peer_id: u128,
    now: u64,
) -> (actions: Vec<PeerAction>)
    ensures
        selected(peers_view(old(states)@), mode, new_pieces@, peer_id, now, peers_view(final(states)@), actions@),
{
    let ghost m = peers_view(states@);
    let mut actions: Vec<PeerAction> = Vec::new();
    if !peer_can_start(states, peer_id) {
        return actions;
    }
    let mut i: usize = 0;
    while i < new_pieces.len()
        invariant
            peers_view(states@) == m,
            peers_view(old(states)@) == m,
            can_start(m, peer_id),
            actions@.len() == 0,
            i <= new_pieces@.len(),
            forall|j: int| 0 <= j < i ==> !#[trigger] selectable(m, mode, new_pieces@[j]),
        decreases new_pieces@.len() - i,
    {
        let piece = new_pieces[i];
        let taken = match mode {
            TorrentDownloadMode::Normal => is_being_downloaded(states, piece),
            TorrentDownloadMode::Final => false,
        };
        if !taken {
            assert(first_selectable(m, mode, new_pieces@, i as int));
            let ghost before = states@;
            match states.remove(&peer_id) {
                Some(ps) => {
                    let updated = start_download(ps, piece, now);
                    states.insert(peer_id, updated);
                    proof {
                        assert(states@ == before.insert(peer_id, updated));
                        lemma_peers_view_insert(before, peer_id, updated);
                    }
                },
                None => {
                    assert(false);
                },
            }
            actions.push(PeerAction::Download { peer_id, piece });
            assert(actions@ =~= seq![PeerAction::Download { peer_id, piece }]);
            return actions;
        }
        i += 1;
    }
    proof {
        if exists|j: int| 0 <= j < new_pieces@.len() && #[trigger] selectable(m, mode, new_pieces@[j]) {
            let j = choose|j: int| 0 <= j < new_pieces@.len() && #[trigger] selectable(m, mode, new_pieces@[j]);
            assert(!selectable(m, mode, new_pieces@[j]));
        }
    }
    actions
}

/// Every connected peer downloads a piece that no other peer downloads.
pub open spec fn downloads_unique(m: Map<u128, PeerView>) -> bool {
    forall|a: u128, b: u128, piece: usize|
        #![trigger downloads(m[a], piece), downloads(m[b], piece)]
        m.dom().contains(a) && m.dom().contains(b) && a != b && downloads(m[a], piece) ==> !downloads(
            m[b],
            piece,
        )
}

proof fn lemma_unique_insert(m: Map<u128, PeerView>, k: u128, v: PeerView)
    requires
        downloads_unique(m),
        forall|piece: usize| #[trigger] downloads(v, piece) ==> m.dom().contains(k) && downloads(m[k], piece),
    ensures
        downloads_unique(m.insert(k, v)),
{
    let n = m.insert(k, v);
    assert forall|a: u128, b: u128, piece: usize|
        n.dom().contains(a) && n.dom().contains(b) && a != b && #[trigger] downloads(n[a], piece) implies !#[trigger] downloads(
            n[b],
            piece,
        ) by {
        if a == k {
            assert(downloads(m[k], piece));
            assert(n[b] == m[b]);
        } else if b == k {
            assert(n[a] == m[a]);
            if downloads(v, piece) {
                assert(downloads(m[k], piece));
            }
        } else {
            assert(n[a] == m[a] && n[b] == m[b]);
        }
    }
}

proof fn lemma_unique_remove(m: Map<u128, PeerView>, k: u128)
    requires
        downloads_unique(m),
    ensures
        downloads_unique(m.remove(k)),
{
    let n = m.remove(k);
    assert forall|a: u128, b: u128, piece: usize|
        n.dom().contains(a) && n.dom().contains(b) && a != b && #[trigger] downloads(n[a], piece) implies !#[trigger] downloads(
            n[b],
            piece,
        ) by {
        assert(n[a] == m[a] && n[b] == m[b]);
    }
}

/// Handing out pieces changes no bitfield, so it keeps the peers well formed.
pub proof fn lemma_selected_well_formed(
    m: Map<u128, PeerView>,
    mode: TorrentDownloadMode,
    pieces: Seq<usize>,
    peer_id: u128,
    now: u64,
    final_m: Map<u128, PeerView>,
    actions: Seq<PeerAction>,
)
    requires
        peers_well_formed(m),
        selected(m, mode, pieces, peer_id, now, final_m, actions),
    ensures
        peers_well_formed(final_m),
        final_m.dom() == m.dom(),
{
    if final_m != m {
        let j = choose|j: int|
            #[trigger] first_selectable(m, mode, pieces, j) && final_m == m.insert(
                peer_id,
                started(m[peer_id], pieces[j], now),
            ) && actions == seq![PeerAction::Download { peer_id, piece: pieces[j] }];
        assert(final_m.dom() =~= m.dom());
        assert forall|k: u128| #![trigger final_m[k]] final_m.dom().contains(k) implies (
        final_m[k].status matches PeerStatus::Connected(c) ==> c.pieces.len() * 8 <= usize::MAX) by {
            if k != peer_id {
                assert(final_m[k] == m[k]);
            } else {
                assert(m[k].status is Connected);
            }
        }
    }
}

/// In normal mode a piece goes to at most one peer at a time: handing out
/// pieces keeps every download unique.
pub proof fn lemma_normal_mode_keeps_downloads_unique(
    m: Map<u128, PeerView>,
    pieces: Seq<usize>,
    peer_id: u128,
    now: u64,
    final_m: Map<u128, PeerView>,
    actions: Seq<PeerAction>,
)
    requires
        downloads_unique(m),
        selected(m, TorrentDownloadMode::Normal, pieces, peer_id, now, final_m, actions),
    ensures
        downloads_unique(final_m),
{
    if final_m != m {
        let j = choose|j: int|
            #[trigger] first_selectable(m, TorrentDownloadMode::Normal, pieces, j) && final_m == m.insert(
                peer_id,
                started(m[peer_id], pieces[j], now),
            ) && actions == seq![PeerAction::Download { peer_id, piece: pieces[j] }];
        let p = pieces[j];
        assert(!being_downloaded(m, p));
        assert forall|a: u128, b: u128, piece: usize|
            final_m.dom().contains(a) && final_m.dom().contains(b) && a != b && #[trigger] downloads(
                final_m[a],
                piece,
            ) implies !#[trigger] downloads(final_m[b], piece) by {
            if a == peer_id {
                assert(piece == p);
                assert(final_m[b] == m[b]);
                if downloads(m[b], p) {
                    assert(m.dom().contains(b));
                }
            } else if b == peer_id {
                assert(final_m[a] == m[a]);
                if piece == p {
                    assert(m.dom().contains(a));
                }
            } else {
                assert(final_m[a] == m[a]);
                assert(final_m[b] == m[b]);
            }
        }
    }
}

/// Every download that handing out pieces asks for goes to the connected
/// peer that was idle, for one of the pieces offered.
pub proof fn lemma_selected_asks_idle_peer(
    m: Map<u128, PeerView>,
    mode: TorrentDownloadMode,
    pieces: Seq<usize>,
    peer_id: u128,
    now: u64,
    final_m: Map<u128, PeerView>,
    actions: Seq<PeerAction>,
)
    requires
        selected(m, mode, pieces, peer_id, now, final_m, actions),
    ensures
        forall|i: int|
            0 <= i < actions.len() ==> (#[trigger] actions[i] matches PeerAction::Download { peer_id: q, piece }
                && q == peer_id && can_start(m, peer_id) && pieces.contains(piece)),
{
    if actions.len() > 0 {
        let j = choose|j: int|
            #[trigger] first_selectable(m, mode, pieces, j) && final_m == m.insert(
                peer_id,
                started(m[peer_id], pieces[j], now),
            ) && actions == seq![PeerAction::Download { peer_id, piece: pieces[j] }];
        assert(pieces.contains(pieces[j]));
    }
}

/// The connected peer `s` with the bitfield `bits`.
pub open spec fn with_pieces(s: PeerView, bits: Seq<u8>) -> PeerView {
    match s.status {
        PeerStatus::Connected(c) => PeerView {
            status: PeerStatus::Connected(ConnectedView { pieces: bits, ..c }),
            ..s
        },
        _ => s,
    }
}

/// The bitfield of the connected peer `s`.
pub open spec fn pieces_of(s: PeerView) -> Seq<u8> {
    match s.status {
        PeerStatus::Connected(c) => c.pieces,
        _ => Seq::empty(),
    }
}

/// The peer `peer_id` is connected.
pub open spec fn connected_in(m: Map<u128, PeerView>, peer_id: u128) -> bool {
    m.dom().contains(peer_id) && is_connected(m[peer_id])
}

/// The peer `s` with the piece it downloads given up.
pub open spec fn cleared(s: PeerView) -> PeerView {
    match s.status {
        PeerStatus::Connected(c) => PeerView {
            status: PeerStatus::Connected(
                ConnectedView { downloading_piece: None, downloading_since: None, ..c },
            ),
            ..s
        },
        _ => s,
    }
}

/// A peer sent its bitfield: it is merged into what is known of the peer's
/// pieces, then the peer may be handed one of the pieces it offers that
/// `downloaded` lacks.
pub open spec fn after_pieces(
    m: Map<u128, PeerView>,
    mode: TorrentDownloadMode,
    peer_id: u128,
    peer_pieces: Seq<u8>,
    downloaded: Seq<u8>,
    now: u64,
    fm: Map<u128, PeerView>,
    actions: Seq<PeerAction>,
) -> bool {
    if connected_in(m, peer_id) {
        selected(
            m.insert(peer_id, with_pieces(m[peer_id], merged_bitfield(pieces_of(m[peer_id]), peer_pieces))),
            mode,
            offered_pieces(peer_pieces, downloaded, peer_pieces.len() as int),
            peer_id,
            now,
            fm,
            actions,
        )
    } else {
        fm == m && actions.len() == 0
    }
}

/// A peer announced that it has `piece`: the peer may be handed that
/// piece, if `downloaded` lacks it.
pub open spec fn after_have(
    m: Map<u128, PeerView>,
    mode: TorrentDownloadMode,
    peer_id: u128,
    piece: usize,
    downloaded: Seq<u8>,
    now: u64,
    fm: Map<u128, PeerView>,
    actions: Seq<PeerAction>,
) -> bool {
    let offered = if connected_in(m, peer_id) {
        announced_pieces(piece, downloaded)
    } else {
        Seq::<usize>::empty()
    };
    selected(m, mode, offered, peer_id, now, fm, actions)
}

/// The piece a peer was asked for was given up: the peer downloads nothing
/// and may be handed one of the pieces its bitfield offers that
/// `downloaded` lacks.
pub open spec fn after_canceled(
    m: Map<u128, PeerView>,
    mode: TorrentDownloadMode,
    peer_id: u128,
    downloaded: Seq<u8>,
    now: u64,
    fm: Map<u128, PeerView>,
    actions: Seq<PeerAction>,
) -> bool {
    if connected_in(m, peer_id) {
        selected(
            m.insert(peer_id, cleared(m[peer_id])),
            mode,
            offered_pieces(pieces_of(m[peer_id]), downloaded, pieces_of(m[peer_id]).len() as int),
            peer_id,
            now,
            fm,
            actions,
        )
    } else {
        fm == m && actions.len() == 0
    }
}

/// A peer delivered the piece it downloaded: the peer downloads nothing
/// and the piece, when its download was recorded, is the one to save.
pub open spec fn after_begin(m: Map<u128, PeerView>, peer_id: u128, fm: Map<u128, PeerView>, r: Option<usize>) -> bool {
    if connected_in(m, peer_id) {
        &&& fm == m.insert(peer_id, cleared(m[peer_id]))
        &&& r == finished_piece(m[peer_id])
    } else {
        &&& fm == m
        &&& r is None
    }
}

/// Piece `index` that `peer_id` delivered was saved: the other peers hear
/// of it in the order in which the peers are walked, then `peer_id` may be
/// handed one of the pieces its bitfield offers that `downloaded` lacks.
pub open spec fn after_finish(
    m: Map<u128, PeerView>,
    mode: TorrentDownloadMode,
    peer_id: u128,
    index: usize,
    downloaded: Seq<u8>,
    now: u64,
    fm: Map<u128, PeerView>,
    actions: Seq<PeerAction>,
) -> bool {
    let offered = if connected_in(m, peer_id) {
        offered_pieces(pieces_of(m[peer_id]), downloaded, pieces_of(m[peer_id]).len() as int)
    } else {
        Seq::<usize>::empty()
    };
    exists|order: Seq<u128>|
        {
            &&& order.no_duplicates()
            &&& order.to_set() == m.dom()
            &&& #[trigger] notices(m, order, peer_id, index).len() <= actions.len()
            &&& actions.take(notices(m, order, peer_id, index).len() as int) == notices(m, order, peer_id, index)
            &&& selected(m, mode, offered, peer_id, now, fm, actions.skip(notices(m, order, peer_id, index).len() as int))
        }
}

/// A peer stopped choking us.
pub open spec fn after_unchoke(m: Map<u128, PeerView>, peer_id: u128, fm: Map<u128, PeerView>) -> bool {
    if connected_in(m, peer_id) {
        let c = m[peer_id].status->Connected_0;
        fm == m.insert(peer_id, with_flags(m[peer_id], false, c.interested))
    } else {
        fm == m
    }
}

/// A peer asked to download from us.
pub open spec fn after_interested(m: Map<u128, PeerView>, peer_id: u128, fm: Map<u128, PeerView>) -> bool {
    if connected_in(m, peer_id) {
        let c = m[peer_id].status->Connected_0;
        fm == m.insert(peer_id, with_flags(m[peer_id], c.chocked, true))
    } else {
        fm == m
    }
}

/// The connection to `peer_id` is up: a known peer is connected.
pub open spec fn after_connected(m: Map<u128, PeerView>, peer_id: u128, fm: Map<u128, PeerView>, known: bool) -> bool {
    if m.dom().contains(peer_id) {
        &&& known
        &&& fm == m.insert(peer_id, fm[peer_id])
        &&& fm[peer_id].peer == m[peer_id].peer
        &&& fm[peer_id].announce_count == m[peer_id].announce_count
        &&& fm[peer_id].status matches PeerStatus::Connected(c) && just_connected(c)
    } else {
        &&& !known
        &&& fm == m
    }
}

/// A peer connected to us as `peer_id`: it is connected, and sent the
/// bitfield `downloaded` unless that is empty.
pub open spec fn after_forwarded(
    m: Map<u128, PeerView>,
    peer_id: u128,
    peer: Peer,
    downloaded: Seq<u8>,
    fm: Map<u128, PeerView>,
    actions: Seq<PeerAction>,
) -> bool {
    &&& fm == m.insert(peer_id, fm[peer_id])
    &&& fm[peer_id].peer == peer
    &&& fm[peer_id].announce_count == 0
    &&& fm[peer_id].status matches PeerStatus::Connected(c) && just_connected(c)
    &&& downloaded.len() == 0 ==> actions.len() == 0
    &&& downloaded.len() > 0 ==> (actions.len() == 1 && (actions[0] matches PeerAction::Bitfield {
        peer_id: p,
        pieces,
    } && p == peer_id && pieces@ == downloaded))
}

/// A tracker announced `peer`: a peer of that address (which one, when
/// several have it, depends on the order in which the peers are walked) is
/// handled by `announce_outcome`; an unknown one is added under `new_id`
/// and connected to.
pub open spec fn after_announced(
    m: Map<u128, PeerView>,
    peer: Peer,
    new_id: u128,
    fm: Map<u128, PeerView>,
    action: Option<PeerAction>,
) -> bool {
    if exists|k: u128| m.dom().contains(k) && #[trigger] m[k].peer == peer {
        exists|k: u128| m.dom().contains(k) && #[trigger] m[k].peer == peer && announce_outcome(m, k, fm, action)
    } else {
        &&& fm == m.insert(new_id, PeerView { peer, status: PeerStatus::Connecting, announce_count: 0 })
        &&& action == Some(PeerAction::Connect { peer_id: new_id, peer })
    }
}

/// Whether `peer_id` is connected.
pub fn peer_connected(states: &PeerStates, peer_id: u128) -> (r: bool)
    ensures
        r == connected_in(peers_view(states@), peer_id),
{
    match states.get(&peer_id) {
        Some(ps) => match &ps.state {
            TorrentPeerState::Connected(_) => true,
            _ => false,
        },
        None => false,
    }
}

/// A peer sent its bitfield: it is merged into what is known of the peer's
/// pieces, and the peer gets, at `now`, one of the pieces it offers that
/// `downloaded` lacks.
pub fn process_peer_pieces(
    states: &mut PeerStates,
    mode: TorrentDownloadMode,
    peer_id: u128,
    peer_pieces: &[u8],
    downloaded: &[u8],
    now: u64,
) -> (actions: Vec<PeerAction>)
    requires
        peers_well_formed(peers_view(old(states)@)),
        peer_pieces@.len() * 8 <= usize::MAX,
    ensures
        peers_view(final(states)@).dom() == peers_view(old(states)@).dom(),
        mode == TorrentDownloadMode::Normal && downloads_unique(peers_view(old(states)@)) ==> downloads_unique(
            peers_view(final(states)@),
        ),
        peers_well_formed(peers_view(final(states)@)),
        after_pieces(
            peers_view(old(states)@),
            mode,
            peer_id,
            peer_pieces@,
            downloaded@,
            now,
            peers_view(final(states)@),
            actions@,
        ),
{
    let ghost m = peers_view(states@);
    let ghost before = states@;
    let new_pieces: Vec<usize> = if peer_connected(states, peer_id) {
        match states.remove(&peer_id) {
            Some(ps) => {
                let PeerState { peer, state, announce_count } = ps;
                match state {
                    TorrentPeerState::Connected(mut c) => {
                        let found = collect_pieces_and_update(&mut c.pieces, peer_pieces, downloaded);
                        let updated = PeerState {
                            peer,
                            state: TorrentPeerState::Connected(c),
                            announce_count,
                        };
                        states.insert(peer_id, updated);
                        proof {
                            lemma_peers_view_insert(before, peer_id, updated);
                            assert(updated@ == with_pieces(
                                m[peer_id],
                                merged_bitfield(pieces_of(m[peer_id]), peer_pieces@),
                            ));
                        }
                        found
                    },
                    _ => {
                        assert(false);
                        Vec::new()
                    },
                }
            },
            None => {
                assert(false);
                Vec::new()
            },
        }
    } else {
        Vec::new()
    };
    let ghost m1 = peers_view(states@);
    proof {
        if connected_in(m, peer_id) {
            assert(m1 == m.insert(
                peer_id,
                with_pieces(m[peer_id], merged_bitfield(pieces_of(m[peer_id]), peer_pieces@)),
            ));
            assert(new_pieces@ == offered_pieces(peer_pieces@, downloaded@, peer_pieces@.len() as int));
        } else {
            assert(m1 == m);
        }
        assert forall|k: u128| #![trigger m1[k]] m1.dom().contains(k) implies (m1[k].status matches PeerStatus::Connected(
            c,
        ) ==> c.pieces.len() * 8 <= usize::MAX) by {
            if k != peer_id {
                assert(m1[k] == m[k]);
            }
        }
    }
    proof {
        if downloads_unique(m) && connected_in(m, peer_id) {
            lemma_unique_insert(
                m,
                peer_id,
                with_pieces(m[peer_id], merged_bitfield(pieces_of(m[peer_id]), peer_pieces@)),
            );
        }
    }
    let actions = select_new_peer(new_pieces.as_slice(), states, mode, peer_id, now);
    proof {
        lemma_selected_well_formed(m1, mode, new_pieces@, peer_id, now, peers_view(states@), actions@);
        if mode == TorrentDownloadMode::Normal && downloads_unique(m1) {
            lemma_normal_mode_keeps_downloads_unique(m1, new_pieces@, peer_id, now, peers_view(states@), actions@);
        }
        if !connected_in(m, peer_id) {
            assert(new_pieces@.len() == 0);
            assert(!(exists|j: int| 0 <= j < new_pieces@.len() && #[trigger] selectable(m1, mode, new_pieces@[j])));
        }
    }
    actions
}

/// The pieces that the announcement of `piece` offers: itself, unless
/// `downloaded` holds it.
pub open spec fn announced_pieces(piece: usize, downloaded: Seq<u8>) -> Seq<usize> {
    if has_bit(downloaded, piece as int) {
        seq![]
    } else {
        seq![piece]
    }
}

proof fn lemma_single_bit(x: u8, d: u8, y: u8)
    requires
        x < 8,
        y < 8,
    ensures
        (((128u8 >> x) & !d) & (128u8 >> y) != 0) == (y == x && d & (128u8 >> x) != (128u8 >> x)),
        ((128u8 >> x) & (128u8 >> y) != 0) == (y == x),
{
    assert((((128u8 >> x) & !d) & (128u8 >> y) != 0) == (y == x && d & (128u8 >> x) != (128u8 >> x)))
        by (bit_vector)
        requires
            x < 8,
            y < 8,
    ;
    assert(((128u8 >> x) & (128u8 >> y) != 0) == (y == x)) by (bit_vector)
        requires
            x < 8,
            y < 8,
    ;
}

/// The bits of the byte that holds `piece` number pieces that a `usize`
/// holds.
proof fn lemma_last_byte_of_bitfield(piece: usize)
    ensures
        (piece / 8) * 8 + 7 <= usize::MAX,
{
    assert((piece / 8) * 8 + 7 == (piece | 7usize)) by (bit_vector);
}

proof fn lemma_single_bit_prefix(piece: usize, downloaded: Seq<u8>, j: int)
    requires
        0 <= j <= 8,
    ensures
        set_positions(new_bits(bit_mask(piece as int), downloaded, (piece / 8) as int), (piece / 8) as int, j) == if (piece
            % 8) < j && !has_bit(downloaded, piece as int) {
            seq![piece]
        } else {
            Seq::<usize>::empty()
        },
    decreases j,
{
    let i = piece / 8;
    let x = (piece % 8) as u8;
    let byte = new_bits(bit_mask(piece as int), downloaded, i as int);
    if j > 0 {
        lemma_single_bit_prefix(piece, downloaded, j - 1);
        let y = (j - 1) as u8;
        assert(bit_mask(j - 1) == 128u8 >> y);
        assert(bit_mask(piece as int) == 128u8 >> x);
        if i < downloaded.len() {
            lemma_single_bit(x, downloaded[i as int], y);
        } else {
            lemma_single_bit(x, 0u8, y);
        }
        assert(piece == i * 8 + x);
    }
}

/// A peer announced that it has `piece`: the peer gets, at `now`, that
/// piece to download if `downloaded` lacks it and it may be handed out.
pub fn process_peer_piece(
    states: &mut PeerStates,
    mode: TorrentDownloadMode,
    peer_id: u128,
    peer_piece: usize,
    downloaded: &[u8],
    now: u64,
) -> (actions: Vec<PeerAction>)
    ensures
        peers_view(final(states)@).dom() == peers_view(old(states)@).dom(),
        mode == TorrentDownloadMode::Normal && downloads_unique(peers_view(old(states)@)) ==> downloads_unique(
            peers_view(final(states)@),
        ),
        after_have(
            peers_view(old(states)@),
            mode,
            peer_id,
            peer_piece,
            downloaded@,
            now,
            peers_view(final(states)@),
            actions@,
        ),
{
    let mut downloadable: Vec<usize> = Vec::new();
    if peer_connected(states, peer_id) {
        let (index, bit) = index_in_bitarray(peer_piece);
        proof {
            lemma_last_byte_of_bitfield(peer_piece);
        }
        match_pieces(&mut downloadable, downloaded, index, bit);
        proof {
            lemma_single_bit_prefix(peer_piece, downloaded@, 8);
            assert(downloadable@ =~= announced_pieces(peer_piece, downloaded@));
        }
    }
    select_new_peer(downloadable.as_slice(), states, mode, peer_id, now)
}

/// The piece that a peer was asked for was given up: the peer downloads
/// nothing any more and gets, at `now`, one of the pieces its bitfield
/// offers that `downloaded` lacks.
pub fn process_peer_piece_canceled(
    states: &mut PeerStates,
    mode: TorrentDownloadMode,
    peer_id: u128,
    downloaded: &[u8],
    now: u64,
) -> (actions: Vec<PeerAction>)
    requires
        peers_well_formed(peers_view(old(states)@)),
    ensures
        peers_view(final(states)@).dom() == peers_view(old(states)@).dom(),
        mode == TorrentDownloadMode::Normal && downloads_unique(peers_view(old(states)@)) ==> downloads_unique(
            peers_view(final(states)@),
        ),
        peers_well_formed(peers_view(final(states)@)),
        after_canceled(peers_view(old(states)@), mode, peer_id, downloaded@, now, peers_view(final(states)@), actions@),
{
    let ghost m = peers_view(states@);
    let ghost before = states@;
    if !peer_connected(states, peer_id) {
        return Vec::new();
    }
    let new_pieces: Vec<usize> = match states.remove(&peer_id) {
        Some(ps) => {
            let PeerState { peer, state, announce_count } = ps;
            match state {
                TorrentPeerState::Connected(c) => {
                    assert(m[peer_id].status == PeerStatus::Connected(c@));
                    let found = downloadable_pieces(c.pieces.as_slice(), downloaded);
                    let updated = PeerState {
                        peer,
                        state: TorrentPeerState::Connected(
                            ConnectedPeer { downloading_piece: None, downloading_since: None, ..c },
                        ),
                        announce_count,
                    };
                    states.insert(peer_id, updated);
                    proof {
                        lemma_peers_view_insert(before, peer_id, updated);
                        assert(updated@ == cleared(m[peer_id]));
                    }
                    found
                },
                _ => {
                    assert(false);
                    Vec::new()
                },
            }
        },
        None => {
            assert(false);
            Vec::new()
        },
    };
    let ghost m1 = peers_view(states@);
    proof {
        assert(m1 == m.insert(peer_id, cleared(m[peer_id])));
        assert forall|k: u128| #![trigger m1[k]] m1.dom().contains(k) implies (m1[k].status matches PeerStatus::Connected(
            c,
        ) ==> c.pieces.len() * 8 <= usize::MAX) by {
            if k != peer_id {
                assert(m1[k] == m[k]);
            }
        }
    }
    let actions = select_new_peer(new_pieces.as_slice(), states, mode, peer_id, now);
    proof {
        lemma_selected_well_formed(m1, mode, new_pieces@, peer_id, now, peers_view(states@), actions@);
    }
    actions
}

/// The piece that the connected peer `s` finished downloading, when both
/// the piece and the start of its download are recorded.
pub open spec fn finished_piece(s: PeerView) -> Option<usize> {
    match s.status {
        PeerStatus::Connected(c) => if c.downloading_since is Some {
            c.downloading_piece
        } else {
            None
        },
        _ => None,
    }
}

/// A peer delivered the piece it downloaded: the peer downloads nothing any
/// more, and the piece to save is returned.
pub fn piece_downloaded_begin(states: &mut PeerStates, peer_id: u128) -> (r: Option<usize>)
    requires
        peers_well_formed(peers_view(old(states)@)),
    ensures
        peers_view(final(states)@).dom() == peers_view(old(states)@).dom(),
        downloads_unique(peers_view(old(states)@)) ==> downloads_unique(peers_view(final(states)@)),
        peers_well_formed(peers_view(final(states)@)),
        after_begin(peers_view(old(states)@), peer_id, peers_view(final(states)@), r),
{
    let ghost m = peers_view(states@);
    let ghost before = states@;
    if !peer_connected(states, peer_id) {
        return None;
    }
    let r = match states.remove(&peer_id) {
        Some(ps) => {
            let PeerState { peer, state, announce_count } = ps;
            match state {
                TorrentPeerState::Connected(c) => {
                    assert(m[peer_id].status == PeerStatus::Connected(c@));
                    let finished = match (c.downloading_piece, c.downloading_since) {
                        (Some(index), Some(_)) => Some(index),
                        _ => None,
                    };
                    let updated = PeerState {
                        peer,
                        state: TorrentPeerState::Connected(
                            ConnectedPeer { downloading_piece: None, downloading_since: None, ..c },
                        ),
                        announce_count,
                    };
                    states.insert(peer_id, updated);
                    proof {
                        lemma_peers_view_insert(before, peer_id, updated);
                        assert(updated@ == cleared(m[peer_id]));
                    }
                    finished
                },
                _ => {
                    assert(false);
                    None
                },
            }
        },
        None => {
            assert(false);
            None
        },
    };
    let ghost m1 = peers_view(states@);
    proof {
        assert forall|k: u128| #![trigger m1[k]] m1.dom().contains(k) implies (m1[k].status matches PeerStatus::Connected(
            c,
        ) ==> c.pieces.len() * 8 <= usize::MAX) by {
            if k != peer_id {
                assert(m1[k] == m[k]);
            }
        }
    }
    proof {
        assert(m1 =~= m.insert(peer_id, cleared(m[peer_id])));
        if downloads_unique(m) {
            lemma_unique_insert(m, peer_id, cleared(m[peer_id]));
        }
    }
    r
}

/// What the peer `s`, known as `k`, is told once piece `index` is saved:
/// a connected peer that lacks the piece learns that it is here, and is told
/// to give it up if it downloads it.
pub open spec fn notice(s: PeerView, k: u128, index: usize) -> Seq<PeerAction> {
    match s.status {
        PeerStatus::Connected(c) => if has_bit(c.pieces, index as int) {
            seq![]
        } else {
            seq![PeerAction::Have { peer_id: k, piece: index }] + if c.downloading_piece == Some(index) {
                seq![PeerAction::Cancel { peer_id: k }]
            } else {
                Seq::<PeerAction>::empty()
            }
        },
        _ => seq![],
    }
}

/// What the peers of `order`, but `peer_id`, are told once piece `index` is
/// saved, in that order.
pub open spec fn notices(m: Map<u128, PeerView>, order: Seq<u128>, peer_id: u128, index: usize) -> Seq<
    PeerAction,
>
    decreases order.len(),
{
    if order.len() == 0 {
        seq![]
    } else {
        notices(m, order.drop_last(), peer_id, index) + if order.last() == peer_id {
            Seq::<PeerAction>::empty()
        } else {
            notice(m[order.last()], order.last(), index)
        }
    }
}

/// The piece `index` that `peer_id` delivered was saved and `downloaded`
/// holds the saved pieces now: every other peer hears of it, in the order
/// in which the peers are walked, and `peer_id` gets, at `now`, one of the
/// pieces its bitfield offers that `downloaded` lacks.
pub fn piece_downloaded_finish(
    states: &mut PeerStates,
    mode: TorrentDownloadMode,
    peer_id: u128,
    index: usize,
    downloaded: &[u8],
    now: u64,
) -> (actions: Vec<PeerAction>)
    requires
        peers_well_formed(peers_view(old(states)@)),
    ensures
        peers_view(final(states)@).dom() == peers_view(old(states)@).dom(),
        mode == TorrentDownloadMode::Normal && downloads_unique(peers_view(old(states)@)) ==> downloads_unique(
            peers_view(final(states)@),
        ),
        peers_well_formed(peers_view(final(states)@)),
        after_finish(
            peers_view(old(states)@),
            mode,
            peer_id,
            index,
            downloaded@,
            now,
            peers_view(final(states)@),
            actions@,
        ),
{
    let ghost m = peers_view(states@);
    let ids = peer_ids(states);
    let mut actions: Vec<PeerAction> = Vec::new();
    let mut i: usize = 0;
    assert(ids@.take(0) =~= Seq::<u128>::empty());
    while i < ids.len()
        invariant
            i <= ids@.len(),
            m == peers_view(states@),
            m == peers_view(old(states)@),
            ids@.to_set() == states@.dom(),
            actions@ == notices(m, ids@.take(i as int), peer_id, index),
        decreases ids@.len() - i,
    {
        let id = ids[i];
        assert(ids@.take(i + 1).drop_last() =~= ids@.take(i as int));
        assert(ids@.to_set().contains(ids@[i as int]));
        let ghost prev = actions@;
        if id != peer_id {
            match states.get(&id) {
                Some(ps) => {
                    match &ps.state {
                        TorrentPeerState::Connected(c) => {
                            assert(m[id].status == PeerStatus::Connected(c@));
                            if bit_by_index(index, c.pieces.as_slice()).is_none() {
                                actions.push(PeerAction::Have { peer_id: id, piece: index });
                                if c.downloading_piece == Some(index) {
                                    actions.push(PeerAction::Cancel { peer_id: id });
                                }
                            }
                        },
                        _ => {},
                    }
                },
                None => {},
            }
        }
        assert(actions@ =~= prev + if id == peer_id {
            Seq::<PeerAction>::empty()
        } else {
            notice(m[id], id, index)
        });
        i += 1;
    }
    assert(ids@.take(ids@.len() as int) =~= ids@);
    let ghost notes = actions@;
    let new_pieces: Vec<usize> = match states.get(&peer_id) {
        Some(ps) => match &ps.state {
            TorrentPeerState::Connected(c) => {
                assert(m[peer_id].status == PeerStatus::Connected(c@));
                downloadable_pieces(c.pieces.as_slice(), downloaded)
            },
            _ => Vec::new(),
        },
        None => Vec::new(),
    };
    let mut rest = select_new_peer(new_pieces.as_slice(), states, mode, peer_id, now);
    let ghost rest_view = rest@;
    proof {
        lemma_selected_well_formed(m, mode, new_pieces@, peer_id, now, peers_view(states@), rest@);
    }
    actions.append(&mut rest);
    proof {
        let offered = if connected_in(m, peer_id) {
            offered_pieces(pieces_of(m[peer_id]), downloaded@, pieces_of(m[peer_id]).len() as int)
        } else {
            Seq::<usize>::empty()
        };
        assert(new_pieces@ == offered);
        assert(m.dom() =~= states@.dom());
        assert(actions@ == notices(m, ids@, peer_id, index) + rest_view);
        assert(selected(m, mode, offered, peer_id, now, peers_view(states@), rest_view));
        let n = notices(m, ids@, peer_id, index);
        assert(actions@.take(n.len() as int) =~= n);
        assert(actions@.skip(n.len() as int) =~= rest_view);
        assert(ids@.no_duplicates());
        assert(ids@.to_set() == m.dom());
        assert(notices(m, ids@, peer_id, index).len() <= actions@.len());
        assert(selected(m, mode, offered, peer_id, now, peers_view(states@), actions@.skip(n.len() as int)));
        assert(after_finish(m, mode, peer_id, index, downloaded@, now, peers_view(states@), actions@));
    }
    actions
}

/// The connected peer `s` with the flags `chocked` and `interested` set as
/// given.
pub open spec fn with_flags(s: PeerView, chocked: bool, interested: bool) -> PeerView {
    match s.status {
        PeerStatus::Connected(c) => PeerView {
            status: PeerStatus::Connected(ConnectedView { chocked, interested, ..c }),
            ..s
        },
        _ => s,
    }
}

/// Sets the flags of `peer_id`, when it is connected.
fn set_flags(states: &mut PeerStates, peer_id: u128, unchoke: bool, interest: bool)
    requires
        peers_well_formed(peers_view(old(states)@)),
    ensures
        peers_view(final(states)@).dom() == peers_view(old(states)@).dom(),
        downloads_unique(peers_view(old(states)@)) ==> downloads_unique(peers_view(final(states)@)),
        peers_well_formed(peers_view(final(states)@)),
        ({
            let m = peers_view(old(states)@);
            if connected_in(m, peer_id) {
                let c = m[peer_id].status->Connected_0;
                peers_view(final(states)@) == m.insert(
                    peer_id,
                    with_flags(m[peer_id], c.chocked && !unchoke, c.interested || interest),
                )
            } else {
                peers_view(final(states)@) == m
            }
        }),
{
    let ghost m = peers_view(states@);
    let ghost before = states@;
    if !peer_connected(states, peer_id) {
        return;
    }
    match states.remove(&peer_id) {
        Some(ps) => {
            let PeerState { peer, state, announce_count } = ps;
            match state {
                TorrentPeerState::Connected(c) => {
                    assert(m[peer_id].status == PeerStatus::Connected(c@));
                    let chocked = c.chocked && !unchoke;
                    let interested = c.interested || interest;
                    let updated = PeerState {
                        peer,
                        state: TorrentPeerState::Connected(ConnectedPeer { chocked, interested, ..c }),
                        announce_count,
                    };
                    states.insert(peer_id, updated);
                    proof {
                        lemma_peers_view_insert(before, peer_id, updated);
                        assert(updated@ == with_flags(m[peer_id], chocked, interested));
                        let m1 = peers_view(states@);
                        assert(m1 =~= m.insert(peer_id, updated@));
                        if downloads_unique(m) {
                            lemma_unique_insert(m, peer_id, updated@);
                        }
                        assert forall|k: u128| #![trigger m1[k]] m1.dom().contains(k) implies (m1[k].status matches PeerStatus::Connected(
                            c,
                        ) ==> c.pieces.len() * 8 <= usize::MAX) by {
                            if k != peer_id {
                                assert(m1[k] == m[k]);
                            }
                        }
                    }
                },
                _ => {
                    assert(false);
                },
            }
        },
        None => {
            assert(false);
        },
    }
}

/// A peer stopped choking us.
pub fn process_peer_unchoke(states: &mut PeerStates, peer_id: u128)
    requires
        peers_well_formed(peers_view(old(states)@)),
    ensures
        peers_view(final(states)@).dom() == peers_view(old(states)@).dom(),
        downloads_unique(peers_view(old(states)@)) ==> downloads_unique(peers_view(final(states)@)),
        peers_well_formed(peers_view(final(states)@)),
        after_unchoke(peers_view(old(states)@), peer_id, peers_view(final(states)@)),
{
    set_flags(states, peer_id, true, false);
}

/// A peer asked to download from us.
pub fn process_peer_interested(states: &mut PeerStates, peer_id: u128)
    requires
        peers_well_formed(peers_view(old(states)@)),
    ensures
        peers_view(final(states)@).dom() == peers_view(old(states)@).dom(),
        downloads_unique(peers_view(old(states)@)) ==> downloads_unique(peers_view(final(states)@)),
        peers_well_formed(peers_view(final(states)@)),
        after_interested(peers_view(old(states)@), peer_id, peers_view(final(states)@)),
{
    set_flags(states, peer_id, false, true);
}

/// A peer as it is when a connection to it just opened: choked, not
/// interested, downloading nothing, with no pieces known.
pub open spec fn just_connected(c: ConnectedView) -> bool {
    &&& c.chocked
    &&& !c.interested
    &&& c.downloading_piece is None
    &&& c.downloading_since is None
    &&& c.downloaded == 0
    &&& c.uploaded == 0
    &&& c.pieces.len() == 0
}

/// The state of a connection that just opened.
fn new_connection() -> (r: TorrentPeerState)
    ensures
        r matches TorrentPeerState::Connected(c) && just_connected(c@),
{
    TorrentPeerState::Connected(
        ConnectedPeer {
            chocked: true,
            interested: false,
            downloading_piece: None,
            downloading_since: None,
            downloaded: 0,
            uploaded: 0,
            pieces: Vec::new(),
        },
    )
}

/// The connection we opened to `peer_id` is up: the peer is connected, and
/// `true` says that the peer is known, so that the caller runs the
/// connection; an unknown peer is left alone.
pub fn process_peer_connected(states: &mut PeerStates, peer_id: u128) -> (known: bool)
    requires
        peers_well_formed(peers_view(old(states)@)),
    ensures
        peers_view(final(states)@).dom() == peers_view(old(states)@).dom(),
        downloads_unique(peers_view(old(states)@)) ==> downloads_unique(peers_view(final(states)@)),
        peers_well_formed(peers_view(final(states)@)),
        after_connected(peers_view(old(states)@), peer_id, peers_view(final(states)@), known),
{
    let ghost m = peers_view(states@);
    let ghost before = states@;
    match states.remove(&peer_id) {
        Some(ps) => {
            let updated = PeerState { peer: ps.peer, state: new_connection(), announce_count: ps.announce_count };
            states.insert(peer_id, updated);
            proof {
                lemma_peers_view_insert(before, peer_id, updated);
                assert(peers_view(states@) =~= m.insert(peer_id, updated@));
                if downloads_unique(m) {
                    lemma_unique_insert(m, peer_id, updated@);
                }
                let m1 = peers_view(states@);
                assert forall|k: u128| #![trigger m1[k]] m1.dom().contains(k) implies (m1[k].status matches PeerStatus::Connected(
                    c,
                ) ==> c.pieces.len() * 8 <= usize::MAX) by {
                    if k != peer_id {
                        assert(m1[k] == m[k]);
                    }
                }
            }
            true
        },
        None => {
            proof {
                assert(before.remove(peer_id) =~= before);
            }
            false
        },
    }
}

/// A peer connected to us and is known as `peer_id` from now on: it is
/// connected, and it is sent the bitfield `downloaded` of the pieces here
/// unless that is empty.
pub fn process_peer_forwarded(
    states: &mut PeerStates,
    peer_id: u128,
    peer: Peer,
    downloaded: &[u8],
) -> (actions: Vec<PeerAction>)
    requires
        peers_well_formed(peers_view(old(states)@)),
    ensures
        peers_view(final(states)@).dom() == peers_view(old(states)@).dom().insert(peer_id),
        downloads_unique(peers_view(old(states)@)) ==> downloads_unique(peers_view(final(states)@)),
        peers_well_formed(peers_view(final(states)@)),
        after_forwarded(
            peers_view(old(states)@),
            peer_id,
            peer,
            downloaded@,
            peers_view(final(states)@),
            actions@,
        ),
{
    let ghost m = peers_view(states@);
    let ghost before = states@;
    let updated = PeerState { peer, state: new_connection(), announce_count: 0 };
    states.insert(peer_id, updated);
    proof {
        lemma_peers_view_insert(before, peer_id, updated);
        let m1 = peers_view(states@);
        assert forall|k: u128| #![trigger m1[k]] m1.dom().contains(k) implies (m1[k].status matches PeerStatus::Connected(
            c,
        ) ==> c.pieces.len() * 8 <= usize::MAX) by {
            if k != peer_id {
                assert(m1[k] == m[k]);
            }
        }
    }
    let mut actions: Vec<PeerAction> = Vec::new();
    if downloaded.len() > 0 {
        let pieces = vstd::slice::slice_to_vec(downloaded);
        actions.push(PeerAction::Bitfield { peer_id, pieces });
    }
    actions
}

/// A peer disconnected, or the connection to it failed: it is forgotten.
pub fn process_peer_disconnect(states: &mut PeerStates, peer_id: u128)
    requires
        peers_well_formed(peers_view(old(states)@)),
    ensures
        peers_view(final(states)@).dom() == peers_view(old(states)@).dom().remove(peer_id),
        downloads_unique(peers_view(old(states)@)) ==> downloads_unique(peers_view(final(states)@)),
        peers_well_formed(peers_view(final(states)@)),
        peers_view(final(states)@) == peers_view(old(states)@).remove(peer_id),
{
    let ghost before = states@;
    states.remove(&peer_id);
    proof {
        lemma_peers_view_remove(before, peer_id);
    }
}

/// What a tracker announcing `s`, known as `k`, does: an idle peer is
/// connected to, a connected one counts the announcement, one being
/// connected to stays as it is.
pub open spec fn announce_outcome(
    m: Map<u128, PeerView>,
    k: u128,
    final_m: Map<u128, PeerView>,
    action: Option<PeerAction>,
) -> bool {
    let s = m[k];
    match s.status {
        PeerStatus::Idle => {
            &&& final_m == m.insert(k, PeerView { status: PeerStatus::Connecting, ..s })
            &&& action == Some(PeerAction::Connect { peer_id: k, peer: s.peer })
        },
        PeerStatus::Connected(_) => {
            &&& final_m == m.insert(k, PeerView { announce_count: (s.announce_count + 1) as usize, ..s })
            &&& action is None
        },
        PeerStatus::Connecting => {
            &&& final_m == m
            &&& action is None
        },
    }
}

/// A tracker announced `peer`. A peer of that address is handled by
/// `announce_outcome`; which one, when several have it, depends on the
/// order in which the peers are walked. An unknown peer is added under
/// `new_id` and connected to.
pub fn process_peer_announced(states: &mut PeerStates, peer: Peer, new_id: u128) -> (action: Option<
    PeerAction,
>)
    requires
        peers_well_formed(peers_view(old(states)@)),
        forall|k: u128|
            #![trigger old(states)@[k]]
            old(states)@.dom().contains(k) && old(states)@[k].peer == peer ==> old(states)@[k].announce_count
                < usize::MAX,
    ensures
        peers_view(final(states)@).dom() <= peers_view(old(states)@).dom().insert(new_id),
        downloads_unique(peers_view(old(states)@)) ==> downloads_unique(peers_view(final(states)@)),
        peers_well_formed(peers_view(final(states)@)),
        after_announced(peers_view(old(states)@), peer, new_id, peers_view(final(states)@), action),
{
    let ghost m = peers_view(states@);
    let ghost before = states@;
    let ids = peer_ids(states);
    let mut i: usize = 0;
    while i < ids.len()
        invariant
            i <= ids@.len(),
            before == states@,
            m == peers_view(states@),
            m == peers_view(old(states)@),
            ids@.to_set() == states@.dom(),
            forall|j: int| 0 <= j < i ==> #[trigger] m[ids@[j]].peer != peer,
            peers_well_formed(m),
            forall|k: u128|
                #![trigger before[k]]
                before.dom().contains(k) && before[k].peer == peer ==> before[k].announce_count < usize::MAX,
        decreases ids@.len() - i,
    {
        let id = ids[i];
        assert(ids@.to_set().contains(ids@[i as int]));
        let found = match states.get(&id) {
            Some(ps) => ps.peer == peer,
            None => false,
        };
        if found {
            assert(m.dom().contains(id) && m[id].peer == peer);
            let ps = match states.remove(&id) {
                Some(ps) => ps,
                None => {
                    assert(false);
                    return None;
                },
            };
            assert(ps == before[id]);
            let PeerState { peer: address, state, announce_count } = ps;
            let ghost s = m[id];
            assert(announce_count < usize::MAX);
            let (state, announce_count, action) = match state {
                TorrentPeerState::Idle => (
                    TorrentPeerState::Connecting,
                    announce_count,
                    Some(PeerAction::Connect { peer_id: id, peer: address }),
                ),
                TorrentPeerState::Connected(c) => (TorrentPeerState::Connected(c), announce_count + 1, None),
                TorrentPeerState::Connecting => (TorrentPeerState::Connecting, announce_count, None),
            };
            let updated = PeerState { peer: address, state, announce_count };
            states.insert(id, updated);
            proof {
                assert(states@ =~= before.insert(id, updated));
                lemma_peers_view_insert(before, id, updated);
                let fm = peers_view(states@);
                match s.status {
                    PeerStatus::Idle => {
                        assert(updated@ == PeerView { status: PeerStatus::Connecting, ..s });
                    },
                    PeerStatus::Connected(_) => {
                        assert(updated@ == PeerView { announce_count: (s.announce_count + 1) as usize, ..s });
                    },
                    PeerStatus::Connecting => {
                        assert(updated@ == s);
                        assert(fm =~= m);
                    },
                }
                assert(announce_outcome(m, id, fm, action));
                if downloads_unique(m) {
                    lemma_unique_insert(m, id, updated@);
                }
                assert forall|k: u128| #![trigger fm[k]] fm.dom().contains(k) implies (fm[k].status matches PeerStatus::Connected(
                    c,
                ) ==> c.pieces.len() * 8 <= usize::MAX) by {
                    if k != id {
                        assert(fm[k] == m[k]);
                    }
                }
            }
            return action;
        }
        i += 1;
    }
    proof {
        if exists|k: u128| m.dom().contains(k) && #[trigger] m[k].peer == peer {
            let k = choose|k: u128| m.dom().contains(k) && #[trigger] m[k].peer == peer;
            assert(ids@.to_set().contains(k));
            let j = choose|j: int| 0 <= j < ids@.len() && ids@[j] == k;
            assert(m[ids@[j]].peer != peer);
        }
    }
    let updated = PeerState { peer, state: TorrentPeerState::Connecting, announce_count: 0 };
    states.insert(new_id, updated);
    proof {
        lemma_peers_view_insert(before, new_id, updated);
        let fm = peers_view(states@);
        assert forall|k: u128| #![trigger fm[k]] fm.dom().contains(k) implies (fm[k].status matches PeerStatus::Connected(
            c,
        ) ==> c.pieces.len() * 8 <= usize::MAX) by {
            if k != new_id {
                assert(fm[k] == m[k]);
            }
        }
    }
    Some(PeerAction::Connect { peer_id: new_id, peer })
}

} // verus!
