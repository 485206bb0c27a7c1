//! The download of one torrent as a state machine: each event about its
//! peers updates what is known of them and says what the caller is to do.

use vstd::prelude::*;
use crate::swarm::{
    after_announced, after_begin, after_canceled, after_connected, after_finish, after_forwarded,
    after_have, after_interested, after_pieces, after_unchoke, connected_in, determine_download_mode,
    download_mode, downloads_unique, peer_connected, peers_view, peers_well_formed, piece_downloaded_begin,
    piece_downloaded_finish, process_peer_announced, process_peer_connected, process_peer_disconnect,
    process_peer_forwarded, process_peer_interested, process_peer_piece, process_peer_piece_canceled,
    process_peer_pieces, process_peer_unchoke, Peer, PeerAction, PeerStates, PeerView, TorrentDownloadMode,
};

verus! {

broadcast use vstd::std_specs::hash::group_hash_axioms;

/// What happens to the peers of a torrent.
#[derive(Debug)]
pub enum DownloadEvent {
    /// A tracker announced a peer.
    PeerAnnounced(Peer),
    /// The connection we opened to a peer is up.
    PeerConnected(u128),
    /// A peer connected to us.
    PeerForwarded(Peer),
    /// The connection to a peer could not be opened.
    PeerConnectFailed(u128),
    /// A peer went away.
    PeerDisconnect(u128),
    /// A peer sent its bitfield.
    PeerPieces(u128, Vec<u8>),
    /// A peer has a new piece.
    PeerPiece(u128, usize),
    PeerUnchoke(u128),
    PeerInterested(u128),
    /// A peer delivered the piece it was asked for.
    PeerPieceDownloaded(u128, Vec<u8>),
    /// The piece a peer was asked for was given up.
    PeerPieceCanceled(u128),
    /// A peer asks for a block.
    PeerPieceRequest { peer_id: u128, index: u32, begin: u32, length: u32 },
}

/// What the caller does after an event.
#[derive(Debug)]
pub enum DownloadStep {
    /// Carry out the actions.
    Act(Vec<PeerAction>),
    /// Start the conversation with the peer known under the id, then carry
    /// out the actions.
    Converse(u128, Vec<PeerAction>),
    /// Save `data` as piece `index`, delivered by `peer_id`, then report
    /// with `piece_saved`.
    Save { peer_id: u128, index: usize, data: Vec<u8> },
    /// Send the peer the block it asked for, read from the saved piece.
    Serve { peer_id: u128, index: u32, begin: u32, length: u32 },
}

/// The peers of a torrent, the mode pieces are handed out in, and the id
/// the next new peer gets.
#[derive(Debug)]
pub struct TorrentDownload {
    pub peers: PeerStates,
    pub mode: TorrentDownloadMode,
    pub next_id: u128,
}

impl TorrentDownload {
    /// The peers as the contracts see them.
    pub open spec fn view_peers(&self) -> Map<u128, PeerView> {
        peers_view(self.peers@)
    }

    /// The bitfields are small enough, and every peer's id is below the
    /// next one, so that the next id is new.
    pub open spec fn well_formed(&self) -> bool {
        &&& peers_well_formed(self.view_peers())
        &&& forall|k: u128| #[trigger] self.view_peers().dom().contains(k) ==> k < self.next_id
    }

    /// The event can be handled without a counter overflowing: a peer that
    /// is announced or forwarded draws a new id, an announced peer's count
    /// grows, and the pieces of a bitfield are numbered by `usize`.
    pub open spec fn can_handle(&self, event: DownloadEvent) -> bool {
        match event {
            DownloadEvent::PeerPieces(_, pieces) => pieces@.len() * 8 <= usize::MAX,
            DownloadEvent::PeerAnnounced(peer) => self.next_id < u128::MAX && forall|k: u128|
                #![trigger self.peers@[k]]
                self.peers@.dom().contains(k) && self.peers@[k].peer == peer ==> self.peers@[k].announce_count
                    < usize::MAX,
            DownloadEvent::PeerForwarded(_) => self.next_id < u128::MAX,
            _ => true,
        }
    }

    /// No peers yet, pieces handed out one peer at a time.
    pub fn new() -> (r: Self)
        ensures
            r.well_formed(),
            r.view_peers() == Map::<u128, PeerView>::empty(),
            r.mode == TorrentDownloadMode::Normal,
    {
        let r = TorrentDownload {
            peers: std::collections::HashMap::new(),
            mode: TorrentDownloadMode::Normal,
            next_id: 0,
        };
        assert(r.view_peers() =~= Map::<u128, PeerView>::empty());
        r
    }

    /// Handles `event` at `now`, with `downloaded` the bitfield of the saved
    /// pieces and `pieces_left` the number of missing ones. A new peer gets
    /// the next id. A delivered piece is to be saved when its download was
    /// recorded; when it was not, the download mode is determined anew at
    /// once.
    pub fn handle(&mut self, event: DownloadEvent, downloaded: &[u8], pieces_left: usize, now: u64) -> (step:
        DownloadStep)
        requires
            old(self).well_formed(),
            old(self).can_handle(event),
        ensures
            final(self).well_formed(),
            old(self).mode == TorrentDownloadMode::Normal && downloads_unique(old(self).view_peers())
                ==> downloads_unique(final(self).view_peers()),
            ({
                let m = old(self).view_peers();
                let fm = final(self).view_peers();
                let mode = old(self).mode;
                let id = old(self).next_id;
                match event {
                    DownloadEvent::PeerAnnounced(peer) => step matches DownloadStep::Act(a) && (a@.len() <= 1
                        && after_announced(m, peer, id, fm, if a@.len() == 1 { Some(a@[0]) } else { None }))
                        && final(self).next_id == id + 1 && final(self).mode == mode,
                    DownloadEvent::PeerConnected(peer_id) => {
                        &&& after_connected(m, peer_id, fm, step is Converse)
                        &&& step matches DownloadStep::Converse(p, a) ==> p == peer_id && a@.len() == 0
                        &&& step matches DownloadStep::Act(a) ==> a@.len() == 0
                        &&& (step is Converse || step is Act)
                        &&& final(self).next_id == id && final(self).mode == mode
                    },
                    DownloadEvent::PeerForwarded(peer) => step matches DownloadStep::Converse(p, a) && p == id
                        && after_forwarded(m, id, peer, downloaded@, fm, a@) && final(self).next_id == id + 1
                        && final(self).mode == mode,
                    DownloadEvent::PeerConnectFailed(peer_id) | DownloadEvent::PeerDisconnect(peer_id) => step matches DownloadStep::Act(a)
                        && a@.len() == 0 && fm == m.remove(peer_id) && final(self).next_id == id
                        && final(self).mode == mode,
                    DownloadEvent::PeerPieces(peer_id, pieces) => step matches DownloadStep::Act(a) && after_pieces(
                        m,
                        mode,
                        peer_id,
                        pieces@,
                        downloaded@,
                        now,
                        fm,
                        a@,
                    ) && final(self).next_id == id && final(self).mode == mode,
                    DownloadEvent::PeerPiece(peer_id, piece) => step matches DownloadStep::Act(a) && after_have(
                        m,
                        mode,
                        peer_id,
                        piece,
                        downloaded@,
                        now,
                        fm,
                        a@,
                    ) && final(self).next_id == id && final(self).mode == mode,
                    DownloadEvent::PeerUnchoke(peer_id) => step matches DownloadStep::Act(a) && a@.len() == 0
                        && after_unchoke(m, peer_id, fm) && final(self).next_id == id && final(self).mode == mode,
                    DownloadEvent::PeerInterested(peer_id) => step matches DownloadStep::Act(a) && a@.len() == 0
                        && after_interested(m, peer_id, fm) && final(self).next_id == id && final(self).mode
                        == mode,
                    DownloadEvent::PeerPieceCanceled(peer_id) => step matches DownloadStep::Act(a)
                        && after_canceled(m, mode, peer_id, downloaded@, now, fm, a@) && final(self).next_id == id
                        && final(self).mode == mode,
                    DownloadEvent::PeerPieceDownloaded(peer_id, data) => {
                        &&& final(self).next_id == id
                        &&& match step {
                            DownloadStep::Save { peer_id: p, index, data: d } => {
                                &&& after_begin(m, peer_id, fm, Some(index))
                                &&& p == peer_id
                                &&& d@ == data@
                                &&& final(self).mode == mode
                            },
                            DownloadStep::Act(a) => {
                                &&& after_begin(m, peer_id, fm, None)
                                &&& a@.len() == 0
                                &&& final(self).mode == download_mode(fm, pieces_left as int)
                            },
                            _ => false,
                        }
                    },
                    DownloadEvent::PeerPieceRequest { peer_id, index, begin, length } => {
                        &&& fm == m
                        &&& final(self).next_id == id
                        &&& final(self).mode == mode
                        &&& if connected_in(m, peer_id) {
                            step == DownloadStep::Serve { peer_id, index, begin, length }
                        } else {
                            step matches DownloadStep::Act(a) && a@.len() == 0
                        }
                    },
                }
            }),
    {
        let ghost m = self.view_peers();
        let mode = self.mode;
        match event {
            DownloadEvent::PeerAnnounced(peer) => {
                let id = self.next_id;
                let action = process_peer_announced(&mut self.peers, peer, id);
                self.next_id = id + 1;
                let mut actions: Vec<PeerAction> = Vec::new();
                let ghost a = action;
                match action {
                    Some(x) => {
                        actions.push(x);
                    },
                    None => {},
                }
                assert(a == if actions@.len() == 1 { Some(actions@[0]) } else { None::<PeerAction> });
                DownloadStep::Act(actions)
            },
            DownloadEvent::PeerConnected(peer_id) => {
                let known = process_peer_connected(&mut self.peers, peer_id);
                if known {
                    DownloadStep::Converse(peer_id, Vec::new())
                } else {
                    DownloadStep::Act(Vec::new())
                }
            },
            DownloadEvent::PeerForwarded(peer) => {
                let id = self.next_id;
                let actions = process_peer_forwarded(&mut self.peers, id, peer, downloaded);
                self.next_id = id + 1;
                DownloadStep::Converse(id, actions)
            },
            DownloadEvent::PeerConnectFailed(peer_id) => {
                process_peer_disconnect(&mut self.peers, peer_id);
                DownloadStep::Act(Vec::new())
            },
            DownloadEvent::PeerDisconnect(peer_id) => {
                process_peer_disconnect(&mut self.peers, peer_id);
                DownloadStep::Act(Vec::new())
            },
            DownloadEvent::PeerPieces(peer_id, pieces) => {
                let actions = process_peer_pieces(&mut self.peers, mode, peer_id, pieces.as_slice(), downloaded, now);
                DownloadStep::Act(actions)
            },
            DownloadEvent::PeerPiece(peer_id, piece) => {
                let actions = process_peer_piece(&mut self.peers, mode, peer_id, piece, downloaded, now);
                DownloadStep::Act(actions)
            },
            DownloadEvent::PeerUnchoke(peer_id) => {
                process_peer_unchoke(&mut self.peers, peer_id);
                DownloadStep::Act(Vec::new())
            },
            DownloadEvent::PeerInterested(peer_id) => {
                process_peer_interested(&mut self.peers, peer_id);
                DownloadStep::Act(Vec::new())
            },
            DownloadEvent::PeerPieceCanceled(peer_id) => {
                let actions = process_peer_piece_canceled(&mut self.peers, mode, peer_id, downloaded, now);
                DownloadStep::Act(actions)
            },
            DownloadEvent::PeerPieceDownloaded(peer_id, data) => {
                let started = piece_downloaded_begin(&mut self.peers, peer_id);
                match started {
                    Some(index) => DownloadStep::Save { peer_id, index, data },
                    None => {
                        self.mode = determine_download_mode(&self.peers, pieces_left);
                        DownloadStep::Act(Vec::new())
                    },
                }
            },
            DownloadEvent::PeerPieceRequest { peer_id, index, begin, length } => {
                if peer_connected(&self.peers, peer_id) {
                    DownloadStep::Serve { peer_id, index, begin, length }
                } else {
                    DownloadStep::Act(Vec::new())
                }
            },
        }
    }

    /// Piece `index`, delivered by `peer_id`, was saved when `saved` holds,
    /// and `downloaded` and `pieces_left` describe the saved pieces now:
    /// after a save every other peer hears of the piece and `peer_id` may
    /// get another one; either way the download mode is determined anew.
    pub fn piece_saved(
        &mut self,
        peer_id: u128,
        index: usize,
        saved: bool,
        downloaded: &[u8],
        pieces_left: usize,
        now: u64,
    ) -> (actions: Vec<PeerAction>)
        requires
            old(self).well_formed(),
        ensures
            final(self).well_formed(),
            final(self).next_id == old(self).next_id,
            old(self).mode == TorrentDownloadMode::Normal && downloads_unique(old(self).view_peers())
                ==> downloads_unique(final(self).view_peers()),
            saved ==> after_finish(
                old(self).view_peers(),
                old(self).mode,
                peer_id,
                index,
                downloaded@,
                now,
                final(self).view_peers(),
                actions@,
            ),
            !saved ==> final(self).view_peers() == old(self).view_peers() && actions@.len() == 0,
            final(self).mode == download_mode(final(self).view_peers(), pieces_left as int),
    {
        let ghost m = self.view_peers();
        let actions = if saved {
            piece_downloaded_finish(&mut self.peers, self.mode, peer_id, index, downloaded, now)
        } else {
            Vec::new()
        };
        self.mode = determine_download_mode(&self.peers, pieces_left);
        actions
    }
}

} // verus!
