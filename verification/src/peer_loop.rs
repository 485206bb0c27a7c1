//! The conversation with one peer: the messages it sends, the commands the
//! torrent gives about it, and what follows from each, one step at a time.
//! The caller sends the messages and hands on the events that come back.

use sha1::{Digest, Sha1};
use vstd::prelude::*;
use crate::message::{Message, SpecMessage};
use crate::pieces::{request_message, BLOCK_SIZE};

verus! {

/// The SHA-1 digest of `data`.
pub uninterp spec fn sha1_digest(data: Seq<u8>) -> Seq<u8>;

/// `sha1::Sha1::digest`: the SHA-1 digest of `data`, twenty bytes that
/// depend on `data` alone.
#[verifier::external_body]
pub(crate) fn sha1_of(data: &[u8]) -> (r: [u8; 20])
    ensures
        r@ == sha1_digest(data@),
{
    let digest = Sha1::digest(data);
    let mut out = [0u8; 20];
    out.copy_from_slice(digest.as_slice());
    out
}

/// What one peer's conversation tells the torrent.
#[derive(Debug)]
pub enum PeerEvent {
    /// The peer sent its bitfield.
    PeerPieces(Vec<u8>),
    /// The peer has a new piece.
    PeerPiece(usize),
    /// The peer stopped choking us.
    PeerUnchoke,
    /// The peer wants to download from us.
    PeerInterested,
    /// The piece the peer was asked for arrived whole.
    PeerPieceDownloaded(Vec<u8>),
    /// The piece the peer was asked for was given up.
    PeerPieceCanceled,
    /// The peer asks for a block.
    PeerPieceRequest { index: u32, begin: u32, length: u32 },
}

/// A command of the torrent about one peer.
#[derive(Debug)]
pub enum PeerCommand {
    Disconnect,
    Cancel,
    /// A message that arrived from the peer.
    Message(Message),
    /// Download the piece, of the given length.
    Download { piece: usize, piece_length: usize },
    Have(usize),
    Bitfield(Vec<u8>),
    Piece { index: u32, begin: u32, block: Vec<u8> },
}

/// The state of the conversation with one peer.
#[derive(Debug)]
pub struct PeerLoopMessage {
    /// How many messages the peer sent.
    pub message_count: usize,
    /// The peer chokes us.
    pub chocked: bool,
    /// The peer asked to download from us.
    pub interested: bool,
    /// The piece we download from the peer.
    pub downloading: Option<usize>,
    /// The bytes of that piece that arrived so far.
    pub torrent_piece: Option<Vec<u8>>,
    /// The length of that piece.
    pub piece_length: usize,
    /// The block last asked for.
    pub request: Option<(u32, u32, u32)>,
}

/// What one step of the conversation gives: a message to send to the peer,
/// an event for the torrent, whether the event goes before the message,
/// whether the conversation ends, and whether a piece that arrived whole
/// does not match its digest.
#[derive(Debug)]
pub struct LoopOutput {
    pub send: Option<Message>,
    pub event: Option<PeerEvent>,
    pub event_first: bool,
    pub stop: bool,
    pub sha1_mismatch: bool,
}

/// The mathematical form of an event.
pub enum SpecPeerEvent {
    PeerPieces(Seq<u8>),
    PeerPiece(usize),
    PeerUnchoke,
    PeerInterested,
    PeerPieceDownloaded(Seq<u8>),
    PeerPieceCanceled,
    PeerPieceRequest { index: u32, begin: u32, length: u32 },
}

/// The mathematical form of a command.
pub enum SpecCommand {
    Disconnect,
    Cancel,
    Message(SpecMessage),
    Download { piece: usize, piece_length: usize },
    Have(usize),
    Bitfield(Seq<u8>),
    Piece { index: u32, begin: u32, block: Seq<u8> },
}

impl View for PeerCommand {
    type V = SpecCommand;

    open spec fn view(&self) -> SpecCommand {
        match self {
            PeerCommand::Disconnect => SpecCommand::Disconnect,
            PeerCommand::Cancel => SpecCommand::Cancel,
            PeerCommand::Message(m) => SpecCommand::Message(m@),
            PeerCommand::Download { piece, piece_length } => SpecCommand::Download {
                piece: *piece,
                piece_length: *piece_length,
            },
            PeerCommand::Have(p) => SpecCommand::Have(*p),
            PeerCommand::Bitfield(b) => SpecCommand::Bitfield(b@),
            PeerCommand::Piece { index, begin, block } => SpecCommand::Piece {
                index: *index,
                begin: *begin,
                block: block@,
            },
        }
    }
}

/// The conversation state as the contracts see it.
pub struct LoopState {
    pub message_count: usize,
    pub chocked: bool,
    pub interested: bool,
    pub downloading: Option<usize>,
    pub torrent_piece: Option<Seq<u8>>,
    pub piece_length: usize,
    pub request: Option<(u32, u32, u32)>,
}

/// The output of a step as the contracts see it.
pub struct OutputView {
    pub send: Option<SpecMessage>,
    pub event: Option<SpecPeerEvent>,
    pub event_first: bool,
    pub stop: bool,
    pub sha1_mismatch: bool,
}

impl View for PeerEvent {
    type V = SpecPeerEvent;

    open spec fn view(&self) -> SpecPeerEvent {
        match self {
            PeerEvent::PeerPieces(p) => SpecPeerEvent::PeerPieces(p@),
            PeerEvent::PeerPiece(p) => SpecPeerEvent::PeerPiece(*p),
            PeerEvent::PeerUnchoke => SpecPeerEvent::PeerUnchoke,
            PeerEvent::PeerInterested => SpecPeerEvent::PeerInterested,
            PeerEvent::PeerPieceDownloaded(d) => SpecPeerEvent::PeerPieceDownloaded(d@),
            PeerEvent::PeerPieceCanceled => SpecPeerEvent::PeerPieceCanceled,
            PeerEvent::PeerPieceRequest { index, begin, length } => SpecPeerEvent::PeerPieceRequest {
                index: *index,
                begin: *begin,
                length: *length,
            },
        }
    }
}

impl View for PeerLoopMessage {
    type V = LoopState;

    open spec fn view(&self) -> LoopState {
        LoopState {
            message_count: self.message_count,
            chocked: self.chocked,
            interested: self.interested,
            downloading: self.downloading,
            torrent_piece: match self.torrent_piece {
                Some(v) => Some(v@),
                None => None,
            },
            piece_length: self.piece_length,
            request: self.request,
        }
    }
}

impl View for LoopOutput {
    type V = OutputView;

    open spec fn view(&self) -> OutputView {
        OutputView {
            send: match self.send {
                Some(m) => Some(m@),
                None => None,
            },
            event: match self.event {
                Some(e) => Some(e@),
                None => None,
            },
            event_first: self.event_first,
            stop: self.stop,
            sha1_mismatch: self.sha1_mismatch,
        }
    }
}

/// A step that does nothing.
pub open spec fn quiet(stop: bool) -> OutputView {
    OutputView { send: None, event: None, event_first: false, stop, sha1_mismatch: false }
}

/// A step that only tells the torrent `e`.
pub open spec fn tell(e: SpecPeerEvent) -> OutputView {
    OutputView { send: None, event: Some(e), event_first: false, stop: false, sha1_mismatch: false }
}

/// The request for the next block of `piece` when `buf` holds its first
/// bytes.
pub open spec fn next_request(buf: Seq<u8>, piece: usize, piece_length: usize) -> (u32, u32, u32) {
    (
        piece as u32,
        buf.len() as u32,
        (if piece_length - buf.len() < BLOCK_SIZE {
            piece_length - buf.len()
        } else {
            BLOCK_SIZE as int
        }) as u32,
    )
}

/// The message that asks for the block `r`.
pub open spec fn request_of(r: (u32, u32, u32)) -> SpecMessage {
    SpecMessage::Request { index: r.0, begin: r.1, length: r.2 }
}

/// The bytes of the piece under way fit in it, so that the next block can
/// be asked for.
pub open spec fn piece_fits(s: LoopState) -> bool {
    s.torrent_piece matches Some(b) ==> b.len() <= s.piece_length
}

/// Whether `a` and `b` hold the same bytes.
pub(crate) fn bytes_equal(a: &[u8], b: &[u8]) -> (r: bool)
    ensures
        r == (a@ == b@),
{
    if a.len() != b.len() {
        return false;
    }
    let mut i: usize = 0;
    while i < a.len()
        invariant
            a@.len() == b@.len(),
            i <= a@.len(),
            forall|j: int| 0 <= j < i ==> a@[j] == b@[j],
        decreases a@.len() - i,
    {
        if a[i] != b[i] {
            return false;
        }
        i += 1;
    }
    assert(a@ =~= b@);
    true
}

fn quiet_output(stop: bool) -> (r: LoopOutput)
    ensures
        r@ == quiet(stop),
{
    LoopOutput { send: None, event: None, event_first: false, stop, sha1_mismatch: false }
}

fn tell_output(e: PeerEvent) -> (r: LoopOutput)
    ensures
        r@ == tell(e@),
{
    LoopOutput { send: None, event: Some(e), event_first: false, stop: false, sha1_mismatch: false }
}

/// The peer sent its bitfield, which must be its first message.
pub open spec fn step_bitfield(s: LoopState, pieces: Seq<u8>) -> (LoopState, OutputView) {
    if s.message_count != 1 {
        (s, quiet(true))
    } else {
        (s, tell(SpecPeerEvent::PeerPieces(pieces)))
    }
}

/// The peer stopped choking us: the torrent is told so first, then, if a
/// piece is under way, its next block is asked for.
pub open spec fn step_unchoke(s: LoopState) -> (LoopState, OutputView) {
    let unchoked = LoopState { chocked: false, ..s };
    match (s.downloading, s.torrent_piece) {
        (Some(piece), Some(buf)) => {
            let r = next_request(buf, piece, s.piece_length);
            (
                LoopState { request: Some(r), ..unchoked },
                OutputView {
                    send: Some(request_of(r)),
                    event: Some(SpecPeerEvent::PeerUnchoke),
                    event_first: true,
                    stop: false,
                    sha1_mismatch: false,
                },
            )
        },
        _ => (
            unchoked,
            OutputView {
                send: None,
                event: Some(SpecPeerEvent::PeerUnchoke),
                event_first: true,
                stop: false,
                sha1_mismatch: false,
            },
        ),
    }
}

/// The peer asks for a block; only a peer that said it is interested may,
/// or the conversation ends.
pub open spec fn step_request(s: LoopState, index: u32, begin: u32, length: u32) -> (
    LoopState,
    OutputView,
) {
    if !s.interested {
        (s, quiet(true))
    } else {
        (s, tell(SpecPeerEvent::PeerPieceRequest { index, begin, length }))
    }
}

/// A block of the piece under way arrived. A block of another piece, or one
/// that does not start where the bytes so far end, is ignored. Otherwise
/// the block is appended: while the piece is not whole its next block is
/// asked for; once it is whole it goes to the torrent, with a flag for a
/// digest that differs from `expected`; a piece that grew too long is left
/// as it is.
pub open spec fn step_piece(s: LoopState, index: u32, begin: u32, block: Seq<u8>, expected: Seq<u8>) -> (
    LoopState,
    OutputView,
) {
    match (s.downloading, s.torrent_piece) {
        (Some(piece), Some(buf)) => if piece as u32 != index || buf.len() != begin as int {
            (s, quiet(false))
        } else {
            let nb = buf + block;
            if s.piece_length > nb.len() {
                let r = next_request(nb, piece, s.piece_length);
                (
                    LoopState { torrent_piece: Some(nb), request: Some(r), ..s },
                    OutputView { send: Some(request_of(r)), event: None, event_first: false, stop: false, sha1_mismatch: false },
                )
            } else if s.piece_length == nb.len() {
                (
                    LoopState { torrent_piece: None, downloading: None, ..s },
                    OutputView {
                        send: None,
                        event: Some(SpecPeerEvent::PeerPieceDownloaded(nb)),
                        event_first: false,
                        stop: false,
                        sha1_mismatch: sha1_digest(nb) != expected,
                    },
                )
            } else {
                (LoopState { torrent_piece: Some(nb), ..s }, quiet(false))
            }
        },
        _ => (s, quiet(false)),
    }
}

/// A message arrived from the peer: it is counted and answered.
pub open spec fn step_message(s: LoopState, message: SpecMessage, expected: Seq<u8>) -> (
    LoopState,
    OutputView,
) {
    let counted = LoopState { message_count: (s.message_count + 1) as usize, ..s };
    match message {
        SpecMessage::Bitfield(pieces) => step_bitfield(counted, pieces),
        SpecMessage::Have { piece_index } => (counted, tell(SpecPeerEvent::PeerPiece(piece_index as usize))),
        SpecMessage::Unchoke => step_unchoke(counted),
        SpecMessage::Interested => (
            LoopState { interested: true, ..counted },
            tell(SpecPeerEvent::PeerInterested),
        ),
        SpecMessage::Piece { index, begin, block } => step_piece(counted, index, begin, block, expected),
        SpecMessage::Request { index, begin, length } => step_request(counted, index, begin, length),
        _ => (counted, quiet(false)),
    }
}

/// A step that only sends `m` to the peer.
pub open spec fn send(m: SpecMessage) -> OutputView {
    OutputView { send: Some(m), event: None, event_first: false, stop: false, sha1_mismatch: false }
}

/// A command of the torrent: a message that arrived is answered, one to
/// send is sent; a cancel gives up the piece under way and tells the peer,
/// then the torrent; a download starts a piece and asks for its first block,
/// or, while the peer chokes us, says that we are interested.
pub open spec fn step_command(s: LoopState, command: SpecCommand, expected: Seq<u8>) -> (
    LoopState,
    OutputView,
) {
    match command {
        SpecCommand::Disconnect => (s, quiet(true)),
        SpecCommand::Cancel => match s.request {
            Some(r) => (
                LoopState { request: None, downloading: None, torrent_piece: None, ..s },
                OutputView {
                    send: Some(SpecMessage::Cancel { index: r.0, begin: r.1, length: r.2 }),
                    event: Some(SpecPeerEvent::PeerPieceCanceled),
                    event_first: false,
                    stop: false,
                    sha1_mismatch: false,
                },
            ),
            None => (s, quiet(false)),
        },
        SpecCommand::Message(m) => step_message(s, m, expected),
        SpecCommand::Download { piece, piece_length } => {
            let started = LoopState {
                piece_length,
                downloading: Some(piece),
                torrent_piece: Some(Seq::empty()),
                ..s
            };
            if s.chocked {
                (started, send(SpecMessage::Interested))
            } else {
                let r = next_request(Seq::empty(), piece, piece_length);
                (LoopState { request: Some(r), ..started }, send(request_of(r)))
            }
        },
        SpecCommand::Have(piece) => (s, send(SpecMessage::Have { piece_index: piece as u32 })),
        SpecCommand::Bitfield(pieces) => (s, send(SpecMessage::Bitfield(pieces))),
        SpecCommand::Piece { index, begin, block } => (s, send(SpecMessage::Piece { index, begin, block })),
    }
}

impl PeerLoopMessage {
    /// The conversation with a peer that just connected: it chokes us and
    /// nothing is under way.
    pub fn new() -> (r: Self)
        ensures
            r@ == (LoopState {
                message_count: 0,
                chocked: true,
                interested: false,
                downloading: None,
                torrent_piece: None,
                piece_length: 0,
                request: None,
            }),
    {
        PeerLoopMessage {
            message_count: 0,
            chocked: true,
            interested: false,
            downloading: None,
            torrent_piece: None,
            piece_length: 0,
            request: None,
        }
    }

    /// The peer sent its bitfield, which must be its first message.
    pub fn bitfield(&mut self, pieces: Vec<u8>) -> (out: LoopOutput)
        ensures
            (final(self)@, out@) == step_bitfield(old(self)@, pieces@),
    {
        if self.message_count != 1 {
            return quiet_output(true);
        }
        tell_output(PeerEvent::PeerPieces(pieces))
    }

    /// The peer has piece `piece_index`.
    pub fn have(&mut self, piece_index: usize) -> (out: LoopOutput)
        ensures
            final(self)@ == old(self)@,
            out@ == tell(SpecPeerEvent::PeerPiece(piece_index)),
    {
        tell_output(PeerEvent::PeerPiece(piece_index))
    }

    /// The peer stopped choking us: the torrent is told so first, then, if a
    /// piece is under way, its next block is asked for, which needs the bytes
    /// of the piece to fit in it.
    pub fn unchoke(&mut self) -> (out: LoopOutput)
        requires
            piece_fits(old(self)@),
        ensures
            (final(self)@, out@) == step_unchoke(old(self)@),
    {
        self.chocked = false;
        let mut send: Option<Message> = None;
        if let Some(piece) = self.downloading {
            if let Some(torrent_peer_piece) = &self.torrent_piece {
                let (index, begin, length) = request_message(
                    torrent_peer_piece.as_slice(),
                    piece,
                    self.piece_length,
                );
                self.request = Some((index, begin, length));
                send = Some(Message::Request { index, begin, length });
            }
        }
        LoopOutput {
            send,
            event: Some(PeerEvent::PeerUnchoke),
            event_first: true,
            stop: false,
            sha1_mismatch: false,
        }
    }

    /// The peer asks for a block; only a peer that said it is interested
    /// may, or the conversation ends.
    pub fn request(&mut self, index: u32, begin: u32, length: u32) -> (out: LoopOutput)
        ensures
            (final(self)@, out@) == step_request(old(self)@, index, begin, length),
    {
        if !self.interested {
            return quiet_output(true);
        }
        tell_output(PeerEvent::PeerPieceRequest { index, begin, length })
    }

    /// The peer wants to download from us.
    pub fn interested(&mut self) -> (out: LoopOutput)
        ensures
            final(self)@ == (LoopState { interested: true, ..old(self)@ }),
            out@ == tell(SpecPeerEvent::PeerInterested),
    {
        self.interested = true;
        tell_output(PeerEvent::PeerInterested)
    }

    /// A block of the piece under way arrived; see `step_piece`.
    pub fn piece(&mut self, index: u32, begin: u32, block: Vec<u8>, expected: &[u8]) -> (out:
        LoopOutput)
        ensures
            (final(self)@, out@) == step_piece(old(self)@, index, begin, block@, expected@),
    {
        let piece = match self.downloading {
            Some(piece) => piece,
            None => {
                return quiet_output(false);
            },
        };
        if piece as u32 != index {
            return quiet_output(false);
        }
        let mut torrent_peer_piece = match self.torrent_piece.take() {
            Some(buf) => buf,
            None => {
                return quiet_output(false);
            },
        };
        if torrent_peer_piece.len() != begin as usize {
            self.torrent_piece = Some(torrent_peer_piece);
            return quiet_output(false);
        }
        let mut block = block;
        torrent_peer_piece.append(&mut block);
        if self.piece_length > torrent_peer_piece.len() {
            let (index, begin, length) = request_message(
                torrent_peer_piece.as_slice(),
                piece,
                self.piece_length,
            );
            self.request = Some((index, begin, length));
            self.torrent_piece = Some(torrent_peer_piece);
            LoopOutput {
                send: Some(Message::Request { index, begin, length }),
                event: None,
                event_first: false,
                stop: false,
                sha1_mismatch: false,
            }
        } else if self.piece_length == torrent_peer_piece.len() {
            let digest = sha1_of(torrent_peer_piece.as_slice());
            let mismatch = !bytes_equal(&digest, expected);
            self.downloading = None;
            LoopOutput {
                send: None,
                event: Some(PeerEvent::PeerPieceDownloaded(torrent_peer_piece)),
                event_first: false,
                stop: false,
                sha1_mismatch: mismatch,
            }
        } else {
            self.torrent_piece = Some(torrent_peer_piece);
            quiet_output(false)
        }
    }

    /// A message arrived from the peer: it is counted and answered; the
    /// output says whether the conversation ends.
    pub fn peer_loop_message(&mut self, message: Message, expected: &[u8]) -> (out: LoopOutput)
        requires
            old(self).message_count < usize::MAX,
            message@ == SpecMessage::Unchoke ==> piece_fits(old(self)@),
        ensures
            (final(self)@, out@) == step_message(old(self)@, message@, expected@),
    {
        self.message_count = self.message_count + 1;
        match message {
            Message::Bitfield(pieces) => self.bitfield(pieces),
            Message::Have { piece_index } => self.have(piece_index as usize),
            Message::Unchoke => self.unchoke(),
            Message::Interested => self.interested(),
            Message::Piece { index, begin, block } => self.piece(index, begin, block, expected),
            Message::Request { index, begin, length } => self.request(index, begin, length),
            _ => quiet_output(false),
        }
    }

    /// A command of the torrent about this peer; see `step_command`.
    pub fn on_command(&mut self, command: PeerCommand, expected: &[u8]) -> (out: LoopOutput)
        requires
            command is Message ==> old(self).message_count < usize::MAX,
            command@ == SpecCommand::Message(SpecMessage::Unchoke) ==> piece_fits(old(self)@),
        ensures
            (final(self)@, out@) == step_command(old(self)@, command@, expected@),
    {
        match command {
            PeerCommand::Disconnect => quiet_output(true),
            PeerCommand::Cancel => match self.request {
                Some((index, begin, length)) => {
                    self.request = None;
                    self.downloading = None;
                    self.torrent_piece = None;
                    LoopOutput {
                        send: Some(Message::Cancel { index, begin, length }),
                        event: Some(PeerEvent::PeerPieceCanceled),
                        event_first: false,
                        stop: false,
                        sha1_mismatch: false,
                    }
                },
                None => quiet_output(false),
            },
            PeerCommand::Message(message) => self.peer_loop_message(message, expected),
            PeerCommand::Download { piece, piece_length } => {
                self.piece_length = piece_length;
                self.downloading = Some(piece);
                let buffer: Vec<u8> = Vec::new();
                let sent = if self.chocked {
                    Message::Interested
                } else {
                    let (index, begin, length) = request_message(buffer.as_slice(), piece, piece_length);
                    self.request = Some((index, begin, length));
                    Message::Request { index, begin, length }
                };
                self.torrent_piece = Some(buffer);
                LoopOutput { send: Some(sent), event: None, event_first: false, stop: false, sha1_mismatch: false }
            },
            PeerCommand::Have(piece) => LoopOutput {
                send: Some(Message::Have { piece_index: piece as u32 }),
                event: None,
                event_first: false,
                stop: false,
                sha1_mismatch: false,
            },
            PeerCommand::Bitfield(pieces) => LoopOutput {
                send: Some(Message::Bitfield(pieces)),
                event: None,
                event_first: false,
                stop: false,
                sha1_mismatch: false,
            },
            PeerCommand::Piece { index, begin, block } => LoopOutput {
                send: Some(Message::Piece { index, begin, block }),
                event: None,
                event_first: false,
                stop: false,
                sha1_mismatch: false,
            },
        }
    }
}

/// The block asked for next starts right after the bytes that arrived, is
/// at most a block long, is not empty and does not reach past the piece.
pub proof fn lemma_next_request_within_piece(buf: Seq<u8>, piece: usize, piece_length: usize)
    requires
        buf.len() < piece_length,
        piece_length <= u32::MAX,
    ensures
        ({
            let r = next_request(buf, piece, piece_length);
            &&& r.1 == buf.len()
            &&& 0 < r.2 <= BLOCK_SIZE
            &&& r.1 + r.2 <= piece_length
        }),
{
}

} // verus!
