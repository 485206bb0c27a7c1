//! The peer wire protocol: the handshake and the length-prefixed messages
//! that peers exchange.

use vstd::prelude::*;
use crate::bencode::ParseError;

verus! {

/// A message of the peer wire protocol.
#[derive(Debug, PartialEq, Eq)]
pub enum Message {
    KeepAlive,
    Choke,
    Unchoke,
    Interested,
    NotInterested,
    Have { piece_index: u32 },
    Bitfield(Vec<u8>),
    Request { index: u32, begin: u32, length: u32 },
    Piece { index: u32, begin: u32, block: Vec<u8> },
    Cancel { index: u32, begin: u32, length: u32 },
    Port(u16),
}

/// The mathematical form of a message.
pub enum SpecMessage {
    KeepAlive,
    Choke,
    Unchoke,
    Interested,
    NotInterested,
    Have { piece_index: u32 },
    Bitfield(Seq<u8>),
    Request { index: u32, begin: u32, length: u32 },
    Piece { index: u32, begin: u32, block: Seq<u8> },
    Cancel { index: u32, begin: u32, length: u32 },
    Port(u16),
}

impl View for Message {
    type V = SpecMessage;

    open spec fn view(&self) -> SpecMessage {
        match self {
            Message::KeepAlive => SpecMessage::KeepAlive,
            Message::Choke => SpecMessage::Choke,
            Message::Unchoke => SpecMessage::Unchoke,
            Message::Interested => SpecMessage::Interested,
            Message::NotInterested => SpecMessage::NotInterested,
            Message::Have { piece_index } => SpecMessage::Have { piece_index: *piece_index },
            Message::Bitfield(b) => SpecMessage::Bitfield(b@),
            Message::Request { index, begin, length } => SpecMessage::Request {
                index: *index,
                begin: *begin,
                length: *length,
            },
            Message::Piece { index, begin, block } => SpecMessage::Piece {
                index: *index,
                begin: *begin,
                block: block@,
            },
            Message::Cancel { index, begin, length } => SpecMessage::Cancel {
                index: *index,
                begin: *begin,
                length: *length,
            },
            Message::Port(p) => SpecMessage::Port(*p),
        }
    }
}

/// The big-endian number in the four bytes of `s` from `at` on.
pub open spec fn be_u32_at(s: Seq<u8>, at: int) -> u32 {
    (s[at] * 16777216 + s[at + 1] * 65536 + s[at + 2] * 256 + s[at + 3]) as u32
}

/// The big-endian number in the two bytes of `s` from `at` on.
pub open spec fn be_u16_at(s: Seq<u8>, at: int) -> u16 {
    (s[at] * 256 + s[at + 1]) as u16
}

/// The message at the start of `s`, and the number of bytes it takes: a
/// four-byte big-endian length, then (unless the length is 0, a keep-alive)
/// a message id and a payload of the length less one byte, whose form the id
/// fixes. The message is refused when its id is unknown, its length does not
/// fit its id, or the input ends before it does.
pub open spec fn spec_message(s: Seq<u8>) -> Option<(SpecMessage, nat)> {
    if s.len() < 4 {
        None
    } else {
        let len = be_u32_at(s, 0);
        let total = 4 + len;
        if len == 0 {
            Some((SpecMessage::KeepAlive, 4))
        } else if s.len() < 5 {
            None
        } else {
            let id = s[4];
            if len == 1 {
                if id == 0 {
                    Some((SpecMessage::Choke, 5))
                } else if id == 1 {
                    Some((SpecMessage::Unchoke, 5))
                } else if id == 2 {
                    Some((SpecMessage::Interested, 5))
                } else if id == 3 {
                    Some((SpecMessage::NotInterested, 5))
                } else {
                    None
                }
            } else if id == 4 {
                if len == 5 && s.len() >= 9 {
                    Some((SpecMessage::Have { piece_index: be_u32_at(s, 5) }, 9))
                } else {
                    None
                }
            } else if id == 5 {
                if s.len() >= total {
                    Some((SpecMessage::Bitfield(s.subrange(5, total)), total as nat))
                } else {
                    None
                }
            } else if id == 6 || id == 8 {
                if len == 13 && s.len() >= 17 {
                    let index = be_u32_at(s, 5);
                    let begin = be_u32_at(s, 9);
                    let length = be_u32_at(s, 13);
                    if id == 6 {
                        Some((SpecMessage::Request { index, begin, length }, 17))
                    } else {
                        Some((SpecMessage::Cancel { index, begin, length }, 17))
                    }
                } else {
                    None
                }
            } else if id == 7 {
                if len >= 9 && s.len() >= total {
                    Some((
                        SpecMessage::Piece {
                            index: be_u32_at(s, 5),
                            begin: be_u32_at(s, 9),
                            block: s.subrange(13, total),
                        },
                        total as nat,
                    ))
                } else {
                    None
                }
            } else if id == 9 {
                if len == 3 && s.len() >= 7 {
                    Some((SpecMessage::Port(be_u16_at(s, 5)), 7))
                } else {
                    None
                }
            } else {
                None
            }
        }
    }
}

fn read_be_u32(s: &[u8], at: usize) -> (r: u32)
    requires
        at + 4 <= s@.len(),
    ensures
        r == be_u32_at(s@, at as int),
{
    (s[at] as u32) * 16777216 + (s[at + 1] as u32) * 65536 + (s[at + 2] as u32) * 256 + s[at + 3] as u32
}

fn read_be_u16(s: &[u8], at: usize) -> (r: u16)
    requires
        at + 2 <= s@.len(),
    ensures
        r == be_u16_at(s@, at as int),
{
    (s[at] as u16) * 256 + s[at + 1] as u16
}

fn copy_bytes(s: &[u8], from: usize, to: usize) -> (r: Vec<u8>)
    requires
        from <= to <= s@.len(),
    ensures
        r@ == s@.subrange(from as int, to as int),
{
    vstd::slice::slice_to_vec(vstd::slice::slice_subrange(s, from, to))
}

/// The message at the start of `buf`, and what follows it.
pub fn parser_message(buf: &[u8]) -> (r: Result<(&[u8], Message), ParseError>)
    ensures
        r matches Ok((rest, m)) ==> {
            let n = buf@.len() - rest@.len();
            &&& rest@ == buf@.skip(n)
            &&& spec_message(buf@) == Some((m@, n as nat))
        },
        r is Err <==> spec_message(buf@) is None,
{
    let len_all = buf.len();
    if len_all < 4 {
        return Err(ParseError);
    }
    let len = read_be_u32(buf, 0);
    let total: u64 = 4 + len as u64;
    let (message, consumed): (Message, usize) = if len == 0 {
        (Message::KeepAlive, 4)
    } else if len_all < 5 {
        return Err(ParseError);
    } else {
        let id = buf[4];
        if len == 1 {
            if id == 0 {
                (Message::Choke, 5)
            } else if id == 1 {
                (Message::Unchoke, 5)
            } else if id == 2 {
                (Message::Interested, 5)
            } else if id == 3 {
                (Message::NotInterested, 5)
            } else {
                return Err(ParseError);
            }
        } else if id == 4 {
            if len == 5 && len_all >= 9 {
                (Message::Have { piece_index: read_be_u32(buf, 5) }, 9)
            } else {
                return Err(ParseError);
            }
        } else if id == 5 {
            if len_all as u64 >= total {
                let t = total as usize;
                (Message::Bitfield(copy_bytes(buf, 5, t)), t)
            } else {
                return Err(ParseError);
            }
        } else if id == 6 || id == 8 {
            if len == 13 && len_all >= 17 {
                let index = read_be_u32(buf, 5);
                let begin = read_be_u32(buf, 9);
                let length = read_be_u32(buf, 13);
                if id == 6 {
                    (Message::Request { index, begin, length }, 17)
                } else {
                    (Message::Cancel { index, begin, length }, 17)
                }
            } else {
                return Err(ParseError);
            }
        } else if id == 7 {
            if len >= 9 && len_all as u64 >= total {
                let t = total as usize;
                let index = read_be_u32(buf, 5);
                let begin = read_be_u32(buf, 9);
                (Message::Piece { index, begin, block: copy_bytes(buf, 13, t) }, t)
            } else {
                return Err(ParseError);
            }
        } else if id == 9 {
            if len == 3 && len_all >= 7 {
                (Message::Port(read_be_u16(buf, 5)), 7)
            } else {
                return Err(ParseError);
            }
        } else {
            return Err(ParseError);
        }
    };
    let rest = vstd::slice::slice_subrange(buf, consumed, len_all);
    Ok((rest, message))
}

/// The handshake that opens a connection between peers.
#[derive(Debug, PartialEq, Eq, Clone, Copy)]
pub struct Handshake {
    pub protocol_prefix: [u8; 20],
    pub reserved: [u8; 8],
    pub info_hash: [u8; 20],
    pub peer_id: [u8; 20],
}

/// The input is shorter than a handshake.
#[derive(Debug, Clone, Copy, PartialEq, Eq, Structural)]
pub struct HandshakeError;

fn read_array_20(s: &[u8], at: usize) -> (r: [u8; 20])
    requires
        at + 20 <= s@.len(),
    ensures
        r@ == s@.subrange(at as int, at + 20),
{
    let mut r = [0u8; 20];
    let mut i: usize = 0;
    let len = s.len();
    while i < 20
        invariant
            len == s@.len(),
            at + 20 <= s@.len(),
            i <= 20,
            r@.len() == 20,
            forall|j: int| 0 <= j < i ==> r@[j] == s@[at + j],
        decreases 20 - i,
    {
        r[i] = s[at + i];
        i += 1;
    }
    assert(r@ =~= s@.subrange(at as int, at + 20));
    r
}

fn read_array_8(s: &[u8], at: usize) -> (r: [u8; 8])
    requires
        at + 8 <= s@.len(),
    ensures
        r@ == s@.subrange(at as int, at + 8),
{
    let mut r = [0u8; 8];
    let mut i: usize = 0;
    let len = s.len();
    while i < 8
        invariant
            len == s@.len(),
            at + 8 <= s@.len(),
            i <= 8,
            r@.len() == 8,
            forall|j: int| 0 <= j < i ==> r@[j] == s@[at + j],
        decreases 8 - i,
    {
        r[i] = s[at + i];
        i += 1;
    }
    assert(r@ =~= s@.subrange(at as int, at + 8));
    r
}

/// The handshake in the first 68 bytes of `bytes`: the protocol prefix (20
/// bytes), the reserved bytes (8), the info hash (20) and the peer id (20).
pub fn parse_handshake(bytes: &[u8]) -> (r: Result<Handshake, HandshakeError>)
    ensures
        r is Err <==> bytes@.len() < 68,
        r matches Ok(h) ==> {
            &&& h.protocol_prefix@ == bytes@.subrange(0, 20)
            &&& h.reserved@ == bytes@.subrange(20, 28)
            &&& h.info_hash@ == bytes@.subrange(28, 48)
            &&& h.peer_id@ == bytes@.subrange(48, 68)
        },
{
    if bytes.len() < 68 {
        return Err(HandshakeError);
    }
    Ok(Handshake {
        protocol_prefix: read_array_20(bytes, 0),
        reserved: read_array_8(bytes, 20),
        info_hash: read_array_20(bytes, 28),
        peer_id: read_array_20(bytes, 48),
    })
}

/// The four bytes of `v` as the wire carries them, most significant first.
pub open spec fn u32_bytes(v: u32) -> Seq<u8> {
    seq![(v / 16777216) as u8, ((v / 65536) % 256) as u8, ((v / 256) % 256) as u8, (v % 256) as u8]
}

/// The two bytes of `v` as the wire carries them, most significant first.
pub open spec fn u16_bytes(v: u16) -> Seq<u8> {
    seq![(v / 256) as u8, (v % 256) as u8]
}

proof fn lemma_digits(b0: u8, b1: u8, b2: u8, b3: u8, x: int)
    requires
        x == b0 * 16777216 + b1 * 65536 + b2 * 256 + b3,
    ensures
        0 <= x < 4294967296,
        x / 16777216 == b0,
        (x / 65536) % 256 == b1,
        (x / 256) % 256 == b2,
        x % 256 == b3,
{
    assert(0 <= x < 4294967296);
    assert(x / 16777216 == b0) by (nonlinear_arith)
        requires
            x == b0 * 16777216 + b1 * 65536 + b2 * 256 + b3,
            0 <= b0 < 256,
            0 <= b1 < 256,
            0 <= b2 < 256,
            0 <= b3 < 256,
    ;
    assert(x / 65536 == b0 * 256 + b1) by (nonlinear_arith)
        requires
            x == b0 * 16777216 + b1 * 65536 + b2 * 256 + b3,
            0 <= b0 < 256,
            0 <= b1 < 256,
            0 <= b2 < 256,
            0 <= b3 < 256,
    ;
    assert((b0 * 256 + b1) % 256 == b1) by (nonlinear_arith)
        requires
            0 <= b0 < 256,
            0 <= b1 < 256,
    ;
    assert(x / 256 == b0 * 65536 + b1 * 256 + b2) by (nonlinear_arith)
        requires
            x == b0 * 16777216 + b1 * 65536 + b2 * 256 + b3,
            0 <= b0 < 256,
            0 <= b1 < 256,
            0 <= b2 < 256,
            0 <= b3 < 256,
    ;
    assert((b0 * 65536 + b1 * 256 + b2) % 256 == b2) by (nonlinear_arith)
        requires
            0 <= b0 < 256,
            0 <= b1 < 256,
            0 <= b2 < 256,
    ;
    assert(x % 256 == b3) by (nonlinear_arith)
        requires
            x == b0 * 16777216 + b1 * 65536 + b2 * 256 + b3,
            0 <= b0 < 256,
            0 <= b1 < 256,
            0 <= b2 < 256,
            0 <= b3 < 256,
    ;
}

/// Law: the number read from four bytes is big-endian: its bytes, most
/// significant first, are the four bytes read.
pub proof fn lemma_be_u32_bytes(s: Seq<u8>, at: int)
    requires
        0 <= at,
        at + 4 <= s.len(),
    ensures
        u32_bytes(be_u32_at(s, at)) == s.subrange(at, at + 4),
{
    let x = s[at] * 16777216 + s[at + 1] * 65536 + s[at + 2] * 256 + s[at + 3];
    lemma_digits(s[at], s[at + 1], s[at + 2], s[at + 3], x);
    assert(be_u32_at(s, at) as int == x);
    assert(u32_bytes(be_u32_at(s, at)) =~= s.subrange(at, at + 4));
}

/// Law: every number is read back from its four big-endian bytes.
pub proof fn lemma_be_u32_round_trip(v: u32, before: Seq<u8>, after: Seq<u8>)
    ensures
        be_u32_at(before + u32_bytes(v) + after, before.len() as int) == v,
{
    let s = before + u32_bytes(v) + after;
    let at = before.len() as int;
    let b0 = (v / 16777216) as u8;
    let b1 = ((v / 65536) % 256) as u8;
    let b2 = ((v / 256) % 256) as u8;
    let b3 = (v % 256) as u8;
    assert(s[at] == b0 && s[at + 1] == b1 && s[at + 2] == b2 && s[at + 3] == b3);
    assert(b0 * 16777216 + b1 * 65536 + b2 * 256 + b3 == v) by (nonlinear_arith)
        requires
            0 <= v < 4294967296,
            b0 == v / 16777216,
            b1 == (v / 65536) % 256,
            b2 == (v / 256) % 256,
            b3 == v % 256,
    ;
}

/// Law: the number read from two bytes is big-endian.
pub proof fn lemma_be_u16_bytes(s: Seq<u8>, at: int)
    requires
        0 <= at,
        at + 2 <= s.len(),
    ensures
        u16_bytes(be_u16_at(s, at)) == s.subrange(at, at + 2),
{
    let b0 = s[at];
    let b1 = s[at + 1];
    let x = b0 * 256 + b1;
    assert(x / 256 == b0 && x % 256 == b1) by (nonlinear_arith)
        requires
            x == b0 * 256 + b1,
            0 <= b0 < 256,
            0 <= b1 < 256,
    ;
    assert(0 <= x < 65536);
    assert(be_u16_at(s, at) as int == x);
    assert(u16_bytes(be_u16_at(s, at)) =~= s.subrange(at, at + 2));
}

/// The bytes on the wire of a request (`id` 6) or a cancel (`id` 8) for
/// the block `index`, `begin`, `length`: the length 13, the id, then the
/// three numbers, each big-endian.
pub open spec fn block_message_bytes(id: u8, index: u32, begin: u32, length: u32) -> Seq<u8> {
    u32_bytes(13) + seq![id] + u32_bytes(index) + u32_bytes(begin) + u32_bytes(length)
}

/// Law (round trip): a request or a cancel written to the wire, followed by
/// anything, is read back as the same message with the same three numbers,
/// taking its seventeen bytes.
pub proof fn lemma_block_message_round_trip(index: u32, begin: u32, length: u32, rest: Seq<u8>)
    ensures
        spec_message(block_message_bytes(6, index, begin, length) + rest) == Some(
            (SpecMessage::Request { index, begin, length }, 17nat),
        ),
        spec_message(block_message_bytes(8, index, begin, length) + rest) == Some(
            (SpecMessage::Cancel { index, begin, length }, 17nat),
        ),
{
    lemma_block_message_round_trip_id(6, index, begin, length, rest);
    lemma_block_message_round_trip_id(8, index, begin, length, rest);
}

proof fn lemma_block_message_round_trip_id(id: u8, index: u32, begin: u32, length: u32, rest: Seq<u8>)
    requires
        id == 6 || id == 8,
    ensures
        spec_message(block_message_bytes(id, index, begin, length) + rest) == Some(
            (if id == 6 {
                SpecMessage::Request { index, begin, length }
            } else {
                SpecMessage::Cancel { index, begin, length }
            }, 17nat),
        ),
{
    let s = block_message_bytes(id, index, begin, length) + rest;
    assert(s =~= Seq::<u8>::empty() + u32_bytes(13) + (seq![id] + u32_bytes(index) + u32_bytes(begin)
        + u32_bytes(length) + rest));
    lemma_be_u32_round_trip(13, Seq::empty(), seq![id] + u32_bytes(index) + u32_bytes(begin) + u32_bytes(length) + rest);
    assert(s =~= (u32_bytes(13) + seq![id]) + u32_bytes(index) + (u32_bytes(begin) + u32_bytes(length) + rest));
    lemma_be_u32_round_trip(index, u32_bytes(13) + seq![id], u32_bytes(begin) + u32_bytes(length) + rest);
    assert(s =~= (u32_bytes(13) + seq![id] + u32_bytes(index)) + u32_bytes(begin) + (u32_bytes(length) + rest));
    lemma_be_u32_round_trip(begin, u32_bytes(13) + seq![id] + u32_bytes(index), u32_bytes(length) + rest);
    assert(s =~= (u32_bytes(13) + seq![id] + u32_bytes(index) + u32_bytes(begin)) + u32_bytes(length) + rest);
    lemma_be_u32_round_trip(length, u32_bytes(13) + seq![id] + u32_bytes(index) + u32_bytes(begin), rest);
    assert(s[4] == id);
    assert(s.len() >= 17);
}

/// Law: the numbers of a message read from the wire are big-endian: the
/// length prefix is the big-endian number in the first four bytes, and
/// the piece index, offset, length and port of a have, request, cancel,
/// piece or port message are the big-endian numbers in the bytes that
/// follow the id, in that order.
pub proof fn lemma_message_numbers_big_endian(s: Seq<u8>)
    ensures
        spec_message(s) is Some ==> s.len() >= 4,
        spec_message(s) matches Some((SpecMessage::Have { piece_index }, _)) ==> s.subrange(5, 9) == u32_bytes(
            piece_index,
        ) && s.subrange(0, 4) == u32_bytes(5),
        spec_message(s) matches Some((SpecMessage::Request { index, begin, length }, _)) ==> {
            &&& s.subrange(0, 4) == u32_bytes(13)
            &&& s[4] == 6
            &&& s.subrange(5, 9) == u32_bytes(index)
            &&& s.subrange(9, 13) == u32_bytes(begin)
            &&& s.subrange(13, 17) == u32_bytes(length)
        },
        spec_message(s) matches Some((SpecMessage::Cancel { index, begin, length }, _)) ==> {
            &&& s.subrange(0, 4) == u32_bytes(13)
            &&& s[4] == 8
            &&& s.subrange(5, 9) == u32_bytes(index)
            &&& s.subrange(9, 13) == u32_bytes(begin)
            &&& s.subrange(13, 17) == u32_bytes(length)
        },
        spec_message(s) matches Some((SpecMessage::Piece { index, begin, block }, n)) ==> {
            &&& s.subrange(5, 9) == u32_bytes(index)
            &&& s.subrange(9, 13) == u32_bytes(begin)
            &&& n == 13 + block.len()
            &&& u32_bytes((n - 4) as u32) == s.subrange(0, 4)
        },
        spec_message(s) matches Some((SpecMessage::Port(port), n)) ==> s.subrange(5, 7) == u16_bytes(port)
            && s.subrange(0, 4) == u32_bytes(3) && s[4] == 9 && n == 7,
        spec_message(s) matches Some((SpecMessage::Piece { block, .. }, n)) ==> s[4] == 7 && block == s.subrange(
            13,
            n as int,
        ),
        spec_message(s) matches Some((SpecMessage::Bitfield(bits), n)) ==> {
            &&& s[4] == 5
            &&& bits == s.subrange(5, n as int)
            &&& u32_bytes((n - 4) as u32) == s.subrange(0, 4)
        },
        spec_message(s) matches Some((SpecMessage::KeepAlive, n)) ==> n == 4 && s.subrange(0, 4) == u32_bytes(0),
        spec_message(s) matches Some((SpecMessage::Choke, n)) ==> n == 5 && s.subrange(0, 4) == u32_bytes(1) && s[4]
            == 0,
        spec_message(s) matches Some((SpecMessage::Unchoke, n)) ==> n == 5 && s.subrange(0, 4) == u32_bytes(1)
            && s[4] == 1,
        spec_message(s) matches Some((SpecMessage::Interested, n)) ==> n == 5 && s.subrange(0, 4) == u32_bytes(1)
            && s[4] == 2,
        spec_message(s) matches Some((SpecMessage::NotInterested, n)) ==> n == 5 && s.subrange(0, 4) == u32_bytes(1)
            && s[4] == 3,
        spec_message(s) matches Some((SpecMessage::Have { .. }, n)) ==> n == 9 && s[4] == 4,
        spec_message(s) matches Some((_, n)) ==> n <= s.len(),
{
    if s.len() >= 4 {
        lemma_be_u32_bytes(s, 0);
    }
    if s.len() >= 9 {
        lemma_be_u32_bytes(s, 5);
    }
    if s.len() >= 13 {
        lemma_be_u32_bytes(s, 9);
    }
    if s.len() >= 17 {
        lemma_be_u32_bytes(s, 13);
    }
    if s.len() >= 7 {
        lemma_be_u16_bytes(s, 5);
    }
}

} // verus!
