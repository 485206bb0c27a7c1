//! Which pieces a peer offers that are still to be downloaded, and the
//! requests that fetch a piece block by block.

use vstd::prelude::*;
use crate::bitarray::{bit_mask, has_bit};

verus! {

/// The number of bytes requested from a peer at a time.
pub const BLOCK_SIZE: usize = 16384;

/// The number of parts of `part_size` bytes needed to hold `total` bytes.
pub open spec fn parts_needed(total: int, part_size: int) -> int {
    (total + part_size - 1) / part_size
}

/// The number of parts of `part_size` bytes that `total` bytes make, the
/// last one possibly shorter.
pub fn count_parts(total: usize, part_size: usize) -> (r: usize)
    requires
        part_size > 0,
    ensures
        r == parts_needed(total as int, part_size as int),
{
    let whole = total / part_size;
    let extra: usize = if total % part_size != 0 {
        proof {
            let t = total as int;
            let p = part_size as int;
            vstd::arithmetic::div_mod::lemma_fundamental_div_mod(t, p);
            let q = t / p;
            assert(p >= 2);
            assert(q >= 0) by (nonlinear_arith)
                requires
                    p > 0,
                    t >= 0,
                    q == t / p,
            ;
            assert(q < t) by (nonlinear_arith)
                requires
                    p >= 2,
                    q >= 0,
                    t == p * q + t % p,
                    0 < t % p,
            ;
        }
        1
    } else {
        0
    };
    let r = whole + extra;
    proof {
        let t = total as int;
        let p = part_size as int;
        vstd::arithmetic::div_mod::lemma_fundamental_div_mod(t, p);
        vstd::arithmetic::div_mod::lemma_fundamental_div_mod(t + p - 1, p);
        assert((t + p - 1) / p == t / p + if t % p != 0 { 1int } else { 0int }) by (nonlinear_arith)
            requires
                p > 0,
                t >= 0,
                t == p * (t / p) + t % p,
                0 <= t % p < p,
                t + p - 1 == p * ((t + p - 1) / p) + (t + p - 1) % p,
                0 <= (t + p - 1) % p < p,
        ;
    }
    r
}

/// The pieces of byte `i` of a bitfield that a peer offers in `a` and that
/// `downloaded` does not hold.
pub open spec fn new_bits(a: u8, downloaded: Seq<u8>, i: int) -> u8 {
    if 0 <= i < downloaded.len() {
        a & !downloaded[i]
    } else {
        a
    }
}

/// The indices of the pieces set among the first `j` bits of `byte`, the
/// byte at position `i` of a bitfield, in increasing order.
pub open spec fn set_positions(byte: u8, i: int, j: int) -> Seq<usize>
    decreases j,
{
    if j <= 0 {
        seq![]
    } else {
        set_positions(byte, i, j - 1) + if byte & bit_mask(j - 1) != 0 {
            seq![(i * 8 + j - 1) as usize]
        } else {
            Seq::<usize>::empty()
        }
    }
}

/// Adds to `pieces` the pieces of byte `i` of a peer's bitfield, `a`, that
/// `downloaded_pieces` does not hold, in increasing order.
pub fn match_pieces(pieces: &mut Vec<usize>, downloaded_pieces: &[u8], i: usize, a: u8)
    requires
        i * 8 + 7 <= usize::MAX,
    ensures
        final(pieces)@ == old(pieces)@ + set_positions(new_bits(a, downloaded_pieces@, i as int), i as int, 8),
{
    let new = if i < downloaded_pieces.len() {
        a & !downloaded_pieces[i]
    } else {
        a
    };
    let ghost start = pieces@;
    let mut j: usize = 0;
    assert(start + set_positions(new, i as int, 0) =~= start);
    while j < 8
        invariant
            i * 8 + 7 <= usize::MAX,
            j <= 8,
            new == new_bits(a, downloaded_pieces@, i as int),
            pieces@ == start + set_positions(new, i as int, j as int),
        decreases 8 - j,
    {
        let shift: u8 = j as u8;
        assert(bit_mask(j as int) == 128u8 >> shift);
        if new & (128u8 >> shift) != 0 {
            pieces.push(i * 8 + j);
        }
        assert(pieces@ =~= start + set_positions(new, i as int, j + 1));
        j += 1;
    }
}

/// The pieces that bytes `0..n` of a peer's bitfield `new` offer and
/// `downloaded` does not hold, in increasing order.
pub open spec fn offered_pieces(new: Seq<u8>, downloaded: Seq<u8>, n: int) -> Seq<usize>
    decreases n,
{
    if n <= 0 {
        seq![]
    } else {
        offered_pieces(new, downloaded, n - 1) + set_positions(new_bits(new[n - 1], downloaded, n - 1), n - 1, 8)
    }
}

proof fn lemma_set_positions(byte: u8, i: int, j: int)
    requires
        0 <= i,
        i * 8 + 8 <= usize::MAX,
        0 <= j <= 8,
    ensures
        forall|k: int|
            0 <= k < set_positions(byte, i, j).len() ==> i * 8 <= #[trigger] set_positions(byte, i, j)[k] < i * 8
                + j,
        forall|k: int, l: int|
            0 <= k < l < set_positions(byte, i, j).len() ==> #[trigger] set_positions(byte, i, j)[k]
                < #[trigger] set_positions(byte, i, j)[l],
        forall|p: usize|
            #[trigger] set_positions(byte, i, j).contains(p) <==> i * 8 <= p < i * 8 + j && byte & bit_mask(p as int)
                != 0,
    decreases j,
{
    if j > 0 {
        lemma_set_positions(byte, i, j - 1);
        let prev = set_positions(byte, i, j - 1);
        let q = i * 8 + j - 1;
        assert(q % 8 == j - 1 && q / 8 == i) by (nonlinear_arith)
            requires
                q == i * 8 + j - 1,
                0 <= i,
                1 <= j <= 8,
        ;
        assert(bit_mask(q) == bit_mask(j - 1));
        let cur = set_positions(byte, i, j);
        assert forall|p: usize| #[trigger] cur.contains(p) <==> i * 8 <= p < i * 8 + j && byte & bit_mask(p as int)
            != 0 by {
            if cur.contains(p) {
                let k = choose|k: int| 0 <= k < cur.len() && cur[k] == p;
                if k < prev.len() {
                    assert(prev[k] == p);
                    assert(prev.contains(p));
                }
            }
            if i * 8 <= p < i * 8 + j && byte & bit_mask(p as int) != 0 {
                if p < q {
                    assert(prev.contains(p));
                    let k = choose|k: int| 0 <= k < prev.len() && prev[k] == p;
                    assert(cur[k] == p);
                } else {
                    assert(p == q);
                    assert(cur[prev.len() as int] == p);
                }
            }
        }
    }
}

proof fn lemma_new_bit(a: u8, downloaded: Seq<u8>, i: int, p: int)
    requires
        0 <= i,
        p / 8 == i,
        0 <= p,
    ensures
        (new_bits(a, downloaded, i) & bit_mask(p) != 0) <==> (has_bit(seq![a], p - i * 8) && !has_bit(downloaded, p)),
{
    let x = (p % 8) as u8;
    assert(bit_mask(p) == 128u8 >> x);
    assert((p - i * 8) / 8 == 0 && (p - i * 8) % 8 == p % 8) by (nonlinear_arith)
        requires
            p / 8 == i,
            0 <= p,
    ;
    assert(bit_mask(p - i * 8) == bit_mask(p));
    if 0 <= i < downloaded.len() {
        let d = downloaded[i];
        assert(((a & !d) & (128u8 >> x) != 0) == ((a & (128u8 >> x)) == (128u8 >> x) && (d & (128u8 >> x))
            != (128u8 >> x))) by (bit_vector)
            requires
                x < 8,
        ;
    } else {
        assert((a & (128u8 >> x) != 0) == ((a & (128u8 >> x)) == (128u8 >> x))) by (bit_vector)
            requires
                x < 8,
        ;
    }
}

/// Law: the pieces a peer's bitfield offers are exactly those it has (its
/// bit is set in `new`) that `downloaded` does not hold, each once, in
/// increasing order.
pub proof fn lemma_offered_pieces(new: Seq<u8>, downloaded: Seq<u8>, n: int)
    requires
        0 <= n <= new.len(),
        new.len() * 8 <= usize::MAX,
    ensures
        forall|p: usize|
            #[trigger] offered_pieces(new, downloaded, n).contains(p) <==> p < n * 8 && has_bit(new, p as int)
                && !has_bit(downloaded, p as int),
        forall|k: int, l: int|
            0 <= k < l < offered_pieces(new, downloaded, n).len() ==> #[trigger] offered_pieces(new, downloaded, n)[k]
                < #[trigger] offered_pieces(new, downloaded, n)[l],
    decreases n,
{
    if n > 0 {
        lemma_offered_pieces(new, downloaded, n - 1);
        let i = n - 1;
        let prev = offered_pieces(new, downloaded, i);
        let byte = new_bits(new[i], downloaded, i);
        assert(i * 8 + 8 <= usize::MAX) by (nonlinear_arith)
            requires
                i + 1 <= new.len(),
                new.len() * 8 <= usize::MAX,
        ;
        lemma_set_positions(byte, i, 8);
        let part = set_positions(byte, i, 8);
        let all = offered_pieces(new, downloaded, n);
        assert(all == prev + part);
        assert forall|p: usize| #[trigger] all.contains(p) <==> p < n * 8 && has_bit(new, p as int) && !has_bit(
            downloaded,
            p as int,
        ) by {
            if (p as int) / 8 == i {
                lemma_new_bit(new[i], downloaded, i, p as int);
                assert(has_bit(seq![new[i]], p - i * 8) == has_bit(new, p as int)) by {
                    assert((p - i * 8) / 8 == 0) by (nonlinear_arith)
                        requires
                            (p as int) / 8 == i,
                    ;
                }
            }
            assert(p < i * 8 <==> (p as int) / 8 < i) by (nonlinear_arith)
                requires
                    0 <= i,
            ;
            assert(i * 8 <= p < i * 8 + 8 <==> (p as int) / 8 == i) by (nonlinear_arith)
                requires
                    0 <= i,
            ;
            if all.contains(p) {
                let k = choose|k: int| 0 <= k < all.len() && all[k] == p;
                if k < prev.len() {
                    assert(prev[k] == p && prev.contains(p));
                } else {
                    assert(part[k - prev.len()] == p && part.contains(p));
                }
            }
            if p < n * 8 && has_bit(new, p as int) && !has_bit(downloaded, p as int) {
                if p < i * 8 {
                    assert(prev.contains(p));
                    let k = choose|k: int| 0 <= k < prev.len() && prev[k] == p;
                    assert(all[k] == p);
                } else {
                    assert(part.contains(p));
                    let k = choose|k: int| 0 <= k < part.len() && part[k] == p;
                    assert(all[prev.len() + k] == p);
                }
            }
        }
        assert forall|k: int, l: int| 0 <= k < l < all.len() implies #[trigger] all[k] < #[trigger] all[l] by {
            if l < prev.len() {
                assert(all[k] == prev[k] && all[l] == prev[l]);
            } else if k >= prev.len() {
                assert(all[k] == part[k - prev.len()] && all[l] == part[l - prev.len()]);
            } else {
                assert(all[k] == prev[k] && prev.contains(prev[k]));
                assert(all[l] == part[l - prev.len()]);
            }
        }
    }
}

/// The bitfield `current` with the bits of `new` added, grown to the length
/// of `new` when that is longer.
pub open spec fn merged_bitfield(current: Seq<u8>, new: Seq<u8>) -> Seq<u8> {
    let len = if current.len() < new.len() { new.len() } else { current.len() };
    Seq::new(len, |i: int| if i < new.len() {
        if i < current.len() { current[i] | new[i] } else { new[i] }
    } else {
        current[i]
    })
}

/// Merges the bitfield `new_pieces` that a peer sent into what is known of
/// its pieces, `current_pieces`, and gives the pieces it offers that
/// `downloaded_pieces` does not hold, in increasing order.
pub fn collect_pieces_and_update(
    current_pieces: &mut Vec<u8>,
    new_pieces: &[u8],
    downloaded_pieces: &[u8],
) -> (pieces: Vec<usize>)
    requires
        new_pieces@.len() * 8 <= usize::MAX,
    ensures
        final(current_pieces)@.len() == if old(current_pieces)@.len() < new_pieces@.len() {
            new_pieces@.len()
        } else {
            old(current_pieces)@.len()
        },
        forall|i: int|
            0 <= i < final(current_pieces)@.len() ==> #[trigger] final(current_pieces)@[i] == if i
                < new_pieces@.len() {
                if i < old(current_pieces)@.len() {
                    old(current_pieces)@[i] | new_pieces@[i]
                } else {
                    new_pieces@[i]
                }
            } else {
                old(current_pieces)@[i]
            },
        final(current_pieces)@ == merged_bitfield(old(current_pieces)@, new_pieces@),
        pieces@ == offered_pieces(new_pieces@, downloaded_pieces@, new_pieces@.len() as int),
{
    let ghost old_current = current_pieces@;
    let mut pieces: Vec<usize> = Vec::new();
    while current_pieces.len() < new_pieces.len()
        invariant
            old_current.len() <= current_pieces@.len() <= if old_current.len() < new_pieces@.len() {
                new_pieces@.len()
            } else {
                old_current.len()
            },
            forall|i: int| 0 <= i < old_current.len() ==> current_pieces@[i] == old_current[i],
            forall|i: int| old_current.len() <= i < current_pieces@.len() ==> current_pieces@[i] == 0,
        decreases new_pieces@.len() - current_pieces@.len(),
    {
        current_pieces.push(0);
    }
    let ghost padded = current_pieces@;
    let mut i: usize = 0;
    while i < new_pieces.len()
        invariant
            new_pieces@.len() * 8 <= usize::MAX,
            i <= new_pieces@.len(),
            current_pieces@.len() == padded.len(),
            new_pieces@.len() <= padded.len(),
            forall|k: int| 0 <= k < i ==> #[trigger] current_pieces@[k] == padded[k] | new_pieces@[k],
            forall|k: int| i <= k < padded.len() ==> #[trigger] current_pieces@[k] == padded[k],
            pieces@ == offered_pieces(new_pieces@, downloaded_pieces@, i as int),
        decreases new_pieces@.len() - i,
    {
        let a = current_pieces[i];
        let b = new_pieces[i];
        let new = b & !a;
        assert(a | (b & !a) == a | b) by (bit_vector);
        current_pieces.set(i, a | new);
        match_pieces(&mut pieces, downloaded_pieces, i, b);
        i += 1;
    }
    proof {
        assert forall|k: int| 0 <= k < current_pieces@.len() implies #[trigger] current_pieces@[k] == if k
            < new_pieces@.len() {
            if k < old_current.len() {
                old_current[k] | new_pieces@[k]
            } else {
                new_pieces@[k]
            }
        } else {
            old_current[k]
        } by {
            if k < new_pieces@.len() && k >= old_current.len() {
                let b = new_pieces@[k];
                assert(0u8 | b == b) by (bit_vector);
            }
        }
        assert(current_pieces@ =~= merged_bitfield(old_current, new_pieces@));
    }
    pieces
}

/// The pieces that the bitfield `pieces` of a peer offers and `downloaded`
/// does not hold, in increasing order.
pub fn downloadable_pieces(pieces: &[u8], downloaded: &[u8]) -> (r: Vec<usize>)
    requires
        pieces@.len() * 8 <= usize::MAX,
    ensures
        r@ == offered_pieces(pieces@, downloaded@, pieces@.len() as int),
{
    let mut r: Vec<usize> = Vec::new();
    let mut i: usize = 0;
    while i < pieces.len()
        invariant
            pieces@.len() * 8 <= usize::MAX,
            i <= pieces@.len(),
            r@ == offered_pieces(pieces@, downloaded@, i as int),
        decreases pieces@.len() - i,
    {
        match_pieces(&mut r, downloaded, i, pieces[i]);
        i += 1;
    }
    r
}

/// The block of a piece to request: the piece, where the block starts in
/// it, and its number of bytes.
#[derive(Debug, PartialEq, Eq, Hash, Clone, Copy, Structural)]
pub struct Block {
    pub piece: u32,
    pub begin: u32,
    pub length: u32,
}

/// The request for the next block of piece `piece` when `buffer` holds its
/// first bytes: the piece, where the block starts (after the bytes held) and
/// its length (a full block, or the rest of the piece when that is shorter).
pub fn request_message(buffer: &[u8], piece: usize, piece_length: usize) -> (r: (u32, u32, u32))
    requires
        buffer@.len() <= piece_length,
    ensures
        r.0 == piece as u32,
        r.1 == buffer@.len() as u32,
        r.2 == (if piece_length - buffer@.len() < BLOCK_SIZE {
            piece_length - buffer@.len()
        } else {
            BLOCK_SIZE as int
        }) as u32,
{
    let index = piece as u32;
    let begin = buffer.len() as u32;
    let left = piece_length - buffer.len();
    let length = if left < BLOCK_SIZE {
        left
    } else {
        BLOCK_SIZE
    } as u32;
    (index, begin, length)
}

/// Block `block_index` of the `blocks_count` blocks of piece `piece_index`,
/// which has `piece_length` bytes: it starts after `block_index` full
/// blocks and has `BLOCK_SIZE` bytes, but the last, which has the rest.
pub open spec fn block_of(piece_index: usize, piece_length: usize, block_index: int, blocks_count: int) -> Block {
    Block {
        piece: piece_index as u32,
        begin: (block_index * BLOCK_SIZE) as u32,
        length: (if block_index == blocks_count - 1 {
            piece_length - block_index * BLOCK_SIZE
        } else {
            BLOCK_SIZE as int
        }) as u32,
    }
}

/// The number of bytes in the first `k` of the `blocks_count` blocks of a
/// piece of `piece_length` bytes.
pub open spec fn blocks_total(piece_length: usize, blocks_count: int, k: int) -> int
    decreases k,
{
    if k <= 0 {
        0
    } else {
        blocks_total(piece_length, blocks_count, k - 1) + block_of(0, piece_length, k - 1, blocks_count).length
    }
}

proof fn lemma_parts_bounds(total: int, part_size: int)
    requires
        total > 0,
        part_size > 0,
    ensures
        parts_needed(total, part_size) >= 1,
        (parts_needed(total, part_size) - 1) * part_size < total,
        total <= parts_needed(total, part_size) * part_size,
{
    let n = parts_needed(total, part_size);
    vstd::arithmetic::div_mod::lemma_fundamental_div_mod(total + part_size - 1, part_size);
    let r = (total + part_size - 1) % part_size;
    assert(0 <= r < part_size) by {
        vstd::arithmetic::div_mod::lemma_mod_pos_bound(total + part_size - 1, part_size);
    }
    assert(part_size * n + r == total + part_size - 1);
    assert((n - 1) * part_size == part_size * n - part_size) by (nonlinear_arith);
    assert(n * part_size == part_size * n) by (nonlinear_arith);
    assert(n >= 1) by (nonlinear_arith)
        requires
            part_size * n + r == total + part_size - 1,
            0 <= r < part_size,
            total > 0,
            part_size > 0,
    ;
}

/// Law: the `parts_needed(piece_length, BLOCK_SIZE)` blocks of a piece
/// follow one another from its first byte, each has from one to
/// `BLOCK_SIZE` bytes, the last ends where the piece ends, and together they
/// hold exactly the bytes of the piece.
pub proof fn lemma_blocks_cover_piece(piece_index: usize, piece_length: usize)
    requires
        0 < piece_length <= u32::MAX,
    ensures
        ({
            let n = parts_needed(piece_length as int, BLOCK_SIZE as int);
            &&& n >= 1
            &&& forall|j: int|
                0 <= j < n ==> {
                    let b = #[trigger] block_of(piece_index, piece_length, j, n);
                    &&& b.piece == piece_index as u32
                    &&& b.begin == j * BLOCK_SIZE
                    &&& 1 <= b.length <= BLOCK_SIZE
                    &&& j + 1 < n ==> b.begin + b.length == (j + 1) * BLOCK_SIZE
                    &&& j + 1 == n ==> b.begin + b.length == piece_length
                }
            &&& blocks_total(piece_length, n, n) == piece_length
        }),
{
    let n = parts_needed(piece_length as int, BLOCK_SIZE as int);
    lemma_parts_bounds(piece_length as int, BLOCK_SIZE as int);
    assert forall|j: int| 0 <= j < n implies {
        let b = #[trigger] block_of(piece_index, piece_length, j, n);
        &&& b.piece == piece_index as u32
        &&& b.begin == j * BLOCK_SIZE
        &&& 1 <= b.length <= BLOCK_SIZE
        &&& j + 1 < n ==> b.begin + b.length == (j + 1) * BLOCK_SIZE
        &&& j + 1 == n ==> b.begin + b.length == piece_length
    } by {
        assert(j * BLOCK_SIZE <= (n - 1) * BLOCK_SIZE) by (nonlinear_arith)
            requires
                0 <= j < n,
        ;
        assert((j + 1) * BLOCK_SIZE == j * BLOCK_SIZE + BLOCK_SIZE) by (nonlinear_arith);
        assert(0 <= j * BLOCK_SIZE) by (nonlinear_arith)
            requires
                0 <= j,
        ;
    }
    lemma_blocks_total(piece_length, n, n);
}

proof fn lemma_blocks_total(piece_length: usize, n: int, k: int)
    requires
        0 < piece_length <= u32::MAX,
        n == parts_needed(piece_length as int, BLOCK_SIZE as int),
        0 <= k <= n,
    ensures
        k < n ==> blocks_total(piece_length, n, k) == k * BLOCK_SIZE,
        k == n ==> blocks_total(piece_length, n, k) == piece_length,
    decreases k,
{
    lemma_parts_bounds(piece_length as int, BLOCK_SIZE as int);
    if k > 0 {
        lemma_blocks_total(piece_length, n, k - 1);
        assert(k * BLOCK_SIZE == (k - 1) * BLOCK_SIZE + BLOCK_SIZE) by (nonlinear_arith);
        assert((k - 1) * BLOCK_SIZE <= (n - 1) * BLOCK_SIZE) by (nonlinear_arith)
            requires
                0 <= k - 1 < n,
        ;
        assert(0 <= (k - 1) * BLOCK_SIZE) by (nonlinear_arith)
            requires
                0 <= k - 1,
        ;
    }
}

/// Block `block_index` of the `blocks_count` blocks of piece `piece_index`,
/// which has `piece_length` bytes: every block has `BLOCK_SIZE` bytes but the
/// last, which has the rest of the piece.
pub fn block_from_piece(
    piece_index: usize,
    piece_length: usize,
    block_index: usize,
    blocks_count: usize,
) -> (b: Block)
    requires
        blocks_count > 0,
        (block_index as u32) * BLOCK_SIZE <= u32::MAX,
        block_index == blocks_count - 1 ==> (block_index as u32) * BLOCK_SIZE <= piece_length as u32,
    ensures
        b.piece == piece_index as u32,
        b.begin == (block_index as u32) * BLOCK_SIZE,
        b.length == if block_index == blocks_count - 1 {
            (piece_length as u32 - b.begin) as u32
        } else {
            BLOCK_SIZE as u32
        },
        piece_length <= u32::MAX && block_index * BLOCK_SIZE <= u32::MAX ==> b == block_of(
            piece_index,
            piece_length,
            block_index as int,
            blocks_count as int,
        ),
{
    let is_last_block = block_index == blocks_count - 1;
    let begin = block_index as u32 * BLOCK_SIZE as u32;
    let piece = piece_index as u32;
    let length = if !is_last_block {
        BLOCK_SIZE as u32
    } else {
        piece_length as u32 - begin
    };
    Block { piece, begin, length }
}

/// Merging a bitfield a second time changes nothing, and the merged
/// bitfield holds every piece of both.
pub proof fn lemma_merge_idempotent(current: Seq<u8>, new: Seq<u8>)
    ensures
        merged_bitfield(merged_bitfield(current, new), new) == merged_bitfield(current, new),
        forall|i: int| 0 <= i < new.len() ==> #[trigger] merged_bitfield(current, new)[i] & new[i] == new[i],
        forall|i: int|
            0 <= i < current.len() ==> merged_bitfield(current, new)[i] & current[i] == #[trigger] current[i],
{
    let m = merged_bitfield(current, new);
    assert forall|i: int| 0 <= i < new.len() implies #[trigger] m[i] & new[i] == new[i] by {
        let b = new[i];
        if i < current.len() {
            let a = current[i];
            assert((a | b) & b == b) by (bit_vector);
        } else {
            assert(b & b == b) by (bit_vector);
        }
    }
    assert forall|i: int| 0 <= i < current.len() implies m[i] & current[i] == #[trigger] current[i] by {
        let a = current[i];
        if i < new.len() {
            let b = new[i];
            assert((a | b) & a == a) by (bit_vector);
        } else {
            assert(a & a == a) by (bit_vector);
        }
    }
    let mm = merged_bitfield(m, new);
    assert forall|i: int| 0 <= i < mm.len() implies mm[i] == m[i] by {
        if i < new.len() {
            let b = new[i];
            if i < current.len() {
                let a = current[i];
                assert((a | b) | b == a | b) by (bit_vector);
            } else {
                assert(b | b == b) by (bit_vector);
            }
        }
    }
    assert(mm =~= m);
}

} // verus!
