//! Bitfields as the peer wire protocol lays them out: piece `i` is bit
//! `7 - i % 8` (counting from the least significant bit) of byte `i / 8`.

use vstd::prelude::*;

verus! {

/// The mask of the bit that stands for `index` inside its byte.
pub open spec fn bit_mask(index: int) -> u8 {
    (128u8 >> ((index % 8) as u8)) as u8
}

/// Whether the bitfield `data` holds piece `index`.
pub open spec fn has_bit(data: Seq<u8>, index: int) -> bool {
    &&& 0 <= index
    &&& index / 8 < data.len()
    &&& data[index / 8] & bit_mask(index) == bit_mask(index)
}

/// Law: piece `index` is held when bit `7 - index % 8` of byte `index / 8`
/// (counting from the least significant bit) is set: the first piece of a
/// byte is its most significant bit.
pub proof fn lemma_has_bit_most_significant_first(data: Seq<u8>, index: int)
    requires
        0 <= index,
    ensures
        has_bit(data, index) <==> index / 8 < data.len() && (data[index / 8] >> ((7 - index % 8) as u8)) & 1u8
            == 1u8,
{
    if index / 8 < data.len() {
        let b = data[index / 8];
        let x = (index % 8) as u8;
        let y = (7 - index % 8) as u8;
        assert(((b & (128u8 >> x)) == (128u8 >> x)) == ((b >> y) & 1u8 == 1u8)) by (bit_vector)
            requires
                x < 8,
                y == 7 - x,
        ;
    }
}

/// Byte position and bit mask of `index` in a bitfield.
pub fn index_in_bitarray(index: usize) -> (r: (usize, u8))
    ensures
        r.0 == index / 8,
        r.1 == bit_mask(index as int),
{
    let shift: u8 = (index % 8) as u8;
    (index / 8, 128u8 >> shift)
}

/// The position of `index` in `data` when its bit is set there, else `None`.
pub fn bit_by_index(index: usize, data: &[u8]) -> (r: Option<(usize, u8)>)
    ensures
        r is Some <==> has_bit(data@, index as int),
        r matches Some(p) ==> p == (index / 8, bit_mask(index as int)),
{
    let (index_byte, index_bit) = index_in_bitarray(index);
    if index_byte < data.len() {
        let v = data[index_byte];
        if v & index_bit == index_bit {
            Some((index_byte, index_bit))
        } else {
            None
        }
    } else {
        None
    }
}

} // verus!
