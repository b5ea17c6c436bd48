//! Bit addressing: which way an identifier turns at a given depth of the trie.

use vstd::prelude::*;
use crate::identifier::Identifier;

verus! {

/// The two children of an inner node.
#[derive(Clone, Copy, Debug, PartialEq, Eq, Structural)]
pub enum Direction {
    /// The child for identifiers whose bit is 0.
    Left,
    /// The child for identifiers whose bit is 1.
    Right,
}

/// Whether bit `within` of `byte` is set, bit 0 being the most significant.
pub open spec fn bit_is_set(byte: u8, within: u32) -> bool {
    byte & (0x80u8 >> within) != 0
}

/// Whether `branch` is defined for `id` at `bit_index`. It is not defined at a
/// byte boundary at or past the end of the identifier: there is no byte to
/// inspect, and the short-identifier rule only covers the bits inside a byte.
pub open spec fn addressable(id: Seq<u8>, bit_index: nat) -> bool {
    bit_index % 8 != 0 || bit_index / 8 < id.len()
}

/// The child that `id` falls into at global bit offset `bit_index`, where
/// offset 0 is the most significant bit of byte 0. An identifier that ends
/// before the byte holding the bit goes left, provided the bit is not the
/// first of its byte.
pub open spec fn branch(id: Seq<u8>, bit_index: nat) -> Direction {
    let byte_index = bit_index / 8;
    let within = (bit_index % 8) as u32;
    if id.len() <= byte_index && within != 0 {
        Direction::Left
    } else if bit_is_set(id[byte_index as int], within) {
        Direction::Right
    } else {
        Direction::Left
    }
}

/// Whether `id` takes every turn of `path`, a sequence of directions from the
/// root downwards.
pub open spec fn follows(id: Seq<u8>, path: Seq<Direction>) -> bool {
    forall|i: int| 0 <= i < path.len() ==> branch(id, i as nat) == #[trigger] path[i]
}

/// Determines whether `id` goes left or right at `bit_index`.
pub fn determine_node<I: Identifier>(id: &I, bit_index: u32) -> (direction: Direction)
    requires
        addressable(id.bytes(), bit_index as nat),
    ensures
        direction == branch(id.bytes(), bit_index as nat),
{
    let bytes = id.as_bytes();
    let bytes_described_by_bit_index: u32 = bit_index >> 3;
    let bit_index_within_byte: u32 = bit_index % 8;
    assert(bit_index >> 3 == bit_index / 8) by (bit_vector);
    if bytes.len() <= bytes_described_by_bit_index as usize && bit_index_within_byte != 0 {
        return Direction::Left;
    }
    let byte_under_consideration: u8 = bytes[bytes_described_by_bit_index as usize];
    assert(((byte_under_consideration as u32) & (1u32 << (7 - bit_index_within_byte) as u32)) > 0
        <==> byte_under_consideration & (0x80u8 >> bit_index_within_byte) != 0) by (bit_vector)
        requires
            bit_index_within_byte < 8,
    ;
    if ((byte_under_consideration as u32) & (1u32 << (7 - bit_index_within_byte))) > 0 {
        return Direction::Right;
    }
    Direction::Left
}

/// Two bytes with the same eight bits are the same byte.
pub proof fn lemma_byte_by_bits(x: u8, y: u8)
    requires
        forall|within: u32| within < 8 ==> bit_is_set(x, within) == bit_is_set(y, within),
    ensures
        x == y,
{
    assert(bit_is_set(x, 0) == bit_is_set(y, 0));
    assert(bit_is_set(x, 1) == bit_is_set(y, 1));
    assert(bit_is_set(x, 2) == bit_is_set(y, 2));
    assert(bit_is_set(x, 3) == bit_is_set(y, 3));
    assert(bit_is_set(x, 4) == bit_is_set(y, 4));
    assert(bit_is_set(x, 5) == bit_is_set(y, 5));
    assert(bit_is_set(x, 6) == bit_is_set(y, 6));
    assert(bit_is_set(x, 7) == bit_is_set(y, 7));
    assert(x == y) by (bit_vector)
        requires
            (x & (0x80u8 >> 0u32) != 0) == (y & (0x80u8 >> 0u32) != 0),
            (x & (0x80u8 >> 1u32) != 0) == (y & (0x80u8 >> 1u32) != 0),
            (x & (0x80u8 >> 2u32) != 0) == (y & (0x80u8 >> 2u32) != 0),
            (x & (0x80u8 >> 3u32) != 0) == (y & (0x80u8 >> 3u32) != 0),
            (x & (0x80u8 >> 4u32) != 0) == (y & (0x80u8 >> 4u32) != 0),
            (x & (0x80u8 >> 5u32) != 0) == (y & (0x80u8 >> 5u32) != 0),
            (x & (0x80u8 >> 6u32) != 0) == (y & (0x80u8 >> 6u32) != 0),
            (x & (0x80u8 >> 7u32) != 0) == (y & (0x80u8 >> 7u32) != 0),
    ;
}

/// Two identifiers of one length that turn the same way at every bit are the
/// same identifier.
pub proof fn lemma_identifier_by_bits(a: Seq<u8>, b: Seq<u8>)
    requires
        a.len() == b.len(),
        forall|bit: nat| bit < 8 * a.len() ==> branch(a, bit) == branch(b, bit),
    ensures
        a == b,
{
    assert forall|i: int| 0 <= i < a.len() implies a[i] == b[i] by {
        assert forall|within: u32| within < 8 implies bit_is_set(a[i], within) == bit_is_set(
            b[i],
            within,
        ) by {
            let bit = (8 * i + within) as nat;
            assert(bit / 8 == i);
            assert(bit % 8 == within);
            assert(branch(a, bit) == branch(b, bit));
        }
        lemma_byte_by_bits(a[i], b[i]);
    }
    assert(a =~= b);
}

} // verus!
