//! Single-bit access inside a packed byte.
//!
//! Bit indices count from the most significant bit: index `i` selects the
//! bit under the mask `0x80 >> i`, so index 0 is the high bit and index 7
//! the low bit.

use vstd::prelude::*;

verus! {

/// True when the bit selected by `bit_index` (mask `0x80 >> bit_index`) is set.
pub open spec fn bit_at(byte: u8, bit_index: u8) -> bool {
    byte & (0x80u8 >> bit_index) != 0
}

/// The byte with the bit selected by `bit_index` forced to `enabled`,
/// all other bits kept.
pub open spec fn with_bit(byte: u8, bit_index: u8, enabled: bool) -> u8 {
    if enabled {
        byte | (0x80u8 >> bit_index)
    } else {
        byte & !(0x80u8 >> bit_index)
    }
}

/// Reads one bit of a packed byte.
pub fn get_bit_at_index(byte: u8, bit_index: u8) -> (r: bool)
    requires
        bit_index < 8,
    ensures
        r == bit_at(byte, bit_index),
{
    let mask: u8 = 0x80u8 >> bit_index;
    byte & mask != 0
}

/// Writes one bit of a packed byte, leaving every other bit as it was.
pub fn set_bit_at_index(byte: u8, bit_index: u8, enabled: bool) -> (r: u8)
    requires
        bit_index < 8,
    ensures
        r == with_bit(byte, bit_index, enabled),
{
    let mask: u8 = 0x80u8 >> bit_index;
    if enabled {
        byte | mask
    } else {
        byte & !mask
    }
}

/// After forcing bit `i`, reading bit `j` gives the written value when
/// `j == i` and the old bit otherwise.
pub proof fn lemma_with_bit(byte: u8, i: u8, v: bool, j: u8)
    requires
        i < 8,
        j < 8,
    ensures
        bit_at(with_bit(byte, i, v), j) == if j == i {
            v
        } else {
            bit_at(byte, j)
        },
{
    if v {
        assert((((byte | (0x80u8 >> i)) & (0x80u8 >> j) != 0) == if j == i {
            true
        } else {
            byte & (0x80u8 >> j) != 0
        })) by (bit_vector)
            requires
                i < 8,
                j < 8,
        ;
    } else {
        assert((((byte & !(0x80u8 >> i)) & (0x80u8 >> j) != 0) == if j == i {
            false
        } else {
            byte & (0x80u8 >> j) != 0
        })) by (bit_vector)
            requires
                i < 8,
                j < 8,
        ;
    }
}

} // verus!
