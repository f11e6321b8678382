//! The average colour of an image, packed into 24 bits.
//!
//! The colour is held as three gamma-encoded channels, red first. Packed,
//! red fills bits 16 to 23, green bits 8 to 15 and blue bits 0 to 7.

use vstd::prelude::*;

verus! {

/// The 24-bit number that holds `channels`: `(r << 16) | (g << 8) | b`.
pub open spec fn packed(channels: [u8; 3]) -> nat {
    (channels[0] * 65536 + channels[1] * 256 + channels[2]) as nat
}

/// The three 8-bit fields of `value`, red first. Bits from the 24th up
/// belong to no field.
pub open spec fn unpacked(value: nat) -> [u8; 3] {
    [((value / 65536) % 256) as u8, ((value / 256) % 256) as u8, (value % 256) as u8]
}

/// Packs the three channels of the average colour into one number.
pub fn encode(value: [u8; 3]) -> (result: u32)
    ensures
        result == packed(value),
        result < 0x100_0000,
{
    let r: u32 = value[0] as u32;
    let g: u32 = value[1] as u32;
    let b: u32 = value[2] as u32;
    assert((r << 16) | (g << 8) | b == r * 65536 + g * 256 + b) by (bit_vector)
        requires
            r < 256,
            g < 256,
            b < 256,
    ;
    (r << 16) | (g << 8) | b
}

/// Takes the three channels of the average colour out of `value`.
pub fn decode(value: u32) -> (result: [u8; 3])
    ensures
        result == unpacked(value as nat),
{
    let r: u32 = (value >> 16) & 255;
    let g: u32 = (value >> 8) & 255;
    let b: u32 = value & 255;
    assert(r == (value / 65536) % 256 && g == (value / 256) % 256 && b == value % 256)
        by (bit_vector)
        requires
            r == (value >> 16) & 255,
            g == (value >> 8) & 255,
            b == value & 255,
    ;
    [r as u8, g as u8, b as u8]
}

/// Unpacking gives back the channels that were packed.
pub proof fn lemma_unpack_pack(channels: [u8; 3])
    ensures
        unpacked(packed(channels)) == channels,
        packed(channels) < 0x100_0000,
{
}

/// Packing gives back a number of 24 bits that was unpacked.
pub proof fn lemma_pack_unpack(value: nat)
    requires
        value < 0x100_0000,
    ensures
        packed(unpacked(value)) == value,
{
}

} // verus!
