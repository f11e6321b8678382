//! One coefficient above the average, packed as three digits of base 19.
//!
//! Each channel of such a coefficient is quantised to a digit from 0 to 18,
//! where 9 stands for zero. The red digit is the most significant.

use vstd::prelude::*;

verus! {

/// The greatest digit that a quantised channel takes.
pub const MAX_DIGIT: u32 = 18;

/// Whether each of the three digits is at most [`MAX_DIGIT`].
pub open spec fn quantised(digits: [u32; 3]) -> bool {
    digits[0] <= MAX_DIGIT && digits[1] <= MAX_DIGIT && digits[2] <= MAX_DIGIT
}

/// The number that holds `digits`: `(r * 19 + g) * 19 + b`.
pub open spec fn packed(digits: [u32; 3]) -> nat {
    ((digits[0] * 19 + digits[1]) * 19 + digits[2]) as nat
}

/// The digits of `value`, red first: `value / 361`, `(value / 19) % 19` and
/// `value % 19`.
pub open spec fn unpacked(value: nat) -> [u32; 3] {
    [(value / 361) as u32, ((value / 19) % 19) as u32, (value % 19) as u32]
}

/// Packs the three digits of a coefficient into one number.
pub fn encode(value: [u32; 3]) -> (result: u32)
    requires
        quantised(value),
    ensures
        result == packed(value),
        result < 6859,
{
    (value[0] * 19 + value[1]) * 19 + value[2]
}

/// Takes the three digits of a coefficient out of `value`.
pub fn decode(value: u32) -> (result: [u32; 3])
    ensures
        result == unpacked(value as nat),
{
    [value / 361, (value / 19) % 19, value % 19]
}

/// Unpacking gives back the digits that were packed.
pub proof fn lemma_unpack_pack(digits: [u32; 3])
    requires
        quantised(digits),
    ensures
        unpacked(packed(digits)) == digits,
        packed(digits) < 6859,
{
}

/// Packing gives back the number that was unpacked.
pub proof fn lemma_pack_unpack(value: nat)
    requires
        value <= u32::MAX,
    ensures
        packed(unpacked(value)) == value,
{
}

} // verus!
