//! The header of a hash: the component counts that its first digit declares.

use vstd::prelude::*;
use vstd::slice::slice_subrange;
use vstd::string::StringSliceAdditionalSpecFns;

use crate::base83::{decode_bytes, decoded, digit_value, first_invalid, is_digit, value};
use crate::error::Error;

verus! {

/// The least length of a hash: the header and one coefficient.
pub const MIN_LENGTH: usize = 6;

/// The length of a hash of `components_x` by `components_y` coefficients.
pub open spec fn hash_length(components_x: nat, components_y: nat) -> nat {
    4 + 2 * (components_x * components_y)
}

/// The component counts `(components_x, components_y)` that the bytes of a
/// hash declare, or why the hash is refused: too short, a first byte outside
/// the alphabet, or a length other than the declared counts ask for, tested
/// in that order.
pub open spec fn dimensions(hash: Seq<u8>) -> Result<(nat, nat), Error> {
    if hash.len() < MIN_LENGTH {
        Err(Error::HashTooShort)
    } else {
        match decoded(hash.subrange(0, 1)) {
            Err(e) => Err(e),
            Ok(size_flag) => {
                let components_x = size_flag % 9 + 1;
                let components_y = size_flag / 9 + 1;
                let expected = hash_length(components_x, components_y);
                if hash.len() != expected {
                    Err(
                        Error::LengthMismatch {
                            expected: expected as usize,
                            actual: hash.len() as usize,
                        },
                    )
                } else {
                    Ok((components_x, components_y))
                }
            },
        }
    }
}

/// Reads the component counts from the first digit of a hash and holds the
/// length of the hash against them.
pub fn extract_hash_dimensions(blurhash: &str) -> (result: Result<(usize, usize), Error>)
    ensures
        match result {
            Ok((components_x, components_y)) => dimensions(blurhash.spec_bytes()) == Ok::<
                (nat, nat),
                Error,
            >((components_x as nat, components_y as nat)),
            Err(e) => dimensions(blurhash.spec_bytes()) == Err::<(nat, nat), Error>(e),
        },
{
    dimensions_of(blurhash.as_bytes())
}

/// [`extract_hash_dimensions`] on the bytes of the hash.
pub fn dimensions_of(hash: &[u8]) -> (result: Result<(usize, usize), Error>)
    ensures
        match result {
            Ok((components_x, components_y)) => dimensions(hash@) == Ok::<(nat, nat), Error>(
                (components_x as nat, components_y as nat),
            ),
            Err(e) => dimensions(hash@) == Err::<(nat, nat), Error>(e),
        },
{
    if hash.len() < MIN_LENGTH {
        return Err(Error::HashTooShort);
    }
    proof {
        lemma_decoded_single(hash@.subrange(0, 1));
    }
    let size_flag = match decode_bytes(slice_subrange(hash, 0, 1)) {
        Ok(v) => v as usize,
        Err(e) => {
            return Err(e);
        },
    };
    let num_y: usize = size_flag / 9 + 1;
    let num_x: usize = size_flag % 9 + 1;
    assert(num_x * num_y <= 90) by (nonlinear_arith)
        requires
            num_x <= 9,
            num_y <= 10,
    ;
    let expected: usize = 4 + 2 * (num_x * num_y);
    if hash.len() != expected {
        return Err(Error::LengthMismatch { expected, actual: hash.len() });
    }
    Ok((num_x, num_y))
}

/// A numeral of one digit denotes the value of that digit.
pub proof fn lemma_decoded_single(bytes: Seq<u8>)
    requires
        bytes.len() == 1,
    ensures
        decoded(bytes) == if is_digit(bytes[0]) {
            Ok::<nat, Error>(digit_value(bytes[0]))
        } else {
            Err::<nat, Error>(Error::InvalidBase83(bytes[0]))
        },
        decoded(bytes) matches Ok(v) ==> v < 83,
{
    reveal_with_fuel(first_invalid, 2);
    reveal_with_fuel(value, 2);
    if is_digit(bytes[0]) {
    }
}

/// The counts that a hash declares lie in `1..=9` across and `1..=10` down,
/// and the hash has the length that they ask for.
pub proof fn lemma_dimensions(hash: Seq<u8>)
    ensures
        dimensions(hash) matches Ok((components_x, components_y)) ==> {
            &&& 1 <= components_x <= 9
            &&& 1 <= components_y <= 10
            &&& hash.len() == hash_length(components_x, components_y)
        },
{
    if hash.len() >= MIN_LENGTH {
        lemma_decoded_single(hash.subrange(0, 1));
    }
}

} // verus!
