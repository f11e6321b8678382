//! Writing a hash: from the quantised coefficients to text.

use vstd::prelude::*;
use vstd::utf8::encode_utf8;

use crate::alternating_current;
use crate::alternating_current::quantised;
use crate::base83;
use crate::base83::{is_digit, lemma_numeral_digits, numeral};
use crate::coefficients::CoefficientsView;
use crate::direct_current;
use crate::error::Error;
use crate::text::{lemma_text_bytes, text};
use crate::util::hash_length;

verus! {

/// The fewest components that a hash has across or down.
pub const MIN_COMPONENTS: u32 = 1;

/// The most components that an encoder writes across or down.
pub const MAX_COMPONENTS: u32 = 9;

/// The greatest quantised maximum: the greatest value of one digit.
pub const MAX_QUANTISED_MAXIMUM: u32 = 82;

/// Whether both component counts lie in `1..=9`.
pub open spec fn components_in_range(components_x: int, components_y: int) -> bool {
    &&& MIN_COMPONENTS <= components_x <= MAX_COMPONENTS
    &&& MIN_COMPONENTS <= components_y <= MAX_COMPONENTS
}

/// The number that declares the component counts in the first digit.
pub open spec fn size_flag(components_x: nat, components_y: nat) -> nat {
    ((components_x - 1) + (components_y - 1) * 9) as nat
}

/// The numerals of two digits for the coefficients above the average, one
/// after the other.
pub open spec fn ac_numerals(ac: Seq<[u32; 3]>) -> Seq<u8>
    decreases ac.len(),
{
    if ac.len() == 0 {
        Seq::empty()
    } else {
        ac_numerals(ac.drop_last()) + numeral(alternating_current::packed(ac.last()), 2)
    }
}

/// The bytes of the hash for `coefficients`: one digit for the size flag,
/// one for the quantised maximum, four for the average colour, and two for
/// each coefficient above the average.
pub open spec fn hash_bytes(coefficients: CoefficientsView) -> Seq<u8> {
    numeral(size_flag(coefficients.components_x, coefficients.components_y), 1) + numeral(
        coefficients.quantised_maximum,
        1,
    ) + numeral(direct_current::packed(coefficients.dc), 4) + ac_numerals(coefficients.ac)
}

/// The coefficients that [`encode`] writes for its arguments: where the
/// average stands alone, the maximum is written as 0.
pub open spec fn written(
    components_x: u32,
    components_y: u32,
    quantised_maximum: u32,
    dc: [u8; 3],
    ac: Seq<[u32; 3]>,
) -> CoefficientsView {
    CoefficientsView {
        components_x: components_x as nat,
        components_y: components_y as nat,
        quantised_maximum: if ac.len() == 0 {
            0
        } else {
            quantised_maximum as nat
        },
        dc,
        ac,
    }
}

/// Tells whether both component counts lie in `1..=9`.
pub fn check_components(components_x: u32, components_y: u32) -> (result: Result<(), Error>)
    ensures
        result is Ok <==> components_in_range(components_x as int, components_y as int),
        result matches Err(e) ==> e == Error::ComponentsOutOfRange,
{
    if components_x < MIN_COMPONENTS || components_x > MAX_COMPONENTS || components_y
        < MIN_COMPONENTS || components_y > MAX_COMPONENTS {
        Err(Error::ComponentsOutOfRange)
    } else {
        Ok(())
    }
}

/// Writes the hash for a grid of `components_x` by `components_y` quantised
/// coefficients: the average colour `dc`, and the others in `ac`, row after
/// row, with the quantised maximum that they were scaled by. Where the
/// average stands alone, the maximum is passed over and written as 0.
///
/// Counts outside `1..=9` are refused before anything else is looked at.
/// For counts in range, `ac` holds one coefficient for each cell of the grid
/// but the first, each of three digits of at most 18, and the maximum is at
/// most 82.
pub fn encode(
    components_x: u32,
    components_y: u32,
    quantised_maximum: u32,
    dc: [u8; 3],
    ac: &[[u32; 3]],
) -> (result: Result<String, Error>)
    requires
        components_in_range(components_x as int, components_y as int) ==> {
            &&& ac@.len() + 1 == components_x * components_y
            &&& ac@.len() > 0 ==> quantised_maximum <= MAX_QUANTISED_MAXIMUM
            &&& forall|i: int| 0 <= i < ac@.len() ==> quantised(#[trigger] ac@[i])
        },
    ensures
        match result {
            Ok(blurhash) => {
                let bytes = hash_bytes(
                    written(components_x, components_y, quantised_maximum, dc, ac@),
                );
                &&& components_in_range(components_x as int, components_y as int)
                &&& blurhash@ == text(bytes)
                &&& encode_utf8(blurhash@) == bytes
                &&& blurhash@.len() == hash_length(components_x as nat, components_y as nat)
            },
            Err(e) => {
                &&& !components_in_range(components_x as int, components_y as int)
                &&& e == Error::ComponentsOutOfRange
            },
        },
{
    match check_components(components_x, components_y) {
        Err(e) => {
            return Err(e);
        },
        Ok(_) => {},
    }
    let ghost coefficients = written(components_x, components_y, quantised_maximum, dc, ac@);
    let mut blurhash = String::new();

    let size_flag: u32 = (components_x - 1) + (components_y - 1) * 9;
    blurhash.append(base83::encode(size_flag, 1).as_str());

    if ac.len() > 0 {
        blurhash.append(base83::encode(quantised_maximum, 1).as_str());
    } else {
        blurhash.append(base83::encode(0, 1).as_str());
    }

    blurhash.append(base83::encode(direct_current::encode(dc), 4).as_str());

    let ghost header = numeral(size_flag as nat, 1) + numeral(coefficients.quantised_maximum, 1)
        + numeral(direct_current::packed(dc), 4);
    proof {
        assert(ac@.take(0) == Seq::<[u32; 3]>::empty());
    }
    let mut i: usize = 0;
    while i < ac.len()
        invariant
            i <= ac@.len(),
            forall|k: int| 0 <= k < ac@.len() ==> quantised(#[trigger] ac@[k]),
            blurhash@ == text(header + ac_numerals(ac@.take(i as int))),
        decreases ac@.len() - i,
    {
        let ghost before = ac_numerals(ac@.take(i as int));
        let ghost here = numeral(alternating_current::packed(ac@[i as int]), 2);
        proof {
            assert(ac@.take(i + 1).drop_last() == ac@.take(i as int));
            assert(ac_numerals(ac@.take(i + 1)) == before + here);
            assert(text(header + (before + here)) == text(header + before) + text(here));
        }
        blurhash.append(base83::encode(alternating_current::encode(ac[i]), 2).as_str());
        i += 1;
    }
    proof {
        assert(ac@.take(i as int) == ac@);
        lemma_hash_bytes(coefficients);
        lemma_text_bytes(hash_bytes(coefficients));
    }
    Ok(blurhash)
}

/// The numerals of the coefficients above the average take two bytes each,
/// all of them digits below 128.
pub proof fn lemma_ac_numerals(ac: Seq<[u32; 3]>)
    ensures
        ac_numerals(ac).len() == 2 * ac.len(),
        forall|k: int| 0 <= k < ac_numerals(ac).len() ==> #[trigger] ac_numerals(ac)[k] < 128,
        forall|k: int| 0 <= k < ac_numerals(ac).len() ==> is_digit(#[trigger] ac_numerals(ac)[k]),
    decreases ac.len(),
{
    if ac.len() > 0 {
        lemma_ac_numerals(ac.drop_last());
        lemma_numeral_digits(alternating_current::packed(ac.last()), 2);
    }
}

/// The two bytes at `2 * i` of the numerals of `ac` are the numeral of
/// coefficient `i`.
pub proof fn lemma_ac_numeral_at(ac: Seq<[u32; 3]>, i: int)
    requires
        0 <= i < ac.len(),
    ensures
        ac_numerals(ac).len() == 2 * ac.len(),
        ac_numerals(ac).subrange(2 * i, 2 * i + 2) == numeral(
            alternating_current::packed(ac[i]),
            2,
        ),
    decreases ac.len(),
{
    let front = ac_numerals(ac.drop_last());
    let last = numeral(alternating_current::packed(ac.last()), 2);
    lemma_ac_numerals(ac.drop_last());
    lemma_numeral_digits(alternating_current::packed(ac.last()), 2);
    if i == ac.len() - 1 {
        assert((front + last).subrange(2 * i, 2 * i + 2) == last);
    } else {
        lemma_ac_numeral_at(ac.drop_last(), i);
        assert((front + last).subrange(2 * i, 2 * i + 2) == front.subrange(2 * i, 2 * i + 2));
    }
}

/// A hash has two bytes for each cell of the grid and four more, all of
/// them digits below 128.
pub proof fn lemma_hash_bytes(coefficients: CoefficientsView)
    ensures
        hash_bytes(coefficients).len() == 6 + 2 * coefficients.ac.len(),
        forall|k: int|
            0 <= k < hash_bytes(coefficients).len() ==> #[trigger] hash_bytes(coefficients)[k]
                < 128,
        forall|k: int|
            0 <= k < hash_bytes(coefficients).len() ==> is_digit(
                #[trigger] hash_bytes(coefficients)[k],
            ),
{
    lemma_numeral_digits(size_flag(coefficients.components_x, coefficients.components_y), 1);
    lemma_numeral_digits(coefficients.quantised_maximum, 1);
    lemma_numeral_digits(direct_current::packed(coefficients.dc), 4);
    lemma_ac_numerals(coefficients.ac);
}

} // verus!
