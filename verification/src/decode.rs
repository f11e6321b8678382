//! Reading a hash: from its bytes to the quantised coefficients.

use vstd::arithmetic::power::lemma_pow_increases;
use vstd::prelude::*;
use vstd::slice::slice_subrange;
use vstd::string::StringSliceAdditionalSpecFns;

use crate::alternating_current;
use crate::base83::{
    decode_bytes, first_invalid, is_digit, lemma_decode_encode, lemma_digits_accepted,
    lemma_encode_decode, lemma_first_invalid, lemma_first_invalid_concat,
    lemma_first_invalid_prefix, lemma_invalid_byte_refused, lemma_numeral_digits,
    lemma_powers_of_83, lemma_value_bound, numeral, value,
};
use crate::coefficients::{Coefficients, CoefficientsView};
use crate::direct_current;
use crate::encode::{ac_numerals, hash_bytes, lemma_ac_numeral_at, lemma_hash_bytes, size_flag};
use crate::error::Error;
use crate::util::{dimensions, dimensions_of, lemma_decoded_single, lemma_dimensions};

verus! {

/// What reading the bytes of a hash gives. The header is held to account
/// first. Then the first byte outside the alphabet after the size flag, if
/// there is one, is the error. Else the fields are read: the maximum from
/// byte 1, the average colour from bytes 2 to 5, and coefficient `i` above
/// the average from the two bytes at `6 + 2 * i`.
pub open spec fn parsed(hash: Seq<u8>) -> Result<CoefficientsView, Error> {
    match dimensions(hash) {
        Err(e) => Err(e),
        Ok((components_x, components_y)) => match first_invalid(
            hash.subrange(1, hash.len() as int),
        ) {
            Some(byte) => Err(Error::InvalidBase83(byte)),
            None => Ok(
                CoefficientsView {
                    components_x,
                    components_y,
                    quantised_maximum: value(hash.subrange(1, 2)),
                    dc: direct_current::unpacked(value(hash.subrange(2, 6))),
                    ac: Seq::new(
                        (components_x * components_y - 1) as nat,
                        |i: int|
                            alternating_current::unpacked(
                                value(hash.subrange(6 + 2 * i, 8 + 2 * i)),
                            ),
                    ),
                },
            ),
        },
    }
}

/// Reads the numeral in `hash[from..to]`, given that no byte of
/// `hash[1..from]` lies outside the alphabet.
fn field(hash: &[u8], from: usize, to: usize) -> (result: Result<u32, Error>)
    requires
        1 <= from < to <= hash@.len(),
        to - from <= 4,
        first_invalid(hash@.subrange(1, from as int)) is None,
    ensures
        match result {
            Ok(v) => {
                &&& first_invalid(hash@.subrange(1, to as int)) is None
                &&& v == value(hash@.subrange(from as int, to as int))
            },
            Err(e) => {
                &&& first_invalid(hash@.subrange(1, hash@.len() as int)) matches Some(byte)
                &&& e == Error::InvalidBase83(byte)
            },
        },
{
    let ghost before = hash@.subrange(1, from as int);
    let ghost here = hash@.subrange(from as int, to as int);
    let ghost rest = hash@.subrange(1, hash@.len() as int);
    proof {
        assert(before + here == hash@.subrange(1, to as int));
        assert(rest.take(to - 1) == hash@.subrange(1, to as int));
        lemma_first_invalid_concat(before, here);
        if first_invalid(here) is Some {
            lemma_first_invalid_prefix(rest, to - 1);
        } else {
            lemma_value_bound(here);
            lemma_powers_of_83();
            lemma_pow_increases(83, here.len(), 4);
        }
    }
    match decode_bytes(slice_subrange(hash, from, to)) {
        Ok(v) => Ok(v as u32),
        Err(e) => Err(e),
    }
}

/// Reads the coefficients out of a hash.
pub fn decode(blurhash: &str) -> (result: Result<Coefficients, Error>)
    ensures
        match result {
            Ok(coefficients) => {
                &&& parsed(blurhash.spec_bytes()) == Ok::<CoefficientsView, Error>(coefficients@)
                &&& coefficients@.readable()
            },
            Err(e) => parsed(blurhash.spec_bytes()) == Err::<CoefficientsView, Error>(e),
        },
{
    let hash = blurhash.as_bytes();
    proof {
        lemma_parsed_readable(hash@);
    }
    let (num_x, num_y) = match dimensions_of(hash) {
        Ok(counts) => counts,
        Err(e) => {
            return Err(e);
        },
    };
    proof {
        lemma_dimensions(hash@);
    }
    assert(num_x * num_y <= 90 && num_x * num_y >= 1) by (nonlinear_arith)
        requires
            1 <= num_x <= 9,
            1 <= num_y <= 10,
    ;
    let count: usize = num_x * num_y;
    let quantised_maximum = match field(hash, 1, 2) {
        Ok(v) => v,
        Err(e) => {
            return Err(e);
        },
    };
    let dc = match field(hash, 2, 6) {
        Ok(v) => direct_current::decode(v),
        Err(e) => {
            return Err(e);
        },
    };
    let mut ac: Vec<[u32; 3]> = Vec::new();
    let mut i: usize = 1;
    while i < count
        invariant
            1 <= i <= count <= 90,
            hash@ == blurhash.spec_bytes(),
            dimensions(hash@) == Ok::<(nat, nat), Error>((num_x as nat, num_y as nat)),
            hash@.len() == 4 + 2 * count,
            first_invalid(hash@.subrange(1, 4 + 2 * i)) is None,
            ac@.len() == i - 1,
            forall|k: int|
                0 <= k < i - 1 ==> #[trigger] ac@[k] == alternating_current::unpacked(
                    value(hash@.subrange(6 + 2 * k, 8 + 2 * k)),
                ),
        decreases count - i,
    {
        let digits = match field(hash, 4 + i * 2, 6 + i * 2) {
            Ok(v) => alternating_current::decode(v),
            Err(e) => {
                return Err(e);
            },
        };
        ac.push(digits);
        i += 1;
    }
    let coefficients = Coefficients {
        components_x: num_x,
        components_y: num_y,
        quantised_maximum,
        dc,
        ac,
    };
    assert(parsed(hash@)->Ok_0.ac =~= coefficients@.ac);
    Ok(coefficients)
}

/// What is read out of a hash is [`readable`](CoefficientsView::readable).
pub proof fn lemma_parsed_readable(hash: Seq<u8>)
    ensures
        parsed(hash) matches Ok(coefficients) ==> coefficients.readable(),
{
    if let Ok(c) = parsed(hash) {
        lemma_dimensions(hash);
        lemma_powers_of_83();
        let rest = hash.subrange(1, hash.len() as int);
        lemma_first_invalid(rest);
        let maximum = hash.subrange(1, 2);
        assert forall|j: int| 0 <= j < maximum.len() implies is_digit(#[trigger] maximum[j]) by {
            assert(maximum[j] == rest[j]);
        }
        lemma_digits_accepted(maximum);
        lemma_value_bound(maximum);
        assert forall|i: int| 0 <= i < c.ac.len() implies {
            &&& (#[trigger] c.ac[i])[0] <= 19
            &&& c.ac[i][1] <= 18
            &&& c.ac[i][2] <= 18
        } by {
            let here = hash.subrange(6 + 2 * i, 8 + 2 * i);
            assert forall|j: int| 0 <= j < here.len() implies is_digit(#[trigger] here[j]) by {
                assert(here[j] == rest[5 + 2 * i + j]);
            }
            lemma_digits_accepted(here);
            lemma_value_bound(here);
        }
    }
}

/// Reading is a function of the text alone: two hashes that spell the same
/// characters are read alike.
pub proof fn lemma_decode_is_pure(first: &str, second: &str)
    requires
        first@ == second@,
    ensures
        parsed(first.spec_bytes()) == parsed(second.spec_bytes()),
{
}

/// Reading undoes writing: the hash written for coefficients that an
/// encoder may hold reads back as those coefficients.
pub proof fn lemma_parse_written(coefficients: CoefficientsView)
    requires
        coefficients.encodable(),
    ensures
        parsed(hash_bytes(coefficients)) == Ok::<CoefficientsView, Error>(coefficients),
{
    let c = coefficients;
    let hash = hash_bytes(c);
    let flag = size_flag(c.components_x, c.components_y);
    let dc = direct_current::packed(c.dc);
    let n0 = numeral(flag, 1);
    let n1 = numeral(c.quantised_maximum, 1);
    let n2 = numeral(dc, 4);
    let n3 = ac_numerals(c.ac);
    lemma_hash_bytes(c);
    lemma_numeral_digits(c.quantised_maximum, 1);
    lemma_numeral_digits(dc, 4);
    lemma_powers_of_83();
    direct_current::lemma_unpack_pack(c.dc);

    assert(hash.subrange(0, 1) == n0);
    assert(hash.subrange(1, 2) == n1);
    assert(hash.subrange(2, 6) == n2);
    lemma_decode_encode(flag, 1);
    lemma_decode_encode(c.quantised_maximum, 1);
    lemma_decode_encode(dc, 4);

    let rest = hash.subrange(1, hash.len() as int);
    assert forall|j: int| 0 <= j < rest.len() implies is_digit(#[trigger] rest[j]) by {
        assert(rest[j] == hash[j + 1]);
    }
    lemma_digits_accepted(rest);

    let read = parsed(hash)->Ok_0;
    assert forall|i: int| 0 <= i < c.ac.len() implies read.ac[i] == c.ac[i] by {
        let packed = alternating_current::packed(c.ac[i]);
        lemma_ac_numeral_at(c.ac, i);
        assert(hash.subrange(6 + 2 * i, 8 + 2 * i) == n3.subrange(2 * i, 2 * i + 2));
        alternating_current::lemma_unpack_pack(c.ac[i]);
        lemma_decode_encode(packed, 2);
    }
    assert(read.ac =~= c.ac);
}

/// A hash of at least six bytes that holds a byte outside the alphabet is
/// refused, and the error names the leftmost such byte, if that byte is the
/// first of the hash or the length of the hash is the one that its first
/// byte declares.
pub proof fn lemma_invalid_byte_in_hash(hash: Seq<u8>, i: int)
    requires
        hash.len() >= 6,
        0 <= i < hash.len(),
        !is_digit(hash[i]),
        forall|j: int| 0 <= j < i ==> is_digit(#[trigger] hash[j]),
        i == 0 || dimensions(hash) is Ok,
    ensures
        parsed(hash) == Err::<CoefficientsView, Error>(Error::InvalidBase83(hash[i])),
{
    if i == 0 {
        lemma_decoded_single(hash.subrange(0, 1));
    } else {
        let rest = hash.subrange(1, hash.len() as int);
        assert forall|j: int| 0 <= j < i - 1 implies is_digit(#[trigger] rest[j]) by {
            assert(rest[j] == hash[j + 1]);
        }
        lemma_invalid_byte_refused(rest, i - 1);
    }
}

/// The numerals of the first `k` coefficients above the average that were
/// read out of `hash` are the bytes of `hash` that they were read from.
proof fn lemma_ac_numerals_of_fields(hash: Seq<u8>, ac: Seq<[u32; 3]>, k: int)
    requires
        hash.len() >= 6 + 2 * ac.len(),
        0 <= k <= ac.len(),
        forall|i: int|
            0 <= i < ac.len() ==> #[trigger] ac[i] == alternating_current::unpacked(
                value(hash.subrange(6 + 2 * i, 8 + 2 * i)),
            ),
        forall|j: int| 6 <= j < hash.len() ==> is_digit(#[trigger] hash[j]),
    ensures
        ac_numerals(ac.take(k)) == hash.subrange(6, 6 + 2 * k),
    decreases k,
{
    if k > 0 {
        let i = k - 1;
        let here = hash.subrange(6 + 2 * i, 8 + 2 * i);
        lemma_ac_numerals_of_fields(hash, ac, i);
        assert forall|j: int| 0 <= j < here.len() implies is_digit(#[trigger] here[j]) by {
            assert(here[j] == hash[6 + 2 * i + j]);
        }
        lemma_digits_accepted(here);
        lemma_value_bound(here);
        lemma_powers_of_83();
        lemma_encode_decode(here);
        alternating_current::lemma_pack_unpack(value(here));
        assert(ac.take(k).drop_last() == ac.take(i));
        assert(hash.subrange(6, 6 + 2 * i) + here == hash.subrange(6, 6 + 2 * k));
    }
}

/// Writing undoes reading: coefficients that were read out of a hash are
/// written as that hash, if the average colour of the hash takes no more
/// than 24 bits.
pub proof fn lemma_write_parsed(hash: Seq<u8>)
    requires
        parsed(hash) is Ok,
        value(hash.subrange(2, 6)) < 0x100_0000,
    ensures
        hash_bytes(parsed(hash)->Ok_0) == hash,
{
    let c = parsed(hash)->Ok_0;
    let rest = hash.subrange(1, hash.len() as int);
    let flag = hash.subrange(0, 1);
    let maximum = hash.subrange(1, 2);
    let dc = hash.subrange(2, 6);
    lemma_first_invalid(rest);
    assert forall|j: int| 1 <= j < hash.len() implies is_digit(#[trigger] hash[j]) by {
        assert(hash[j] == rest[j - 1]);
    }
    lemma_digits_accepted(maximum);
    lemma_digits_accepted(dc);

    lemma_encode_decode(flag);
    lemma_encode_decode(maximum);
    lemma_encode_decode(dc);
    lemma_ac_numerals_of_fields(hash, c.ac, c.ac.len() as int);
    assert(c.ac.take(c.ac.len() as int) == c.ac);
    assert(flag + maximum + dc + hash.subrange(6, hash.len() as int) == hash);
}

} // verus!
