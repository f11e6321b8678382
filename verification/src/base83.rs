//! Fixed-width numerals in base 83.
//!
//! A numeral is a run of bytes, most significant digit first, each byte one
//! of the 83 digits of [`CHARACTERS`]. The value of a digit is its position
//! in that table.

use vstd::arithmetic::div_mod::{lemma_breakdown, lemma_div_denominator, lemma_small_mod};
use vstd::arithmetic::power::{lemma_pow_increases, pow};
use vstd::prelude::*;
use vstd::string::StringSliceAdditionalSpecFns;
use vstd::utf8::encode_utf8;

use crate::error::Error;
use crate::text::{lemma_text_bytes, text};

verus! {

/// The digits in order of value: `0-9`, `A-Z`, `a-z`, then
/// `#$%*+,-.:;=?@[]^_{|}~`.
pub const CHARACTERS: [u8; 83] = [
    48, 49, 50, 51, 52, 53, 54, 55, 56, 57,  // 0123456789
    65, 66, 67, 68, 69, 70, 71, 72, 73, 74,  // ABCDEFGHIJ
    75, 76, 77, 78, 79, 80, 81, 82, 83, 84,  // KLMNOPQRST
    85, 86, 87, 88, 89, 90, 97, 98, 99, 100,  // UVWXYZabcd
    101, 102, 103, 104, 105, 106, 107, 108, 109, 110,  // efghijklmn
    111, 112, 113, 114, 115, 116, 117, 118, 119, 120,  // opqrstuvwx
    121, 122, 35, 36, 37, 42, 43, 44, 45, 46,  // yz#$%*+,-.
    58, 59, 61, 63, 64, 91, 93, 94, 95, 123,  // :;=?@[]^_{
    124, 125, 126,  // |}~
];

/// The longest numeral whose value is sure to fit in a `u64`.
pub const MAX_WIDTH: usize = 10;

/// Whether `byte` is one of the 83 digits.
pub open spec fn is_digit(byte: u8) -> bool {
    exists|d: int| 0 <= d < 83 && #[trigger] CHARACTERS[d] == byte
}

/// The value of the digit `byte`: its position in [`CHARACTERS`].
pub open spec fn digit_value(byte: u8) -> nat
    recommends
        is_digit(byte),
{
    choose|d: nat| d < 83 && #[trigger] CHARACTERS[d as int] == byte
}

/// The first byte of `bytes` that is not a digit, if there is one.
pub open spec fn first_invalid(bytes: Seq<u8>) -> Option<u8>
    decreases bytes.len(),
{
    if bytes.len() == 0 {
        None
    } else {
        match first_invalid(bytes.drop_last()) {
            Some(byte) => Some(byte),
            None => if is_digit(bytes.last()) {
                None
            } else {
                Some(bytes.last())
            },
        }
    }
}

/// The number that a run of digits denotes, most significant digit first.
pub open spec fn value(bytes: Seq<u8>) -> nat
    decreases bytes.len(),
{
    if bytes.len() == 0 {
        0
    } else {
        value(bytes.drop_last()) * 83 + digit_value(bytes.last())
    }
}

/// What decoding `bytes` gives: the first byte outside the alphabet as an
/// error, or else the value of the numeral.
pub open spec fn decoded(bytes: Seq<u8>) -> Result<nat, Error> {
    match first_invalid(bytes) {
        Some(byte) => Err(Error::InvalidBase83(byte)),
        None => Ok(value(bytes)),
    }
}

/// Whether reading `bytes` from the left stays within a `u64`: every run of
/// digits that `bytes` begins with denotes a number that a `u64` holds.
pub open spec fn representable(bytes: Seq<u8>) -> bool {
    forall|n: int|
        0 <= n <= bytes.len() && first_invalid(#[trigger] bytes.take(n)) is None ==> value(
            bytes.take(n),
        ) <= u64::MAX
}

/// The numeral of `width` digits for `value`, most significant digit first,
/// with leading zero digits kept. A value of more than `width` digits loses
/// its upper digits.
pub open spec fn numeral(value: nat, width: nat) -> Seq<u8>
    decreases width,
{
    if width == 0 {
        Seq::empty()
    } else {
        numeral(value / 83, (width - 1) as nat).push(CHARACTERS[(value % 83) as int])
    }
}

/// Looks `byte` up in the alphabet.
pub fn digit(byte: u8) -> (found: Option<u8>)
    ensures
        found is Some <==> is_digit(byte),
        found matches Some(d) ==> d == digit_value(byte),
{
    let mut d: usize = 0;
    while d < 83
        invariant
            d <= 83,
            forall|k: int| 0 <= k < d ==> #[trigger] CHARACTERS[k] != byte,
        decreases 83 - d,
    {
        if CHARACTERS[d] == byte {
            return Some(d as u8);
        }
        d += 1;
    }
    None
}

/// Writes `value` as a numeral of `length` digits, most significant digit
/// first and with leading zero digits kept.
pub fn encode(value: u32, length: u32) -> (result: String)
    ensures
        result@ == text(numeral(value as nat, length as nat)),
        encode_utf8(result@) == numeral(value as nat, length as nat),
{
    let ghost whole = numeral(value as nat, length as nat);
    let mut low_first: Vec<u8> = Vec::new();
    let mut rest: u32 = value;
    let mut i: u32 = 0;
    proof {
        lemma_numeral_digits(value as nat, length as nat);
    }
    while i < length
        invariant
            i <= length,
            whole == numeral(value as nat, length as nat),
            whole.len() == length,
            low_first@.len() == i,
            whole.take(length - i) == numeral(rest as nat, (length - i) as nat),
            forall|k: int| 0 <= k < i ==> low_first@[k] == #[trigger] whole[length - 1 - k],
        decreases length - i,
    {
        let d: usize = (rest % 83) as usize;
        proof {
            assert(whole.take(length - i).last() == whole[length - 1 - i]);
        }
        low_first.push(CHARACTERS[d]);
        rest = rest / 83;
        i += 1;
    }
    let mut result = String::new();
    let mut k: usize = low_first.len();
    while k > 0
        invariant
            k <= low_first@.len() == length == whole.len(),
            forall|j: int| 0 <= j < length ==> low_first@[j] == #[trigger] whole[length - 1 - j],
            result@ == text(whole.take(length - k)),
        decreases k,
    {
        k -= 1;
        result.push(low_first[k] as char);
        proof {
            assert(text(whole.take(length - k)) == text(whole.take(length - k - 1)).push(
                whole[length - 1 - k] as char,
            ));
        }
    }
    proof {
        assert(whole.take(length as int) == whole);
        lemma_text_bytes(whole);
    }
    result
}

/// Reads a numeral, accumulating `value * 83 + digit` from the left. The
/// numeral must fit in a `u64`: it has at most [`MAX_WIDTH`] bytes, or it is
/// [`representable`].
pub fn decode_bytes(bytes: &[u8]) -> (result: Result<u64, Error>)
    requires
        bytes@.len() <= MAX_WIDTH || representable(bytes@),
    ensures
        match result {
            Ok(v) => decoded(bytes@) == Ok::<nat, Error>(v as nat),
            Err(e) => decoded(bytes@) == Err::<nat, Error>(e),
        },
{
    proof {
        if bytes@.len() <= MAX_WIDTH {
            lemma_short_numeral_representable(bytes@);
        }
    }
    let mut acc: u64 = 0;
    let mut i: usize = 0;
    while i < bytes.len()
        invariant
            i <= bytes@.len(),
            representable(bytes@),
            first_invalid(bytes@.take(i as int)) is None,
            acc == value(bytes@.take(i as int)),
        decreases bytes@.len() - i,
    {
        let byte = bytes[i];
        proof {
            assert(bytes@.take(i + 1).drop_last() == bytes@.take(i as int));
        }
        match digit(byte) {
            None => {
                proof {
                    lemma_first_invalid_prefix(bytes@, i + 1);
                }
                return Err(Error::InvalidBase83(byte));
            },
            Some(d) => {
                acc = acc * 83 + d as u64;
            },
        }
        i += 1;
    }
    proof {
        assert(bytes@.take(i as int) == bytes@);
    }
    Ok(acc)
}

/// Reads the numeral that the bytes of `str` spell, under the condition of
/// [`decode_bytes`].
pub fn decode(str: &str) -> (result: Result<u64, Error>)
    requires
        str.len() <= MAX_WIDTH || representable(str.spec_bytes()),
    ensures
        match result {
            Ok(v) => decoded(str.spec_bytes()) == Ok::<nat, Error>(v as nat),
            Err(e) => decoded(str.spec_bytes()) == Err::<nat, Error>(e),
        },
{
    let bytes = str.as_bytes();
    assert(bytes@.len() == bytes.len());
    decode_bytes(bytes)
}

/// No byte stands at two places of the table, so every digit has one value.
pub proof fn lemma_digits_distinct()
    ensures
        forall|i: int, j: int|
            0 <= i < 83 && 0 <= j < 83 && #[trigger] CHARACTERS[i] == #[trigger] CHARACTERS[j]
                ==> i == j,
{
}

/// The digit at place `d` of the table is a digit of value `d`, and is ASCII.
pub proof fn lemma_digit_at(d: nat)
    requires
        d < 83,
    ensures
        is_digit(CHARACTERS[d as int]),
        digit_value(CHARACTERS[d as int]) == d,
        CHARACTERS[d as int] < 128,
{
}

/// The value of a digit is below the base and leads back to the digit.
pub proof fn lemma_digit_value(byte: u8)
    requires
        is_digit(byte),
    ensures
        digit_value(byte) < 83,
        CHARACTERS[digit_value(byte) as int] == byte,
{
}

/// What `first_invalid` finds: nothing where every byte is a digit, and else
/// the leftmost byte that is none.
pub proof fn lemma_first_invalid(bytes: Seq<u8>)
    ensures
        match first_invalid(bytes) {
            None => forall|i: int| 0 <= i < bytes.len() ==> is_digit(#[trigger] bytes[i]),
            Some(byte) => exists|i: int|
                {
                    &&& 0 <= i < bytes.len()
                    &&& #[trigger] bytes[i] == byte
                    &&& !is_digit(byte)
                    &&& forall|j: int| 0 <= j < i ==> is_digit(#[trigger] bytes[j])
                },
        },
    decreases bytes.len(),
{
    if bytes.len() > 0 {
        let front = bytes.drop_last();
        lemma_first_invalid(front);
        match first_invalid(front) {
            None => {
                assert forall|j: int| 0 <= j < bytes.len() - 1 implies is_digit(
                    #[trigger] bytes[j],
                ) by {
                    assert(bytes[j] == front[j]);
                }
            },
            Some(byte) => {
                let i = choose|i: int|
                    {
                        &&& 0 <= i < front.len()
                        &&& #[trigger] front[i] == byte
                        &&& !is_digit(byte)
                        &&& forall|j: int| 0 <= j < i ==> is_digit(#[trigger] front[j])
                    };
                assert forall|j: int| 0 <= j < i implies is_digit(#[trigger] bytes[j]) by {
                    assert(bytes[j] == front[j]);
                }
            },
        }
    }
}

/// A run with a byte outside the alphabet is refused, and the error names
/// the leftmost such byte.
pub proof fn lemma_invalid_byte_refused(bytes: Seq<u8>, i: int)
    requires
        0 <= i < bytes.len(),
        !is_digit(bytes[i]),
        forall|j: int| 0 <= j < i ==> is_digit(#[trigger] bytes[j]),
    ensures
        decoded(bytes) == Err::<nat, Error>(Error::InvalidBase83(bytes[i])),
{
    lemma_first_invalid(bytes);
}

/// A run of digits is read as a number.
pub proof fn lemma_digits_accepted(bytes: Seq<u8>)
    requires
        forall|j: int| 0 <= j < bytes.len() ==> is_digit(#[trigger] bytes[j]),
    ensures
        decoded(bytes) == Ok::<nat, Error>(value(bytes)),
{
    lemma_first_invalid(bytes);
}

/// Once a prefix holds a byte outside the alphabet, the first such byte of
/// the whole run is the one found in the prefix.
pub proof fn lemma_first_invalid_prefix(bytes: Seq<u8>, n: int)
    requires
        0 <= n <= bytes.len(),
        first_invalid(bytes.take(n)) is Some,
    ensures
        first_invalid(bytes) == first_invalid(bytes.take(n)),
    decreases bytes.len() - n,
{
    if n < bytes.len() {
        assert(bytes.take(n + 1).drop_last() == bytes.take(n));
        lemma_first_invalid_prefix(bytes, n + 1);
    } else {
        assert(bytes.take(n) == bytes);
    }
}

/// In a run made of two parts, the first byte outside the alphabet is that
/// of the first part, or else that of the second.
pub proof fn lemma_first_invalid_concat(a: Seq<u8>, b: Seq<u8>)
    ensures
        first_invalid(a + b) == match first_invalid(a) {
            Some(byte) => Some(byte),
            None => first_invalid(b),
        },
    decreases b.len(),
{
    if b.len() > 0 {
        assert((a + b).drop_last() == a + b.drop_last());
        lemma_first_invalid_concat(a, b.drop_last());
    }
}

/// A numeral of `n` digits denotes a number below `83^n`.
pub proof fn lemma_value_bound(bytes: Seq<u8>)
    requires
        first_invalid(bytes) is None,
    ensures
        value(bytes) < pow(83, bytes.len()),
    decreases bytes.len(),
{
    reveal(pow);
    if bytes.len() > 0 {
        lemma_value_bound(bytes.drop_last());
    }
}

/// The powers of 83 that bound numerals of one, two and four digits, and
/// `83^10`, which bounds those of [`MAX_WIDTH`] digits and fits in a `u64`.
pub proof fn lemma_powers_of_83()
    ensures
        pow(83, 1) == 83,
        pow(83, 2) == 6889,
        pow(83, 4) == 47458321,
        pow(83, 10) == 15516041187205853449,
        pow(83, 10) <= u64::MAX,
{
    reveal(pow);
    assert(pow(83, 0) == 1);
    assert(pow(83, 1) == 83);
    assert(pow(83, 2) == 6889);
    assert(pow(83, 3) == 571787);
    assert(pow(83, 4) == 47458321);
    assert(pow(83, 5) == 3939040643);
    assert(pow(83, 6) == 326940373369);
    assert(pow(83, 7) == 27136050989627);
    assert(pow(83, 8) == 2252292232139041);
    assert(pow(83, 9) == 186940255267540403);
}

/// A run of at most [`MAX_WIDTH`] bytes is read within a `u64`.
pub proof fn lemma_short_numeral_representable(bytes: Seq<u8>)
    requires
        bytes.len() <= MAX_WIDTH,
    ensures
        representable(bytes),
{
    assert forall|n: int|
        0 <= n <= bytes.len() && first_invalid(#[trigger] bytes.take(n)) is None implies value(
        bytes.take(n),
    ) <= u64::MAX by {
        lemma_value_bound(bytes.take(n));
        lemma_powers_of_83();
        lemma_pow_increases(83, n as nat, 10);
    }
}

/// A numeral has as many bytes as its width, and each is a digit below 128.
pub proof fn lemma_numeral_digits(value: nat, width: nat)
    ensures
        numeral(value, width).len() == width,
        forall|k: int| 0 <= k < width ==> is_digit(#[trigger] numeral(value, width)[k]),
        forall|k: int| 0 <= k < width ==> #[trigger] numeral(value, width)[k] < 128,
        first_invalid(numeral(value, width)) is None,
    decreases width,
{
    if width > 0 {
        let upper = numeral(value / 83, (width - 1) as nat);
        lemma_numeral_digits(value / 83, (width - 1) as nat);
        assert(numeral(value, width).drop_last() == upper);
    }
}

/// The digit at place `k` of a numeral, counted from the left, is the digit
/// of value `(n / 83^(width - 1 - k)) % 83`.
pub proof fn lemma_numeral_place(n: nat, width: nat, k: int)
    requires
        0 <= k < width,
    ensures
        pow(83, (width - 1 - k) as nat) > 0,
        numeral(n, width)[k] == CHARACTERS[(n as int / pow(83, (width - 1 - k) as nat)) % 83],
    decreases width,
{
    reveal(pow);
    lemma_numeral_digits(n / 83, (width - 1) as nat);
    if k < width - 1 {
        let below = pow(83, (width - 2 - k) as nat);
        lemma_numeral_place(n / 83, (width - 1) as nat, k);
        lemma_div_denominator(n as int, 83, below);
    }
}

/// A numeral denotes its value without the digits that did not fit: the
/// value modulo `83^width`.
pub proof fn lemma_value_of_numeral(n: nat, width: nat)
    ensures
        pow(83, width) > 0,
        value(numeral(n, width)) == n % (pow(83, width) as nat),
    decreases width,
{
    reveal(pow);
    if width > 0 {
        let upper = numeral(n / 83, (width - 1) as nat);
        lemma_value_of_numeral(n / 83, (width - 1) as nat);
        assert(numeral(n, width).drop_last() == upper);
        lemma_breakdown(n as int, 83, pow(83, (width - 1) as nat));
    }
}

/// Decoding undoes encoding: a number below `83^width` written with `width`
/// digits reads back as itself.
pub proof fn lemma_decode_encode(n: nat, width: nat)
    requires
        n < pow(83, width),
    ensures
        decoded(numeral(n, width)) == Ok::<nat, Error>(n),
{
    lemma_numeral_digits(n, width);
    lemma_value_of_numeral(n, width);
    lemma_small_mod(n, pow(83, width) as nat);
}

/// Encoding undoes decoding: the number that a run of digits denotes,
/// written with as many digits, is that run.
pub proof fn lemma_encode_decode(bytes: Seq<u8>)
    requires
        first_invalid(bytes) is None,
    ensures
        numeral(value(bytes), bytes.len()) == bytes,
    decreases bytes.len(),
{
    if bytes.len() > 0 {
        let front = bytes.drop_last();
        lemma_encode_decode(front);
        assert(value(bytes) / 83 == value(front));
    }
}

} // verus!
