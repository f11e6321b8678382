//! The ways in which writing or reading a hash can fail.

use vstd::prelude::*;

verus! {

/// Why a hash could not be written or read.
#[derive(Debug, Clone, Copy, PartialEq, Eq, Structural)]
pub enum Error {
    /// The hash has fewer than six bytes.
    HashTooShort,
    /// The length of the hash is not the one that its first digit declares.
    LengthMismatch { expected: usize, actual: usize },
    /// The hash holds this byte, which is not a digit of base 83.
    InvalidBase83(u8),
    /// A component count lies outside `1..=9`.
    ComponentsOutOfRange,
}

/// How std's `Debug` shows a character: between single quotes, escaped
/// where it cannot be shown as it is.
pub uninterp spec fn debug_text(c: char) -> Seq<char>;

/// The digits of `n` in base ten, without leading zeros.
pub open spec fn decimal(n: nat) -> Seq<char>
    decreases n,
{
    if n < 10 {
        seq![decimal_digit(n)]
    } else {
        decimal(n / 10).push(decimal_digit(n % 10))
    }
}

/// The character for a digit of base ten.
pub open spec fn decimal_digit(d: nat) -> char
    recommends
        d < 10,
{
    ((48 + d) as u8) as char
}

/// The message for a byte that is no digit, where `shown` shows the byte.
pub open spec fn invalid_base83_text(shown: Seq<char>) -> Seq<char> {
    "Invalid base83 character: "@ + shown
}

impl Error {
    /// The message of the error.
    pub open spec fn message_text(self) -> Seq<char> {
        match self {
            Error::HashTooShort => "blurhash must be at least 6 characters long"@,
            Error::LengthMismatch { expected, actual } => {
                "blurhash length mismatch: length is "@ + decimal(actual as nat)
                    + " but it should be "@ + decimal(expected as nat)
            },
            Error::InvalidBase83(byte) => invalid_base83_text(debug_text(byte as char)),
            Error::ComponentsOutOfRange => "blurhash must have between 1 and 9 components"@,
        }
    }

    /// Says in words what went wrong.
    pub fn message(&self) -> (text: String)
        ensures
            text@ == self.message_text(),
    {
        match self {
            Error::HashTooShort => String::from_str("blurhash must be at least 6 characters long"),
            Error::LengthMismatch { expected, actual } => {
                let mut text = String::from_str("blurhash length mismatch: length is ");
                text.append(to_decimal(*actual).as_str());
                text.append(" but it should be ");
                text.append(to_decimal(*expected).as_str());
                text
            },
            Error::InvalidBase83(byte) => invalid_base83_message(
                debug_char(*byte as char).as_str(),
            ),
            Error::ComponentsOutOfRange => String::from_str(
                "blurhash must have between 1 and 9 components",
            ),
        }
    }
}

/// Writes the message for a byte that is no digit, where `shown` shows the
/// byte.
pub fn invalid_base83_message(shown: &str) -> (text: String)
    ensures
        text@ == invalid_base83_text(shown@),
{
    let mut text = String::from_str("Invalid base83 character: ");
    text.append(shown);
    text
}

/// `<char as Debug>::fmt` of std, reached through `format!`: the text is
/// what `Debug` shows for `c`, whatever that is.
#[verifier::external_body]
fn debug_char(c: char) -> (text: String)
    ensures
        text@ == debug_text(c),
{
    format!("{:?}", c)
}

/// Writes `n` in base ten.
fn to_decimal(n: usize) -> (text: String)
    ensures
        text@ == decimal(n as nat),
{
    let mut low_first: Vec<u8> = Vec::new();
    let mut rest: usize = n;
    let ghost mut tail: Seq<char> = Seq::empty();
    while rest >= 10
        invariant
            decimal(n as nat) == decimal(rest as nat) + tail,
            tail.len() == low_first@.len(),
            forall|k: int|
                0 <= k < tail.len() ==> tail[k] == (#[trigger] low_first@[tail.len() - 1 - k])
                    as char,
        decreases rest,
    {
        let d: u8 = (rest % 10) as u8;
        let ghost before = low_first@;
        low_first.push(48 + d);
        proof {
            let c = decimal_digit((rest % 10) as nat);
            let longer = seq![c] + tail;
            assert(decimal(rest as nat) + tail == decimal((rest / 10) as nat) + longer);
            assert forall|k: int| 0 <= k < longer.len() implies longer[k] == (
            #[trigger] low_first@[longer.len() - 1 - k]) as char by {
                if k > 0 {
                    assert(tail[k - 1] == before[tail.len() - 1 - (k - 1)] as char);
                }
            }
            tail = longer;
        }
        rest = rest / 10;
    }
    let mut text = String::new();
    text.push((48 + rest as u8) as char);
    let mut k: usize = low_first.len();
    while k > 0
        invariant
            k <= low_first@.len() == tail.len(),
            forall|j: int|
                0 <= j < tail.len() ==> tail[j] == (#[trigger] low_first@[tail.len() - 1 - j])
                    as char,
            text@ == decimal(rest as nat) + tail.take(tail.len() - k),
        decreases k,
    {
        k -= 1;
        text.push(low_first[k] as char);
        proof {
            let done = tail.len() - k - 1;
            assert(tail[done] == low_first@[tail.len() - 1 - done] as char);
            assert(tail.take(done + 1) == tail.take(done).push(tail[done]));
        }
    }
    assert(tail.take(tail.len() as int) == tail);
    text
}

} // verus!
