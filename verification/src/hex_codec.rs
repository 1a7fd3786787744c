//! Hexadecimal text of a byte string, and back.
//!
//! The text is judged byte by byte: a string that holds anything but ASCII
//! hexadecimal digits is refused at the first byte that is none.

use vstd::prelude::*;
use vstd::string::*;

verus! {

/// Why a text is not the hexadecimal form of any byte string.
#[derive(Clone, Copy, Debug, PartialEq, Eq, Structural)]
pub enum DecodeError {
    /// The text has an odd number of bytes.
    OddLength,
    /// The byte at `index`, read as the character `c`, is no hexadecimal digit.
    InvalidHexCharacter { c: char, index: usize },
}

/// What the ASCII byte `b` counts for as a hexadecimal digit, in either case.
pub open spec fn digit_value(b: u8) -> Option<u8> {
    if 0x30 <= b <= 0x39 {
        Some((b - 0x30) as u8)
    } else if 0x61 <= b <= 0x66 {
        Some((b - 0x61 + 10) as u8)
    } else if 0x41 <= b <= 0x46 {
        Some((b - 0x41 + 10) as u8)
    } else {
        None
    }
}

/// The lower-case ASCII digit of a value below sixteen.
pub open spec fn lower_digit(v: u8) -> u8 {
    if v < 10 {
        (0x30 + v) as u8
    } else {
        (0x61 + (v - 10)) as u8
    }
}

/// The digit at place `i` of the text of `data`: high half first.
pub open spec fn encoded_byte(data: Seq<u8>, i: int) -> u8 {
    if i % 2 == 0 {
        lower_digit(data[i / 2] / 16)
    } else {
        lower_digit(data[i / 2] % 16)
    }
}

/// The lower-case hexadecimal text of `data`, two digits for each byte.
pub open spec fn encoded(data: Seq<u8>) -> Seq<char> {
    Seq::new(2 * data.len(), |i: int| encoded_byte(data, i) as char)
}

/// Every byte of `text` is a hexadecimal digit and their number is even.
pub open spec fn is_hex(text: Seq<u8>) -> bool {
    &&& text.len() % 2 == 0
    &&& forall|i: int| 0 <= i < text.len() ==> (#[trigger] digit_value(text[i])) is Some
}

/// The byte that the two digits at `2 * i` and `2 * i + 1` of `text` spell.
pub open spec fn pair_value(text: Seq<u8>, i: int) -> u8 {
    (16 * digit_value(text[2 * i]).unwrap() + digit_value(text[2 * i + 1]).unwrap()) as u8
}

/// The bytes that a hexadecimal text spells.
pub open spec fn decoded(text: Seq<u8>) -> Seq<u8> {
    Seq::new(text.len() / 2, |i: int| pair_value(text, i))
}

/// How many hexadecimal digits `text` begins with: the place of its first
/// byte that is no digit, or its length where every byte is one.
pub open spec fn leading_digits(text: Seq<u8>) -> int
    decreases text.len(),
{
    if text.len() == 0 || digit_value(text[0]) is None {
        0
    } else {
        1 + leading_digits(text.drop_first())
    }
}

/// What reading `text` as hexadecimal gives: the bytes it spells, or why it
/// spells none. An odd length is told before a byte that is no digit.
pub open spec fn read(text: Seq<u8>) -> Result<Seq<u8>, DecodeError> {
    let index = leading_digits(text);
    if text.len() % 2 != 0 {
        Err(DecodeError::OddLength)
    } else if index < text.len() {
        Err(DecodeError::InvalidHexCharacter { c: text[index] as char, index: index as usize })
    } else {
        Ok(decoded(text))
    }
}

/// `text` begins with `count` digits and no more.
pub proof fn lemma_leading_digits(text: Seq<u8>, count: int)
    requires
        0 <= count <= text.len(),
        forall|j: int| 0 <= j < count ==> (#[trigger] digit_value(text[j])) is Some,
        count < text.len() ==> digit_value(text[count]) is None,
    ensures
        leading_digits(text) == count,
    decreases count,
{
    if count > 0 {
        let rest = text.drop_first();
        assert(digit_value(text[0]) is Some);
        assert forall|j: int| 0 <= j < count - 1 implies (#[trigger] digit_value(rest[j])) is Some by {
            assert(rest[j] == text[j + 1]);
        }
        lemma_leading_digits(rest, count - 1);
    }
}

/// `hex::FromHexError`, the fault that `hex::decode` tells. It is handed
/// through and never looked into.
#[verifier::external_type_specification]
#[verifier::external_body]
pub struct ExFromHexError(hex::FromHexError);

/// `hex::encode`: two lower-case digits for each byte, the high half first.
#[verifier::external_body]
fn hex_encode(data: &[u8]) -> (text: String)
    ensures
        text@ == encoded(data@),
{
    hex::encode(data)
}

/// `hex::decode`: succeeds on an even number of hexadecimal digits, of either
/// case, and on nothing else, and then gives the byte that each pair spells.
#[verifier::external_body]
fn hex_decode(text: &str) -> (r: Result<Vec<u8>, hex::FromHexError>)
    ensures
        r is Ok <==> is_hex(text.spec_bytes()),
        r is Ok ==> r.unwrap()@ == decoded(text.spec_bytes()),
{
    hex::decode(text)
}

/// Whether `b` is a hexadecimal digit.
fn is_digit(b: u8) -> (r: bool)
    ensures
        r == digit_value(b) is Some,
{
    (0x30 <= b && b <= 0x39) || (0x61 <= b && b <= 0x66) || (0x41 <= b && b <= 0x46)
}

/// The place of the first byte of `text` that is no digit.
fn first_bad_digit(text: &[u8]) -> (index: usize)
    requires
        exists|i: int| 0 <= i < text@.len() && (#[trigger] digit_value(text@[i])) is None,
    ensures
        index < text@.len(),
        index == leading_digits(text@),
{
    let mut i: usize = 0;
    loop
        invariant
            i < text@.len(),
            forall|j: int| 0 <= j < i ==> (#[trigger] digit_value(text@[j])) is Some,
            exists|k: int| 0 <= k < text@.len() && (#[trigger] digit_value(text@[k])) is None,
        decreases text@.len() - i,
    {
        if !is_digit(text[i]) {
            proof {
                lemma_leading_digits(text@, i as int);
            }
            return i;
        }
        i += 1;
    }
}

/// The lower-case hexadecimal text of `data`.
pub fn encode(data: &[u8]) -> (text: String)
    ensures
        text@ == encoded(data@),
{
    hex_encode(data)
}

/// Reads `text` as hexadecimal digits, in either case.
///
/// Gives the bytes where `text` is an even number of digits, and otherwise
/// the fault: the odd length, or else the first byte that is no digit.
pub fn decode(text: &str) -> (r: Result<Vec<u8>, DecodeError>)
    ensures
        match r {
            Ok(data) => read(text.spec_bytes()) == Ok::<Seq<u8>, DecodeError>(data@),
            Err(e) => read(text.spec_bytes()) == Err::<Seq<u8>, DecodeError>(e),
        },
{
    let bytes = text.as_bytes();
    match hex_decode(text) {
        Ok(data) => {
            proof {
                lemma_leading_digits(bytes@, bytes@.len() as int);
            }
            Ok(data)
        },
        Err(_) => {
            if bytes.len() % 2 != 0 {
                Err(DecodeError::OddLength)
            } else {
                let index = first_bad_digit(bytes);
                Err(DecodeError::InvalidHexCharacter { c: bytes[index] as char, index })
            }
        },
    }
}

} // verus!
