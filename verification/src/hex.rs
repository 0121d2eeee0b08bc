//! Hex: the text of a sequence of bytes, two digits for every byte, and back.

use vstd::prelude::*;
use crate::error::CryptoError;

verus! {

/// The value of an ASCII hex digit, in either case.
pub open spec fn digit_value(c: u8) -> Option<u8> {
    if 0x30 <= c <= 0x39 {
        Some((c - 0x30) as u8)
    } else if 0x61 <= c <= 0x66 {
        Some((c - 0x61 + 10) as u8)
    } else if 0x41 <= c <= 0x46 {
        Some((c - 0x41 + 10) as u8)
    } else {
        None
    }
}

/// The lower-case ASCII hex digit of a value below 16.
pub open spec fn digit_of(v: u8) -> u8 {
    if v < 10 {
        (0x30 + v) as u8
    } else {
        (0x61 + v - 10) as u8
    }
}

/// Hex text: an even number of hex digits.
pub open spec fn is_hex(text: Seq<u8>) -> bool {
    &&& text.len() % 2 == 0
    &&& forall|i: int| 0 <= i < text.len() ==> digit_value(#[trigger] text[i]) is Some
}

/// The bytes that hex text stands for: two digits per byte, the high one first.
pub open spec fn hex_decoded(text: Seq<u8>) -> Seq<u8> {
    Seq::new(
        text.len() / 2,
        |i: int| (16 * digit_value(text[2 * i]).unwrap() + digit_value(text[2 * i + 1]).unwrap()) as u8,
    )
}

/// The lower-case hex text of a sequence of bytes.
pub open spec fn hex_encoded(bytes: Seq<u8>) -> Seq<u8> {
    Seq::new(
        2 * bytes.len(),
        |i: int| if i % 2 == 0 { digit_of(bytes[i / 2] / 16) } else { digit_of(bytes[i / 2] % 16) },
    )
}

/// Hex encoding always yields hex text, and decoding it gives the bytes back.
pub proof fn lemma_hex_round_trip(bytes: Seq<u8>)
    ensures
        is_hex(hex_encoded(bytes)),
        hex_decoded(hex_encoded(bytes)) == bytes,
{
    let text = hex_encoded(bytes);
    assert forall|i: int| 0 <= i < text.len() implies digit_value(#[trigger] text[i]) is Some by {
        let b = bytes[i / 2];
        assert(b / 16 < 16 && b % 16 < 16);
    }
    assert forall|i: int| 0 <= i < bytes.len() implies hex_decoded(text)[i] == bytes[i] by {
        let b = bytes[i];
        assert(text[2 * i] == digit_of(b / 16));
        assert(text[2 * i + 1] == digit_of(b % 16));
        assert(b / 16 < 16 && b % 16 < 16);
        assert(16 * (b / 16) + b % 16 == b);
    }
    assert(hex_decoded(text) =~= bytes);
}

/// The value of one hex digit, or `None` for any other byte.
pub fn digit_to_value(c: u8) -> (v: Option<u8>)
    ensures
        v == digit_value(c),
        v is Some ==> v.unwrap() < 16,
{
    if 0x30 <= c && c <= 0x39 {
        Some(c - 0x30)
    } else if 0x61 <= c && c <= 0x66 {
        Some(c - 0x61 + 10)
    } else if 0x41 <= c && c <= 0x46 {
        Some(c - 0x41 + 10)
    } else {
        None
    }
}

/// The lower-case hex digit of a value below 16.
pub(crate) fn value_to_digit(v: u8) -> (c: u8)
    requires
        v < 16,
    ensures
        c == digit_of(v),
        c < 128,
{
    if v < 10 {
        0x30 + v
    } else {
        0x61 + (v - 10)
    }
}

/// Decodes hex text into bytes; text that is not hex is rejected.
pub fn hex_decode(text: &[u8]) -> (out: Result<Vec<u8>, CryptoError>)
    ensures
        match out {
            Ok(bytes) => is_hex(text@) && bytes@ == hex_decoded(text@),
            Err(e) => !is_hex(text@) && e == CryptoError::MalformedEncoding,
        },
{
    let n: usize = text.len();
    if n % 2 != 0 {
        return Err(CryptoError::MalformedEncoding);
    }
    let mut bytes: Vec<u8> = Vec::new();
    let mut i: usize = 0;
    while i < n
        invariant
            n == text.len(),
            n % 2 == 0,
            i % 2 == 0,
            i <= n,
            bytes.len() == i / 2,
            forall|j: int| 0 <= j < i ==> digit_value(#[trigger] text@[j]) is Some,
            forall|j: int| 0 <= j < bytes.len() ==> bytes@[j] == hex_decoded(text@)[j],
        decreases n - i,
    {
        let hi = digit_to_value(text[i]);
        let lo = digit_to_value(text[i + 1]);
        match (hi, lo) {
            (Some(h), Some(l)) => {
                bytes.push(16 * h + l);
            },
            _ => {
                assert(digit_value(text@[i as int]) is None || digit_value(text@[i + 1]) is None);
                return Err(CryptoError::MalformedEncoding);
            },
        }
        i += 2;
    }
    assert(bytes@ =~= hex_decoded(text@));
    Ok(bytes)
}

/// Encodes bytes as lower-case hex text.
pub fn hex_encode(bytes: &[u8]) -> (text: Vec<u8>)
    ensures
        text@ == hex_encoded(bytes@),
        forall|i: int| 0 <= i < text.len() ==> text@[i] < 128,
{
    let mut text: Vec<u8> = Vec::new();
    let mut i: usize = 0;
    while i < bytes.len()
        invariant
            i <= bytes.len(),
            text.len() == 2 * i,
            forall|j: int| 0 <= j < text.len() ==> text@[j] == hex_encoded(bytes@)[j],
            forall|j: int| 0 <= j < text.len() ==> text@[j] < 128,
        decreases bytes.len() - i,
    {
        let b: u8 = bytes[i];
        text.push(value_to_digit(b / 16));
        text.push(value_to_digit(b % 16));
        i += 1;
    }
    assert(text@ =~= hex_encoded(bytes@));
    text
}

} // verus!
