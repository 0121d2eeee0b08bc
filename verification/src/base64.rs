//! Base64: the text of a sequence of bytes, four symbols for every three
//! bytes, and back.

use vstd::prelude::*;
use crate::error::CryptoError;

verus! {

/// The padding symbol `=`.
pub const PAD: u8 = 0x3d;

/// The base64 symbol of a six-bit value.
pub open spec fn symbol_of(v: u8) -> u8 {
    if v < 26 {
        (0x41 + v) as u8
    } else if v < 52 {
        (0x61 + v - 26) as u8
    } else if v < 62 {
        (0x30 + v - 52) as u8
    } else if v == 62 {
        0x2b
    } else {
        0x2f
    }
}

/// The six-bit value of a base64 symbol, or `None` for any other byte.
pub open spec fn symbol_value(c: u8) -> Option<u8> {
    if 0x41 <= c <= 0x5a {
        Some((c - 0x41) as u8)
    } else if 0x61 <= c <= 0x7a {
        Some((c - 0x61 + 26) as u8)
    } else if 0x30 <= c <= 0x39 {
        Some((c - 0x30 + 52) as u8)
    } else if c == 0x2b {
        Some(62u8)
    } else if c == 0x2f {
        Some(63u8)
    } else {
        None
    }
}

/// The byte at `i`, or zero past the end.
pub open spec fn byte_or_zero(bytes: Seq<u8>, i: int) -> u8 {
    if 0 <= i < bytes.len() {
        bytes[i]
    } else {
        0
    }
}

/// The symbol at position `j` of the base64 text of `bytes`.
pub open spec fn encoded_symbol(bytes: Seq<u8>, j: int) -> u8 {
    let g = j / 4;
    let b0 = byte_or_zero(bytes, 3 * g);
    let b1 = byte_or_zero(bytes, 3 * g + 1);
    let b2 = byte_or_zero(bytes, 3 * g + 2);
    if j % 4 == 0 {
        symbol_of(b0 / 4)
    } else if j % 4 == 1 {
        symbol_of(((b0 % 4) * 16 + b1 / 16) as u8)
    } else if j % 4 == 2 {
        if 3 * g + 1 < bytes.len() {
            symbol_of(((b1 % 16) * 4 + b2 / 64) as u8)
        } else {
            PAD
        }
    } else {
        if 3 * g + 2 < bytes.len() {
            symbol_of(b2 % 64)
        } else {
            PAD
        }
    }
}

/// The base64 text of a sequence of bytes: four symbols for every three
/// bytes, the last group padded with `=`.
pub open spec fn base64_encoded(bytes: Seq<u8>) -> Seq<u8> {
    Seq::new(4 * ((bytes.len() + 2) / 3), |j: int| encoded_symbol(bytes, j))
}

/// How many padding symbols end the text: none, one or two.
pub open spec fn pad_len(text: Seq<u8>) -> int {
    if text.len() >= 1 && text[text.len() - 1] == PAD {
        if text.len() >= 2 && text[text.len() - 2] == PAD {
            2
        } else {
            1
        }
    } else {
        0
    }
}

/// Base64 text: whole groups of four symbols, with padding only at the end.
pub open spec fn is_base64(text: Seq<u8>) -> bool {
    &&& text.len() % 4 == 0
    &&& forall|i: int| 0 <= i < text.len() - pad_len(text) ==> symbol_value(#[trigger] text[i]) is Some
}

/// The value of the symbol at `i`, with zero for padding.
pub open spec fn value_at(text: Seq<u8>, i: int) -> u8 {
    match symbol_value(text[i]) {
        Some(v) => v,
        None => 0,
    }
}

/// The byte at position `i` of what base64 text stands for.
pub open spec fn decoded_byte(text: Seq<u8>, i: int) -> u8 {
    let g = i / 3;
    let v0 = value_at(text, 4 * g);
    let v1 = value_at(text, 4 * g + 1);
    let v2 = value_at(text, 4 * g + 2);
    let v3 = value_at(text, 4 * g + 3);
    if i % 3 == 0 {
        ((v0 % 64) * 4 + v1 / 16) as u8
    } else if i % 3 == 1 {
        ((v1 % 16) * 16 + v2 / 4) as u8
    } else {
        ((v2 % 4) * 64 + v3) as u8
    }
}

/// The bytes that base64 text stands for.
pub open spec fn base64_decoded(text: Seq<u8>) -> Seq<u8> {
    Seq::new((3 * (text.len() / 4) - pad_len(text)) as nat, |i: int| decoded_byte(text, i))
}

/// A symbol's value is the value it was made from.
pub proof fn lemma_symbol_value_of(v: u8)
    requires
        v < 64,
    ensures
        symbol_value(symbol_of(v)) == Some(v),
        symbol_of(v) != PAD,
        symbol_of(v) < 128,
{
}

/// What the symbol at `j` of an encoding is: padding exactly past the last
/// byte's symbols, and otherwise the symbol of a six-bit value.
proof fn lemma_symbol_facts(bytes: Seq<u8>, j: int)
    requires
        0 <= j < base64_encoded(bytes).len(),
    ensures
        base64_encoded(bytes)[j] == encoded_symbol(bytes, j),
        3 * (j / 4) < bytes.len(),
        encoded_symbol(bytes, j) == PAD <==> 3 * (j / 4) + (j % 4) > bytes.len(),
        encoded_symbol(bytes, j) != PAD ==> symbol_value(encoded_symbol(bytes, j)) is Some,
        encoded_symbol(bytes, j) < 128,
        j % 4 == 0 ==> value_at(base64_encoded(bytes), j) == byte_or_zero(bytes, 3 * (j / 4)) / 4,
        j % 4 == 1 ==> value_at(base64_encoded(bytes), j) == (byte_or_zero(bytes, 3 * (j / 4)) % 4)
            * 16 + byte_or_zero(bytes, 3 * (j / 4) + 1) / 16,
        j % 4 == 2 && 3 * (j / 4) + 1 < bytes.len() ==> value_at(base64_encoded(bytes), j) == (
        byte_or_zero(bytes, 3 * (j / 4) + 1) % 16) * 4 + byte_or_zero(bytes, 3 * (j / 4) + 2) / 64,
        j % 4 == 3 && 3 * (j / 4) + 2 < bytes.len() ==> value_at(base64_encoded(bytes), j)
            == byte_or_zero(bytes, 3 * (j / 4) + 2) % 64,
{
    let g = j / 4;
    let b0 = byte_or_zero(bytes, 3 * g);
    let b1 = byte_or_zero(bytes, 3 * g + 1);
    let b2 = byte_or_zero(bytes, 3 * g + 2);
    assert(3 * g < bytes.len());
    lemma_symbol_value_of(b0 / 4);
    lemma_symbol_value_of(((b0 % 4) * 16 + b1 / 16) as u8);
    lemma_symbol_value_of(((b1 % 16) * 4 + b2 / 64) as u8);
    lemma_symbol_value_of(b2 % 64);
}

/// An encoding ends in as many padding symbols as its last group lacks bytes.
proof fn lemma_encoded_pad_len(bytes: Seq<u8>)
    ensures
        pad_len(base64_encoded(bytes)) == 3 * (base64_encoded(bytes).len() / 4) - bytes.len(),
{
    let text = base64_encoded(bytes);
    let n = bytes.len() as int;
    let m = text.len() as int;
    let q = (n + 2) / 3;
    assert(m == 4 * q);
    if m >= 1 {
        assert((m - 1) / 4 == q - 1 && (m - 1) % 4 == 3);
        assert((m - 2) / 4 == q - 1 && (m - 2) % 4 == 2);
        lemma_symbol_facts(bytes, m - 1);
        lemma_symbol_facts(bytes, m - 2);
    }
}

/// Decoding an encoding gives back the byte at each position.
proof fn lemma_decoded_byte(bytes: Seq<u8>, i: int)
    requires
        0 <= i < bytes.len(),
    ensures
        decoded_byte(base64_encoded(bytes), i) == bytes[i],
{
    let text = base64_encoded(bytes);
    let g = i / 3;
    assert(4 * g + 3 < text.len());
    assert((4 * g) / 4 == g && (4 * g) % 4 == 0);
    assert((4 * g + 1) / 4 == g && (4 * g + 1) % 4 == 1);
    assert((4 * g + 2) / 4 == g && (4 * g + 2) % 4 == 2);
    assert((4 * g + 3) / 4 == g && (4 * g + 3) % 4 == 3);
    lemma_symbol_facts(bytes, 4 * g);
    lemma_symbol_facts(bytes, 4 * g + 1);
    lemma_symbol_facts(bytes, 4 * g + 2);
    lemma_symbol_facts(bytes, 4 * g + 3);
    let b0 = byte_or_zero(bytes, 3 * g);
    let b1 = byte_or_zero(bytes, 3 * g + 1);
    let b2 = byte_or_zero(bytes, 3 * g + 2);
    let v0 = value_at(text, 4 * g);
    let v1 = value_at(text, 4 * g + 1);
    let v2 = value_at(text, 4 * g + 2);
    let v3 = value_at(text, 4 * g + 3);
    assert(v0 == b0 / 4);
    assert(v1 == (b0 % 4) * 16 + b1 / 16);
    if i % 3 == 0 {
        assert(((b0 / 4) % 64) * 4 + ((b0 % 4) * 16 + b1 / 16) / 16 == b0);
    } else if i % 3 == 1 {
        assert(v2 == (b1 % 16) * 4 + b2 / 64);
        assert((((b0 % 4) * 16 + b1 / 16) % 16) * 16 + ((b1 % 16) * 4 + b2 / 64) / 4 == b1);
    } else {
        assert(v2 == (b1 % 16) * 4 + b2 / 64);
        assert(v3 == b2 % 64);
        assert((((b1 % 16) * 4 + b2 / 64) % 4) * 64 + b2 % 64 == b2);
    }
}

/// Base64 encoding always yields base64 text, and decoding it gives the bytes back.
pub proof fn lemma_base64_round_trip(bytes: Seq<u8>)
    ensures
        is_base64(base64_encoded(bytes)),
        base64_decoded(base64_encoded(bytes)) == bytes,
{
    let text = base64_encoded(bytes);
    lemma_encoded_pad_len(bytes);
    assert forall|i: int| 0 <= i < text.len() - pad_len(text) implies symbol_value(
        #[trigger] text[i],
    ) is Some by {
        lemma_symbol_facts(bytes, i);
    }
    assert forall|i: int| 0 <= i < bytes.len() implies decoded_byte(text, i) == bytes[i] by {
        lemma_decoded_byte(bytes, i);
    }
    assert(base64_decoded(text) =~= bytes);
}

/// The base64 symbol of a six-bit value.
pub(crate) fn value_to_symbol(v: u8) -> (c: u8)
    requires
        v < 64,
    ensures
        c == symbol_of(v),
        c < 128,
{
    if v < 26 {
        0x41 + v
    } else if v < 52 {
        0x61 + (v - 26)
    } else if v < 62 {
        0x30 + (v - 52)
    } else if v == 62 {
        0x2b
    } else {
        0x2f
    }
}

/// The six-bit value of a base64 symbol, or `None` for any other byte.
pub fn symbol_to_value(c: u8) -> (v: Option<u8>)
    ensures
        v == symbol_value(c),
        v is Some ==> v.unwrap() < 64,
{
    if 0x41 <= c && c <= 0x5a {
        Some(c - 0x41)
    } else if 0x61 <= c && c <= 0x7a {
        Some(c - 0x61 + 26)
    } else if 0x30 <= c && c <= 0x39 {
        Some(c - 0x30 + 52)
    } else if c == 0x2b {
        Some(62)
    } else if c == 0x2f {
        Some(63)
    } else {
        None
    }
}

/// Encodes bytes as base64 text.
pub fn base64_encode(bytes: &[u8]) -> (text: Vec<u8>)
    ensures
        text@ == base64_encoded(bytes@),
        forall|i: int| 0 <= i < text.len() ==> text@[i] < 128,
{
    let n: usize = bytes.len();
    let groups: usize = n / 3 + (if n % 3 != 0 { 1 } else { 0 });
    let mut text: Vec<u8> = Vec::new();
    let mut g: usize = 0;
    while g < groups
        invariant
            n == bytes.len(),
            groups == (n + 2) / 3,
            g <= groups,
            text.len() == 4 * g,
            forall|j: int| 0 <= j < text.len() ==> text@[j] == encoded_symbol(bytes@, j),
            forall|j: int| 0 <= j < text.len() ==> text@[j] < 128,
        decreases groups - g,
    {
        let base: usize = 3 * g;
        let b0: u8 = bytes[base];
        let b1: u8 = if n - base > 1 { bytes[base + 1] } else { 0 };
        let b2: u8 = if n - base > 2 { bytes[base + 2] } else { 0 };
        proof {
            assert((4 * g) / 4 == g && (4 * g) % 4 == 0);
            assert((4 * g + 1) / 4 == g && (4 * g + 1) % 4 == 1);
            assert((4 * g + 2) / 4 == g && (4 * g + 2) % 4 == 2);
            assert((4 * g + 3) / 4 == g && (4 * g + 3) % 4 == 3);
            assert(b0 == byte_or_zero(bytes@, 3 * g));
            assert(b1 == byte_or_zero(bytes@, 3 * g + 1));
            assert(b2 == byte_or_zero(bytes@, 3 * g + 2));
        }
        text.push(value_to_symbol(b0 / 4));
        text.push(value_to_symbol((b0 % 4) * 16 + b1 / 16));
        if n - base > 1 {
            text.push(value_to_symbol((b1 % 16) * 4 + b2 / 64));
        } else {
            text.push(PAD);
        }
        if n - base > 2 {
            text.push(value_to_symbol(b2 % 64));
        } else {
            text.push(PAD);
        }
        g += 1;
    }
    assert(text@ =~= base64_encoded(bytes@));
    text
}

/// Decodes base64 text into bytes; text that is not base64 is rejected.
pub fn base64_decode(text: &[u8]) -> (out: Result<Vec<u8>, CryptoError>)
    ensures
        match out {
            Ok(bytes) => is_base64(text@) && bytes@ == base64_decoded(text@),
            Err(e) => !is_base64(text@) && e == CryptoError::MalformedEncoding,
        },
{
    let n: usize = text.len();
    if n % 4 != 0 {
        return Err(CryptoError::MalformedEncoding);
    }
    let mut bytes: Vec<u8> = Vec::new();
    if n == 0 {
        assert(bytes@ =~= base64_decoded(text@));
        return Ok(bytes);
    }
    let pad: usize = if text[n - 1] == PAD {
        if text[n - 2] == PAD {
            2
        } else {
            1
        }
    } else {
        0
    };
    let groups: usize = n / 4;
    let mut g: usize = 0;
    while g < groups
        invariant
            n == text.len(),
            n == 4 * groups,
            groups >= 1,
            pad == pad_len(text@),
            g <= groups,
            bytes.len() == 3 * g,
            forall|j: int| 0 <= j < 4 * g && j < n - pad ==> symbol_value(#[trigger] text@[j]) is Some,
            forall|j: int| 0 <= j < bytes.len() ==> bytes@[j] == decoded_byte(text@, j),
        decreases groups - g,
    {
        let base: usize = 4 * g;
        let s0 = symbol_to_value(text[base]);
        let s1 = symbol_to_value(text[base + 1]);
        let s2 = symbol_to_value(text[base + 2]);
        let s3 = symbol_to_value(text[base + 3]);
        if s0.is_none() || s1.is_none() || (s2.is_none() && base + 2 < n - pad) || (s3.is_none()
            && base + 3 < n - pad) {
            return Err(CryptoError::MalformedEncoding);
        }
        let v0: u8 = s0.unwrap();
        let v1: u8 = s1.unwrap();
        let v2: u8 = match s2 {
            Some(v) => v,
            None => 0,
        };
        let v3: u8 = match s3 {
            Some(v) => v,
            None => 0,
        };
        proof {
            assert((3 * g) / 3 == g && (3 * g) % 3 == 0);
            assert((3 * g + 1) / 3 == g && (3 * g + 1) % 3 == 1);
            assert((3 * g + 2) / 3 == g && (3 * g + 2) % 3 == 2);
            assert(v0 == value_at(text@, 4 * g));
            assert(v1 == value_at(text@, 4 * g + 1));
            assert(v2 == value_at(text@, 4 * g + 2));
            assert(v3 == value_at(text@, 4 * g + 3));
        }
        bytes.push((v0 % 64) * 4 + v1 / 16);
        bytes.push((v1 % 16) * 16 + v2 / 4);
        bytes.push((v2 % 4) * 64 + v3);
        g += 1;
    }
    bytes.truncate(3 * groups - pad);
    assert(bytes@ =~= base64_decoded(text@));
    Ok(bytes)
}

} // verus!
