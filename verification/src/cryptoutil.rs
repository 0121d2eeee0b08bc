//! Conversions between hex, base64 and ASCII text, XOR of hex texts, and
//! frequency tables of texts. Every function takes and gives text; the
//! work is done on the bytes that the text stands for.

use std::collections::HashMap;
use vstd::prelude::*;
use vstd::std_specs::hash::*;
use vstd::utf8::is_ascii_chars;
use crate::base64::{base64_decode, base64_decoded, base64_encode, base64_encoded, is_base64};
use crate::error::CryptoError;
use crate::frequency::{byte_counts, count_of, is_count_table, top_bytes, top_frequent};
use crate::hex::{hex_decode, hex_decoded, hex_encode, hex_encoded, is_hex};
use crate::text::{ascii_bytes, bytes_of, chars_of, string_of_bytes};
use crate::xor::{fixed_xor, xor_pairs};

verus! {

broadcast use vstd::std_specs::hash::group_hash_axioms;

/// Whether a text is hex: ASCII, and an even number of hex digits.
pub open spec fn is_hex_text(text: Seq<char>) -> bool {
    is_ascii_chars(text) && is_hex(bytes_of(text))
}

/// Whether a text is base64: ASCII, whole groups of four symbols, padded
/// only at the end.
pub open spec fn is_base64_text(text: Seq<char>) -> bool {
    is_ascii_chars(text) && is_base64(bytes_of(text))
}

/// The bytes that a hex text stands for.
pub open spec fn hex_text_bytes(text: Seq<char>) -> Seq<u8> {
    hex_decoded(bytes_of(text))
}

/// Whether a table maps exactly the bytes that occur in `bytes`, each to
/// the number of times it occurs.
pub open spec fn is_frequency_table(table: Map<u8, usize>, bytes: Seq<u8>) -> bool {
    forall|b: u8|
        {
            &&& table.contains_key(b) <==> #[trigger] count_of(bytes, b) > 0
            &&& table.contains_key(b) ==> table[b] == count_of(bytes, b)
        }
}

/// The bytes of a hex text; a text that is not hex is rejected.
pub fn hex_to_bytes(text: &str) -> (out: Result<Vec<u8>, CryptoError>)
    ensures
        match out {
            Ok(bytes) => is_hex_text(text@) && bytes@ == hex_text_bytes(text@),
            Err(e) => !is_hex_text(text@) && e == CryptoError::MalformedEncoding,
        },
{
    match ascii_bytes(text) {
        Some(digits) => hex_decode(digits.as_slice()),
        None => Err(CryptoError::MalformedEncoding),
    }
}

/// The bytes of a base64 text; a text that is not base64 is rejected.
pub fn base64_to_bytes(text: &str) -> (out: Result<Vec<u8>, CryptoError>)
    ensures
        match out {
            Ok(bytes) => is_base64_text(text@) && bytes@ == base64_decoded(bytes_of(text@)),
            Err(e) => !is_base64_text(text@) && e == CryptoError::MalformedEncoding,
        },
{
    match ascii_bytes(text) {
        Some(symbols) => base64_decode(symbols.as_slice()),
        None => Err(CryptoError::MalformedEncoding),
    }
}

/// The lower-case hex text of a sequence of bytes.
pub fn bytes_to_hex(bytes: &[u8]) -> (text: String)
    ensures
        text@ == chars_of(hex_encoded(bytes@)),
{
    let digits = hex_encode(bytes);
    string_of_bytes(digits.as_slice())
}

/// The base64 text of a sequence of bytes.
pub fn bytes_to_base64(bytes: &[u8]) -> (text: String)
    ensures
        text@ == chars_of(base64_encoded(bytes@)),
{
    let symbols = base64_encode(bytes);
    string_of_bytes(symbols.as_slice())
}

/// Turns hex text into the base64 text of the same bytes. Text that is not
/// hex is rejected.
pub fn hex_to_base64(hex_str: &str) -> (out: Result<String, CryptoError>)
    ensures
        match out {
            Ok(text) => is_hex_text(hex_str@) && text@ == chars_of(
                base64_encoded(hex_text_bytes(hex_str@)),
            ),
            Err(e) => !is_hex_text(hex_str@) && e == CryptoError::MalformedEncoding,
        },
{
    match hex_to_bytes(hex_str) {
        Ok(bytes) => Ok(bytes_to_base64(bytes.as_slice())),
        Err(e) => Err(e),
    }
}

/// Turns base64 text into the lower-case hex text of the same bytes. Text
/// that is not base64 is rejected.
pub fn base64_to_hex(b64_str: &str) -> (out: Result<String, CryptoError>)
    ensures
        match out {
            Ok(text) => is_base64_text(b64_str@) && text@ == chars_of(
                hex_encoded(base64_decoded(bytes_of(b64_str@))),
            ),
            Err(e) => !is_base64_text(b64_str@) && e == CryptoError::MalformedEncoding,
        },
{
    match base64_to_bytes(b64_str) {
        Ok(bytes) => Ok(bytes_to_hex(bytes.as_slice())),
        Err(e) => Err(e),
    }
}

/// XORs the bytes of two hex texts and gives the result as hex text. A text
/// that is not hex is rejected as malformed, and two texts that stand for
/// different numbers of bytes as invalid.
pub fn hex_to_hex_xor(buf1: &str, buf2: &str) -> (out: Result<String, CryptoError>)
    ensures
        match out {
            Ok(text) => {
                &&& is_hex_text(buf1@)
                &&& is_hex_text(buf2@)
                &&& buf1@.len() == buf2@.len()
                &&& text@ == chars_of(
                    hex_encoded(xor_pairs(hex_text_bytes(buf1@), hex_text_bytes(buf2@))),
                )
            },
            Err(e) => if is_hex_text(buf1@) && is_hex_text(buf2@) {
                buf1@.len() != buf2@.len() && e == CryptoError::InvalidInput
            } else {
                e == CryptoError::MalformedEncoding
            },
        },
{
    let a = match hex_to_bytes(buf1) {
        Ok(a) => a,
        Err(e) => {
            return Err(e);
        },
    };
    let b = match hex_to_bytes(buf2) {
        Ok(b) => b,
        Err(e) => {
            return Err(e);
        },
    };
    match fixed_xor(a.as_slice(), b.as_slice()) {
        Ok(bytes) => Ok(bytes_to_hex(bytes.as_slice())),
        Err(e) => Err(e),
    }
}

/// Turns hex text into the text whose characters have the values of its
/// bytes. Text that is not hex is rejected.
pub fn hex_to_ascii(s: &str) -> (out: Result<String, CryptoError>)
    ensures
        match out {
            Ok(text) => is_hex_text(s@) && text@ == chars_of(hex_text_bytes(s@)),
            Err(e) => !is_hex_text(s@) && e == CryptoError::MalformedEncoding,
        },
{
    match hex_to_bytes(s) {
        Ok(bytes) => Ok(string_of_bytes(bytes.as_slice())),
        Err(e) => Err(e),
    }
}

/// Turns ASCII text into the lower-case hex text of its bytes. Text with a
/// character outside ASCII is rejected.
pub fn ascii_to_hex(s: &str) -> (out: Result<String, CryptoError>)
    ensures
        match out {
            Ok(text) => is_ascii_chars(s@) && text@ == chars_of(hex_encoded(bytes_of(s@))),
            Err(e) => !is_ascii_chars(s@) && e == CryptoError::MalformedEncoding,
        },
{
    match ascii_bytes(s) {
        Some(bytes) => Ok(bytes_to_hex(bytes.as_slice())),
        None => Err(CryptoError::MalformedEncoding),
    }
}

/// The table that maps every byte that occurs to the number of times it does.
pub fn freq_analysis(bytes: &[u8]) -> (table: HashMap<u8, usize>)
    ensures
        is_frequency_table(table@, bytes@),
{
    let counts = byte_counts(bytes);
    let mut table: HashMap<u8, usize> = HashMap::new();
    let mut v: usize = 0;
    while v < 256
        invariant
            v <= 256,
            is_count_table(counts@, bytes@),
            forall|b: u8|
                {
                    &&& table@.contains_key(b) <==> (#[trigger] count_of(bytes@, b) > 0 && b < v)
                    &&& table@.contains_key(b) ==> table@[b] == count_of(bytes@, b)
                },
        decreases 256 - v,
    {
        let b: u8 = v as u8;
        let n: usize = counts[v];
        assert(n == count_of(bytes@, b));
        if n > 0 {
            table.insert(b, n);
        }
        v += 1;
    }
    table
}

/// Counts how often each byte of a hex text occurs: the table maps every
/// byte that occurs to the number of times it does. Text that is not hex is
/// rejected.
pub fn hex_freq_analysis(s: &str) -> (out: Result<HashMap<u8, usize>, CryptoError>)
    ensures
        match out {
            Ok(table) => is_hex_text(s@) && is_frequency_table(table@, hex_text_bytes(s@)),
            Err(e) => !is_hex_text(s@) && e == CryptoError::MalformedEncoding,
        },
{
    match hex_to_bytes(s) {
        Ok(bytes) => Ok(freq_analysis(bytes.as_slice())),
        Err(e) => Err(e),
    }
}

/// Counts how often each character of an ASCII text occurs: the table maps
/// the byte of every character that occurs to the number of times it does.
/// Text with a character outside ASCII is rejected.
pub fn ascii_freq_analysis(s: &str) -> (out: Result<HashMap<u8, usize>, CryptoError>)
    ensures
        match out {
            Ok(table) => is_ascii_chars(s@) && is_frequency_table(table@, bytes_of(s@)),
            Err(e) => !is_ascii_chars(s@) && e == CryptoError::MalformedEncoding,
        },
{
    match ascii_bytes(s) {
        Some(bytes) => Ok(freq_analysis(bytes.as_slice())),
        None => Err(CryptoError::MalformedEncoding),
    }
}

/// The `n` most frequent bytes of a hex text, most frequent first, the
/// smaller byte first among equally frequent ones. Text that is not hex is
/// rejected.
pub fn hex_top_freq(s: &str, n: usize) -> (out: Result<Vec<u8>, CryptoError>)
    ensures
        match out {
            Ok(top) => is_hex_text(s@) && top@ == top_bytes(hex_text_bytes(s@), n as nat),
            Err(e) => !is_hex_text(s@) && e == CryptoError::MalformedEncoding,
        },
{
    match hex_to_bytes(s) {
        Ok(bytes) => Ok(top_frequent(bytes.as_slice(), n)),
        Err(e) => Err(e),
    }
}

/// The `n` most frequent characters of an ASCII text, most frequent first,
/// the smaller character first among equally frequent ones. Text with a
/// character outside ASCII is rejected.
pub fn ascii_top_freq(s: &str, n: usize) -> (out: Result<Vec<char>, CryptoError>)
    ensures
        match out {
            Ok(top) => is_ascii_chars(s@) && top@ == chars_of(top_bytes(bytes_of(s@), n as nat)),
            Err(e) => !is_ascii_chars(s@) && e == CryptoError::MalformedEncoding,
        },
{
    match ascii_bytes(s) {
        Some(bytes) => {
            let ranking = top_frequent(bytes.as_slice(), n);
            let mut top: Vec<char> = Vec::new();
            let mut i: usize = 0;
            while i < ranking.len()
                invariant
                    i <= ranking.len(),
                    top.len() == i,
                    forall|j: int| 0 <= j < i ==> top@[j] == ranking@[j] as char,
                decreases ranking.len() - i,
            {
                top.push(ranking[i] as char);
                i += 1;
            }
            assert(top@ =~= chars_of(ranking@));
            Ok(top)
        },
        None => Err(CryptoError::MalformedEncoding),
    }
}

} // verus!
