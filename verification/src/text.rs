//! Strings and the bytes of their characters.

use vstd::prelude::*;
use vstd::string::*;
use vstd::utf8::is_ascii_chars;

verus! {

/// The characters that a sequence of bytes stands for, one character per byte.
pub open spec fn chars_of(bytes: Seq<u8>) -> Seq<char> {
    Seq::new(bytes.len(), |i: int| bytes[i] as char)
}

/// The bytes of a sequence of characters, one byte per character.
pub open spec fn bytes_of(chars: Seq<char>) -> Seq<u8> {
    Seq::new(chars.len(), |i: int| chars[i] as u8)
}

/// Appends one character to a string.
///
/// Trusted: `String::push` adds the character at the end and leaves the rest as it was.
#[verifier::external_body]
fn push_char(s: &mut String, c: char)
    ensures
        final(s)@ == old(s)@.push(c),
{
    s.push(c)
}

/// The string that holds one character per byte.
pub fn string_of_bytes(bytes: &[u8]) -> (out: String)
    ensures
        out@ == chars_of(bytes@),
{
    let mut out = String::new();
    let mut i: usize = 0;
    while i < bytes.len()
        invariant
            i <= bytes.len(),
            out@ == chars_of(bytes@.take(i as int)),
        decreases bytes.len() - i,
    {
        push_char(&mut out, bytes[i] as char);
        i += 1;
        assert(out@ =~= chars_of(bytes@.take(i as int)));
    }
    assert(bytes@.take(i as int) =~= bytes@);
    out
}

/// The bytes of an ASCII string, or `None` where a character is outside ASCII.
pub fn ascii_bytes(s: &str) -> (out: Option<Vec<u8>>)
    ensures
        match out {
            Some(v) => is_ascii_chars(s@) && v@ == bytes_of(s@),
            None => !is_ascii_chars(s@),
        },
{
    if s.is_ascii() {
        let v = s.as_bytes_vec();
        proof {
            is_ascii_spec_bytes(s);
        }
        Some(v)
    } else {
        None
    }
}

/// The value of binary digit `i` of a byte, counted from the highest: 128
/// for digit 0, 1 for digit 7.
pub open spec fn place_value(i: int) -> int {
    if i == 0 {
        128
    } else if i == 1 {
        64
    } else if i == 2 {
        32
    } else if i == 3 {
        16
    } else if i == 4 {
        8
    } else if i == 5 {
        4
    } else if i == 6 {
        2
    } else if i == 7 {
        1
    } else {
        0
    }
}

/// The eight binary digits of a byte, the highest first.
pub open spec fn binary_digits(x: u8) -> Seq<char> {
    Seq::new(
        8,
        |i: int| if (x as int / place_value(i)) % 2 == 1 {
            '1'
        } else {
            '0'
        },
    )
}

/// Writes a byte as eight binary digits, the highest first.
pub fn bin_string(x: u8) -> (out: String)
    ensures
        out@ == binary_digits(x),
{
    let mut out = String::new();
    let mut place: u8 = 128;
    let mut i: usize = 0;
    while i < 8
        invariant
            i <= 8,
            place == place_value(i as int),
            out@.len() == i,
            forall|j: int| 0 <= j < i ==> out@[j] == binary_digits(x)[j],
        decreases 8 - i,
    {
        if (x / place) % 2 == 1 {
            push_char(&mut out, '1');
        } else {
            push_char(&mut out, '0');
        }
        place = place / 2;
        i += 1;
    }
    assert(out@ =~= binary_digits(x));
    out
}

} // verus!
