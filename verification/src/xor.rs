//! XOR of buffers: byte by byte, with one byte, and with a key repeated
//! along the text.

use vstd::prelude::*;
use crate::error::CryptoError;

verus! {

/// The byte-wise XOR of two buffers of one length.
pub open spec fn xor_pairs(a: Seq<u8>, b: Seq<u8>) -> Seq<u8>
    recommends
        a.len() == b.len(),
{
    Seq::new(a.len(), |i: int| a[i] ^ b[i])
}

/// Every byte of `data` XORed with the one byte `key`.
pub open spec fn xor_single(data: Seq<u8>, key: u8) -> Seq<u8> {
    Seq::new(data.len(), |i: int| data[i] ^ key)
}

/// `data` XORed with `key` repeated cyclically along its whole length.
pub open spec fn xor_repeating(data: Seq<u8>, key: Seq<u8>) -> Seq<u8>
    recommends
        key.len() > 0,
{
    Seq::new(data.len(), |i: int| data[i] ^ key[i % (key.len() as int)])
}

/// XOR with one byte twice gives the first byte back.
pub proof fn lemma_xor_twice(a: u8, k: u8)
    ensures
        (a ^ k) ^ k == a,
{
    assert((a ^ k) ^ k == a) by (bit_vector);
}

/// Repeating-key XOR undoes itself: decrypting what was encrypted under a
/// non-empty key gives the plaintext back.
pub proof fn lemma_round_trip(plaintext: Seq<u8>, key: Seq<u8>)
    requires
        key.len() > 0,
    ensures
        xor_repeating(xor_repeating(plaintext, key), key) == plaintext,
{
    let once = xor_repeating(plaintext, key);
    assert forall|i: int| 0 <= i < plaintext.len() implies xor_repeating(once, key)[i]
        == plaintext[i] by {
        lemma_xor_twice(plaintext[i], key[i % (key.len() as int)]);
    }
    assert(xor_repeating(once, key) =~= plaintext);
}

/// XORs two buffers byte by byte; buffers of different lengths are rejected.
pub fn fixed_xor(a: &[u8], b: &[u8]) -> (out: Result<Vec<u8>, CryptoError>)
    ensures
        match out {
            Ok(bytes) => a@.len() == b@.len() && bytes@ == xor_pairs(a@, b@),
            Err(e) => a@.len() != b@.len() && e == CryptoError::InvalidInput,
        },
{
    if a.len() != b.len() {
        return Err(CryptoError::InvalidInput);
    }
    let mut bytes: Vec<u8> = Vec::new();
    let mut i: usize = 0;
    while i < a.len()
        invariant
            a.len() == b.len(),
            i <= a.len(),
            bytes.len() == i,
            forall|j: int| 0 <= j < i ==> bytes@[j] == a@[j] ^ b@[j],
        decreases a.len() - i,
    {
        bytes.push(a[i] ^ b[i]);
        i += 1;
    }
    assert(bytes@ =~= xor_pairs(a@, b@));
    Ok(bytes)
}

/// XORs every byte of `data` with `key`.
pub fn xor_with_byte(data: &[u8], key: u8) -> (out: Vec<u8>)
    ensures
        out@ == xor_single(data@, key),
{
    let mut out: Vec<u8> = Vec::new();
    let mut i: usize = 0;
    while i < data.len()
        invariant
            i <= data.len(),
            out.len() == i,
            forall|j: int| 0 <= j < i ==> out@[j] == data@[j] ^ key,
        decreases data.len() - i,
    {
        out.push(data[i] ^ key);
        i += 1;
    }
    assert(out@ =~= xor_single(data@, key));
    out
}

/// Encrypts `plaintext` under `key` repeated cyclically; an empty key is rejected.
pub fn encrypt(plaintext: &[u8], key: &[u8]) -> (out: Result<Vec<u8>, CryptoError>)
    ensures
        match out {
            Ok(bytes) => key@.len() > 0 && bytes@ == xor_repeating(plaintext@, key@),
            Err(e) => key@.len() == 0 && e == CryptoError::InvalidInput,
        },
{
    if key.len() == 0 {
        return Err(CryptoError::InvalidInput);
    }
    let mut bytes: Vec<u8> = Vec::new();
    let mut i: usize = 0;
    while i < plaintext.len()
        invariant
            key.len() > 0,
            i <= plaintext.len(),
            bytes.len() == i,
            forall|j: int| 0 <= j < i ==> bytes@[j] == plaintext@[j] ^ key@[j % (key@.len() as int)],
        decreases plaintext.len() - i,
    {
        bytes.push(plaintext[i] ^ key[i % key.len()]);
        i += 1;
    }
    assert(bytes@ =~= xor_repeating(plaintext@, key@));
    Ok(bytes)
}

/// Decrypts `ciphertext` under `key` repeated cyclically; an empty key is
/// rejected. The cipher is its own inverse, so this is `encrypt`.
pub fn decrypt(ciphertext: &[u8], key: &[u8]) -> (out: Result<Vec<u8>, CryptoError>)
    ensures
        match out {
            Ok(bytes) => key@.len() > 0 && bytes@ == xor_repeating(ciphertext@, key@),
            Err(e) => key@.len() == 0 && e == CryptoError::InvalidInput,
        },
{
    encrypt(ciphertext, key)
}

} // verus!
