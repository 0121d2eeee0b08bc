//! Breaking repeating-key XOR: given only a ciphertext, estimate the key
//! length, split the ciphertext into columns that one key byte each
//! encrypted, solve every column by frequency scoring, and put the key
//! together. Beside that, the hex and base64 codecs and the byte-wise XOR
//! that the attack is built from.

pub mod base64;
pub mod breaker;
pub mod cryptoutil;
pub mod error;
pub mod frequency;
pub mod hex;
pub mod keylength;
pub mod scorer;
pub mod solver;
pub mod text;
pub mod transpose;
pub mod xor;
