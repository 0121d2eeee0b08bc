//! Solving a column that one key byte encrypted: every admitted byte is
//! tried and the one whose plaintext scores highest is kept.

use vstd::prelude::*;
use crate::error::CryptoError;
use crate::frequency::{last_of, top_bytes, top_frequent};
use crate::scorer::FrequencyScorer;
use crate::transpose::contents;
use crate::xor::{xor_single, xor_with_byte};

verus! {

/// Which bytes may be key bytes. The policy is the caller's: nothing in the
/// solver assumes that a key is text.
#[derive(Clone, Copy, Debug, PartialEq, Eq, Structural)]
pub enum KeyByteCharset {
    /// Every byte value, 0 to 255.
    AllBytes,
    /// Printable ASCII only, 32 to 126.
    PrintableAscii,
}

impl KeyByteCharset {
    /// Whether `b` may be a key byte.
    pub open spec fn admits(&self, b: u8) -> bool {
        match *self {
            KeyByteCharset::AllBytes => true,
            KeyByteCharset::PrintableAscii => 32 <= b <= 126,
        }
    }

    /// Whether `b` may be a key byte.
    pub fn accepts(&self, b: u8) -> (r: bool)
        ensures
            r == self.admits(b),
    {
        match self {
            KeyByteCharset::AllBytes => true,
            KeyByteCharset::PrintableAscii => 32 <= b && b <= 126,
        }
    }
}

/// A key byte with the score of the plaintext that it gives for its column.
#[derive(Clone, Copy, Debug, PartialEq, Eq, Structural)]
pub struct KeyByte {
    /// The key byte.
    pub byte: u8,
    /// The score of the column decrypted with it.
    pub score: i64,
}

/// The score of a column decrypted with the key byte `key`.
pub open spec fn trial_score(column: Seq<u8>, scorer: FrequencyScorer, key: u8) -> int {
    scorer.score_of(xor_single(column, key))
}

/// Whether `key` is the key byte that the exhaustive search keeps: of the
/// admitted bytes it gives the highest score, and it is the lowest byte
/// that does.
pub open spec fn is_best_key(
    column: Seq<u8>,
    scorer: FrequencyScorer,
    charset: KeyByteCharset,
    key: u8,
) -> bool {
    &&& charset.admits(key)
    &&& forall|other: u8|
        charset.admits(other) ==> #[trigger] trial_score(column, scorer, other) <= trial_score(
            column,
            scorer,
            key,
        )
    &&& forall|other: u8|
        charset.admits(other) && other < key ==> #[trigger] trial_score(column, scorer, other)
            < trial_score(column, scorer, key)
}

/// The key byte that the exhaustive search keeps.
pub open spec fn best_key(column: Seq<u8>, scorer: FrequencyScorer, charset: KeyByteCharset) -> u8 {
    choose|key: u8| is_best_key(column, scorer, charset, key)
}

/// The exhaustive search has one answer.
pub proof fn lemma_best_key_unique(
    column: Seq<u8>,
    scorer: FrequencyScorer,
    charset: KeyByteCharset,
    a: u8,
    b: u8,
)
    requires
        is_best_key(column, scorer, charset, a),
        is_best_key(column, scorer, charset, b),
    ensures
        a == b,
{
    if a < b {
        assert(trial_score(column, scorer, a) < trial_score(column, scorer, b));
        assert(trial_score(column, scorer, b) <= trial_score(column, scorer, a));
    } else if b < a {
        assert(trial_score(column, scorer, b) < trial_score(column, scorer, a));
        assert(trial_score(column, scorer, a) <= trial_score(column, scorer, b));
    }
}

/// The score of a column decrypted with one key byte.
pub fn try_key(column: &[u8], scorer: &FrequencyScorer, key: u8) -> (score: i64)
    ensures
        score == trial_score(column@, *scorer, key),
{
    let plain = xor_with_byte(column, key);
    scorer.score(plain.as_slice())
}

/// Finds the key byte of a column that was encrypted with a single byte:
/// tries every admitted byte, decrypts the column with it, scores the result
/// and keeps the byte with the highest score, the lowest such byte where
/// several share it. An empty column is rejected.
pub fn solve(column: &[u8], scorer: &FrequencyScorer, charset: KeyByteCharset) -> (out: Result<
    KeyByte,
    CryptoError,
>)
    ensures
        match out {
            Ok(found) => {
                &&& column@.len() > 0
                &&& is_best_key(column@, *scorer, charset, found.byte)
                &&& found.byte == best_key(column@, *scorer, charset)
                &&& found.score == trial_score(column@, *scorer, found.byte)
            },
            Err(e) => column@.len() == 0 && e == CryptoError::UnsolvableColumn,
        },
{
    if column.len() == 0 {
        return Err(CryptoError::UnsolvableColumn);
    }
    let mut found = KeyByte { byte: 32, score: try_key(column, scorer, 32) };
    assert(charset.admits(32));
    let mut v: usize = 0;
    while v < 256
        invariant
            v <= 256,
            charset.admits(found.byte),
            found.score == trial_score(column@, *scorer, found.byte),
            forall|other: u8|
                charset.admits(other) && other < v ==> #[trigger] trial_score(
                    column@,
                    *scorer,
                    other,
                ) <= found.score,
            forall|other: u8|
                charset.admits(other) && other < found.byte && other < v ==> #[trigger] trial_score(
                    column@,
                    *scorer,
                    other,
                ) < found.score,
        decreases 256 - v,
    {
        let key: u8 = v as u8;
        if charset.accepts(key) {
            let score: i64 = try_key(column, scorer, key);
            if score > found.score || (score == found.score && key < found.byte) {
                found = KeyByte { byte: key, score };
            }
        }
        v += 1;
    }
    proof {
        assert(is_best_key(column@, *scorer, charset, found.byte));
        lemma_best_key_unique(
            column@,
            *scorer,
            charset,
            found.byte,
            best_key(column@, *scorer, charset),
        );
    }
    Ok(found)
}

/// The characters that a plaintext is expected to use most, most likely
/// first: the space and the letters e, t, a, o, i.
pub open spec fn expected_frequent() -> Seq<u8> {
    seq![0x20u8, 0x65u8, 0x74u8, 0x61u8, 0x6fu8, 0x69u8]
}

/// The most frequent byte of a column, the lowest of them where several
/// are; none in an empty column.
pub open spec fn most_frequent(column: Seq<u8>) -> Option<u8> {
    last_of(top_bytes(column, 1))
}

/// The key byte that guess `t` proposes: the one under which the column's
/// most frequent byte stands for the `t`-th expected character.
pub open spec fn guess(column: Seq<u8>, t: int) -> u8 {
    most_frequent(column).unwrap() ^ expected_frequent()[t]
}

/// Whether guess `t` settles the column on the fast path: its key byte is
/// admitted, its score is positive, and it beats every other admitted guess.
pub open spec fn is_fast_pick(
    column: Seq<u8>,
    scorer: FrequencyScorer,
    charset: KeyByteCharset,
    t: int,
) -> bool {
    &&& most_frequent(column) is Some
    &&& 0 <= t < expected_frequent().len()
    &&& charset.admits(guess(column, t))
    &&& trial_score(column, scorer, guess(column, t)) > 0
    &&& forall|u: int|
        0 <= u < expected_frequent().len() && u != t && charset.admits(#[trigger] guess(column, u))
            ==> trial_score(column, scorer, guess(column, u)) < trial_score(
            column,
            scorer,
            guess(column, t),
        )
}

/// Finds the key byte of a column by guessing first: the column's most
/// frequent byte is taken to stand for each of the expected characters in
/// turn, and the guess with the highest score is kept. Where no admitted
/// guess has a positive score, or two share the highest, the exhaustive
/// search of `solve` decides instead. An empty column is rejected.
pub fn solve_fast(column: &[u8], scorer: &FrequencyScorer, charset: KeyByteCharset) -> (out: Result<
    KeyByte,
    CryptoError,
>)
    ensures
        match out {
            Ok(found) => {
                &&& column@.len() > 0
                &&& forall|t: int|
                    is_fast_pick(column@, *scorer, charset, t) ==> found.byte == #[trigger] guess(
                        column@,
                        t,
                    )
                &&& (forall|t: int| !is_fast_pick(column@, *scorer, charset, t)) ==> found.byte
                    == best_key(column@, *scorer, charset)
                &&& found.score == trial_score(column@, *scorer, found.byte)
            },
            Err(e) => column@.len() == 0 && e == CryptoError::UnsolvableColumn,
        },
{
    if column.len() == 0 {
        return Err(CryptoError::UnsolvableColumn);
    }
    let top = top_frequent(column, 1);
    if top.len() == 0 {
        return solve(column, scorer, charset);
    }
    let frequent: u8 = top[top.len() - 1];
    let expected: Vec<u8> = vec![0x20u8, 0x65u8, 0x74u8, 0x61u8, 0x6fu8, 0x69u8];
    assert(expected@ =~= expected_frequent());
    let mut leading: Option<(usize, KeyByte)> = None;
    let mut shared: bool = false;
    let mut t: usize = 0;
    while t < expected.len()
        invariant
            t <= expected.len(),
            expected@ == expected_frequent(),
            most_frequent(column@) == Some(frequent),
            match leading {
                Some((at, kept)) => {
                    &&& at < t
                    &&& kept.byte == guess(column@, at as int)
                    &&& charset.admits(kept.byte)
                    &&& kept.score == trial_score(column@, *scorer, kept.byte)
                    &&& forall|u: int|
                        0 <= u < t && charset.admits(#[trigger] guess(column@, u)) ==> trial_score(
                            column@,
                            *scorer,
                            guess(column@, u),
                        ) <= kept.score
                    &&& shared <==> exists|u: int|
                        0 <= u < t && u != at && charset.admits(#[trigger] guess(column@, u))
                            && trial_score(column@, *scorer, guess(column@, u)) == kept.score
                },
                None => !shared && forall|u: int| 0 <= u < t ==> !charset.admits(#[trigger] guess(column@, u)),
            },
        decreases expected.len() - t,
    {
        let key: u8 = frequent ^ expected[t];
        assert(key == guess(column@, t as int));
        if charset.accepts(key) {
            let score: i64 = try_key(column, scorer, key);
            match leading {
                Some((at, kept)) => {
                    if score > kept.score {
                        leading = Some((t, KeyByte { byte: key, score }));
                        shared = false;
                    } else if score == kept.score {
                        shared = true;
                    }
                },
                None => {
                    leading = Some((t, KeyByte { byte: key, score }));
                },
            }
        }
        t += 1;
    }
    match leading {
        Some((at, kept)) => {
            if kept.score > 0 && !shared {
                assert(is_fast_pick(column@, *scorer, charset, at as int));
                return Ok(kept);
            }
        },
        None => {},
    }
    solve(column, scorer, charset)
}

/// Which of several ciphertexts was found to be encrypted with a single
/// byte, and with which.
#[derive(Clone, Copy, Debug, PartialEq, Eq, Structural)]
pub struct Detection {
    /// The position of the ciphertext among those given.
    pub index: usize,
    /// Its key byte, with the score of its plaintext.
    pub key: KeyByte,
}

/// The score that ciphertext `i` reaches under its best key byte.
pub open spec fn line_score(
    lines: Seq<Seq<u8>>,
    scorer: FrequencyScorer,
    charset: KeyByteCharset,
    i: int,
) -> int {
    trial_score(lines[i], scorer, best_key(lines[i], scorer, charset))
}

/// Whether `found` names the ciphertext that is most plausibly encrypted
/// with a single byte: the non-empty one whose best key byte reaches the
/// highest score, the first such where several reach it.
pub open spec fn is_detection(
    lines: Seq<Seq<u8>>,
    scorer: FrequencyScorer,
    charset: KeyByteCharset,
    found: Detection,
) -> bool {
    &&& found.index < lines.len()
    &&& lines[found.index as int].len() > 0
    &&& found.key.byte == best_key(lines[found.index as int], scorer, charset)
    &&& found.key.score == line_score(lines, scorer, charset, found.index as int)
    &&& forall|j: int|
        0 <= j < lines.len() && lines[j].len() > 0 ==> #[trigger] line_score(
            lines,
            scorer,
            charset,
            j,
        ) <= found.key.score
    &&& forall|j: int|
        0 <= j < found.index && lines[j].len() > 0 ==> #[trigger] line_score(
            lines,
            scorer,
            charset,
            j,
        ) < found.key.score
}

/// Finds, among several ciphertexts, the one that was encrypted with a
/// single byte: solves each and keeps the one with the highest score, the
/// first where several share it. Empty ciphertexts are passed over; where
/// all are empty, or none is given, the input is rejected.
pub fn detect(lines: &Vec<Vec<u8>>, scorer: &FrequencyScorer, charset: KeyByteCharset) -> (out: Result<
    Detection,
    CryptoError,
>)
    ensures
        match out {
            Ok(found) => is_detection(contents(lines@), *scorer, charset, found),
            Err(e) => e == CryptoError::InvalidInput && forall|j: int|
                0 <= j < lines@.len() ==> (#[trigger] lines@[j])@.len() == 0,
        },
{
    let ghost all = contents(lines@);
    let mut best: Option<Detection> = None;
    let mut i: usize = 0;
    while i < lines.len()
        invariant
            i <= lines.len(),
            all == contents(lines@),
            match best {
                Some(found) => {
                    &&& found.index < i
                    &&& all[found.index as int].len() > 0
                    &&& found.key.byte == best_key(all[found.index as int], *scorer, charset)
                    &&& found.key.score == line_score(all, *scorer, charset, found.index as int)
                    &&& forall|j: int|
                        0 <= j < i && all[j].len() > 0 ==> #[trigger] line_score(
                            all,
                            *scorer,
                            charset,
                            j,
                        ) <= found.key.score
                    &&& forall|j: int|
                        0 <= j < found.index && all[j].len() > 0 ==> #[trigger] line_score(
                            all,
                            *scorer,
                            charset,
                            j,
                        ) < found.key.score
                },
                None => forall|j: int| 0 <= j < i ==> (#[trigger] lines@[j])@.len() == 0,
            },
        decreases lines.len() - i,
    {
        assert(all[i as int] == lines@[i as int]@);
        match solve(lines[i].as_slice(), scorer, charset) {
            Ok(key) => {
                let better: bool = match best {
                    Some(found) => key.score > found.key.score,
                    None => true,
                };
                if better {
                    best = Some(Detection { index: i, key });
                }
            },
            Err(_) => {},
        }
        i += 1;
    }
    match best {
        Some(found) => Ok(found),
        None => Err(CryptoError::InvalidInput),
    }
}

} // verus!
