//! The breaker: ranks the key lengths, tries the best of them column by
//! column, and keeps the attempt whose plaintext scores highest.

use vstd::prelude::*;
use crate::error::CryptoError;
use crate::keylength::{eligible, estimate, is_estimate, lemma_estimate_unique, KeyLengthCandidate};
use crate::scorer::{FrequencyScorer, ScoringStrategy};
use crate::solver::{best_key, solve, KeyByteCharset};
use crate::transpose::{column, columns, contents, lemma_column_len, transpose};
use crate::xor::{encrypt, xor_repeating};

verus! {

/// What the breaker is asked to try.
#[derive(Clone, Copy, Debug, PartialEq, Eq, Structural)]
pub struct BreakerConfig {
    /// The shortest key length to consider.
    pub min_key_length: u32,
    /// The longest key length to consider. Keys longer than this are not found.
    pub max_key_length: u32,
    /// How many of the best ranked key lengths are tried.
    pub candidate_key_lengths: usize,
    /// Which bytes may be key bytes.
    pub key_byte_charset: KeyByteCharset,
    /// How plaintexts are scored.
    pub scoring_strategy: ScoringStrategy,
    /// How many of the most frequent bytes the overlap score looks at.
    pub top_k: usize,
}

impl Default for BreakerConfig {
    /// Key lengths 2 to 40, the best three of them tried, every byte value
    /// admitted as a key byte, plaintexts scored by deviation from English.
    fn default() -> (config: BreakerConfig)
        ensures
            config == (BreakerConfig {
                min_key_length: 2,
                max_key_length: 40,
                candidate_key_lengths: 3,
                key_byte_charset: KeyByteCharset::AllBytes,
                scoring_strategy: ScoringStrategy::ChiSquare,
                top_k: 5,
            }),
    {
        BreakerConfig {
            min_key_length: 2,
            max_key_length: 40,
            candidate_key_lengths: 3,
            key_byte_charset: KeyByteCharset::AllBytes,
            scoring_strategy: ScoringStrategy::ChiSquare,
            top_k: 5,
        }
    }
}

impl BreakerConfig {
    /// The scorer that the configuration asks for.
    pub open spec fn scorer_of(&self) -> FrequencyScorer {
        FrequencyScorer { strategy: self.scoring_strategy, top_k: self.top_k }
    }

    /// The scorer that the configuration asks for.
    pub fn scorer(&self) -> (scorer: FrequencyScorer)
        ensures
            scorer == self.scorer_of(),
    {
        FrequencyScorer { strategy: self.scoring_strategy, top_k: self.top_k }
    }
}

/// A key, the plaintext that it gives, and that plaintext's score.
#[derive(Clone, Debug, PartialEq, Eq)]
pub struct DecryptionResult {
    /// The recovered key.
    pub key: Vec<u8>,
    /// The ciphertext decrypted with the key: as long as the ciphertext.
    pub plaintext: Vec<u8>,
    /// The score of the plaintext.
    pub score: i64,
}

/// What a `DecryptionResult` holds.
pub struct Decryption {
    /// The bytes of the key.
    pub key: Seq<u8>,
    /// The bytes of the plaintext.
    pub plaintext: Seq<u8>,
    /// The score of the plaintext.
    pub score: int,
}

impl View for DecryptionResult {
    type V = Decryption;

    open spec fn view(&self) -> Decryption {
        Decryption { key: self.key@, plaintext: self.plaintext@, score: self.score as int }
    }
}

/// The key of a given length that the column-wise search recovers: byte `i`
/// is the best key byte of column `i`.
pub open spec fn recovered_key(
    ciphertext: Seq<u8>,
    key_length: nat,
    scorer: FrequencyScorer,
    charset: KeyByteCharset,
) -> Seq<u8> {
    Seq::new(
        key_length,
        |i: int| best_key(column(ciphertext, key_length, i as nat), scorer, charset),
    )
}

/// What trying one key length gives: the recovered key, the ciphertext
/// decrypted with it, and the score of that plaintext.
pub open spec fn attempt_of(ciphertext: Seq<u8>, key_length: nat, config: BreakerConfig) -> Decryption {
    let key = recovered_key(ciphertext, key_length, config.scorer_of(), config.key_byte_charset);
    let plaintext = xor_repeating(ciphertext, key);
    Decryption { key, plaintext, score: config.scorer_of().score_of(plaintext) }
}

/// Recovers a key of a given length: splits the ciphertext into columns and
/// finds the key byte of each. A key length of zero is rejected as invalid,
/// and one beyond the ciphertext's length as leaving a column unsolvable.
pub fn recover_key(
    ciphertext: &[u8],
    key_length: usize,
    scorer: &FrequencyScorer,
    charset: KeyByteCharset,
) -> (out: Result<Vec<u8>, CryptoError>)
    ensures
        match out {
            Ok(key) => 1 <= key_length <= ciphertext@.len() && key@ == recovered_key(
                ciphertext@,
                key_length as nat,
                *scorer,
                charset,
            ),
            Err(e) => if key_length == 0 {
                e == CryptoError::InvalidInput
            } else {
                key_length > ciphertext@.len() && e == CryptoError::UnsolvableColumn
            },
        },
{
    if key_length == 0 {
        return Err(CryptoError::InvalidInput);
    }
    if key_length > ciphertext.len() {
        return Err(CryptoError::UnsolvableColumn);
    }
    let cols = match transpose(ciphertext, key_length) {
        Ok(cols) => cols,
        Err(e) => {
            return Err(e);
        },
    };
    let mut key: Vec<u8> = Vec::new();
    let mut i: usize = 0;
    while i < key_length
        invariant
            1 <= key_length <= ciphertext@.len(),
            i <= key_length,
            key.len() == i,
            cols@.len() == key_length,
            contents(cols@) == columns(ciphertext@, key_length as nat),
            forall|t: int|
                0 <= t < i ==> key@[t] == best_key(
                    column(ciphertext@, key_length as nat, t as nat),
                    *scorer,
                    charset,
                ),
        decreases key_length - i,
    {
        proof {
            lemma_column_len(ciphertext@.len(), key_length as nat, i as nat, 0);
            assert(contents(cols@)[i as int] == cols@[i as int]@);
            assert(columns(ciphertext@, key_length as nat)[i as int] == column(
                ciphertext@,
                key_length as nat,
                i as nat,
            ));
        }
        match solve(cols[i].as_slice(), scorer, charset) {
            Ok(found) => {
                key.push(found.byte);
            },
            Err(e) => {
                return Err(e);
            },
        }
        i += 1;
    }
    assert(key@ =~= recovered_key(ciphertext@, key_length as nat, *scorer, charset));
    Ok(key)
}

/// Tries one key length: recovers the key of that length, decrypts the
/// whole ciphertext with it and scores the plaintext. The errors are those
/// of `recover_key`.
pub fn attempt(ciphertext: &[u8], key_length: usize, config: &BreakerConfig) -> (out: Result<
    DecryptionResult,
    CryptoError,
>)
    ensures
        match out {
            Ok(result) => 1 <= key_length <= ciphertext@.len() && result@ == attempt_of(
                ciphertext@,
                key_length as nat,
                *config,
            ),
            Err(e) => if key_length == 0 {
                e == CryptoError::InvalidInput
            } else {
                key_length > ciphertext@.len() && e == CryptoError::UnsolvableColumn
            },
        },
{
    let scorer = config.scorer();
    let key = match recover_key(ciphertext, key_length, &scorer, config.key_byte_charset) {
        Ok(key) => key,
        Err(e) => {
            return Err(e);
        },
    };
    let plaintext = match encrypt(ciphertext, key.as_slice()) {
        Ok(plaintext) => plaintext,
        Err(e) => {
            return Err(e);
        },
    };
    let score: i64 = scorer.score(plaintext.as_slice());
    Ok(DecryptionResult { key, plaintext, score })
}

/// The ranking of key lengths for a ciphertext under a configuration: the
/// one estimate there is, by `lemma_estimate_unique`, and so what `estimate`
/// returns.
pub open spec fn ranking_of(ciphertext: Seq<u8>, config: BreakerConfig) -> Seq<KeyLengthCandidate> {
    choose|ranking: Seq<KeyLengthCandidate>|
        is_estimate(ciphertext, config.min_key_length, config.max_key_length, ranking)
}

/// How many key lengths are tried: as many as the configuration asks for,
/// or all that the ranking has.
pub open spec fn tried_count(ciphertext: Seq<u8>, config: BreakerConfig) -> nat {
    if config.candidate_key_lengths <= ranking_of(ciphertext, config).len() {
        config.candidate_key_lengths as nat
    } else {
        ranking_of(ciphertext, config).len()
    }
}

/// The `j`-th key length that is tried.
pub open spec fn tried_length(ciphertext: Seq<u8>, config: BreakerConfig, j: int) -> nat {
    ranking_of(ciphertext, config)[j].length as nat
}

/// Whether the breaker has anything to try: it is asked for at least one
/// key length, and at least one is eligible.
pub open spec fn is_breakable(ciphertext: Seq<u8>, config: BreakerConfig) -> bool {
    &&& config.candidate_key_lengths > 0
    &&& exists|length: int|
        eligible(ciphertext.len(), config.min_key_length, config.max_key_length, length)
}

/// Whether `result` is what breaking the ciphertext gives: the attempt at
/// one of the tried key lengths, whose score no other tried length beats,
/// and which has the shortest key of those that reach its score.
pub open spec fn is_break_result(
    ciphertext: Seq<u8>,
    config: BreakerConfig,
    result: Decryption,
) -> bool {
    &&& exists|j: int|
        0 <= j < tried_count(ciphertext, config) && #[trigger] tried_length(ciphertext, config, j)
            == result.key.len()
    &&& result == attempt_of(ciphertext, result.key.len(), config)
    &&& forall|j: int|
        0 <= j < tried_count(ciphertext, config) ==> {
            let other = attempt_of(ciphertext, #[trigger] tried_length(ciphertext, config, j), config);
            other.score < result.score || (other.score == result.score && result.key.len()
                <= other.key.len())
        }
}

/// Breaking a ciphertext has one answer: two results for one ciphertext and
/// one configuration are the same result.
pub proof fn lemma_break_unique(
    ciphertext: Seq<u8>,
    config: BreakerConfig,
    first: Decryption,
    second: Decryption,
)
    requires
        is_break_result(ciphertext, config, first),
        is_break_result(ciphertext, config, second),
    ensures
        first == second,
{
    let j1 = choose|j: int|
        0 <= j < tried_count(ciphertext, config) && #[trigger] tried_length(ciphertext, config, j)
            == first.key.len();
    let j2 = choose|j: int|
        0 <= j < tried_count(ciphertext, config) && #[trigger] tried_length(ciphertext, config, j)
            == second.key.len();
    let one = attempt_of(ciphertext, tried_length(ciphertext, config, j1), config);
    let two = attempt_of(ciphertext, tried_length(ciphertext, config, j2), config);
    assert(one == first);
    assert(two == second);
    assert(one.key.len() == first.key.len());
    assert(two.key.len() == second.key.len());
}

/// Recovers the key and the plaintext of a ciphertext that was encrypted
/// with a repeating key. The key lengths are ranked, the best ranked are
/// tried one by one, and the attempt with the highest score is returned, the
/// one with the shortest key where several share that score. Where the
/// ciphertext is too short for any key length in the range, or no key
/// length is to be tried, the input is rejected.
pub fn break_ciphertext(ciphertext: &[u8], config: &BreakerConfig) -> (out: Result<
    DecryptionResult,
    CryptoError,
>)
    ensures
        match out {
            Ok(result) => is_breakable(ciphertext@, *config) && is_break_result(
                ciphertext@,
                *config,
                result@,
            ),
            Err(e) => !is_breakable(ciphertext@, *config) && e == CryptoError::InvalidInput,
        },
{
    if config.candidate_key_lengths == 0 {
        return Err(CryptoError::InvalidInput);
    }
    let ranking = match estimate(ciphertext, config.min_key_length, config.max_key_length) {
        Ok(ranking) => ranking,
        Err(e) => {
            return Err(e);
        },
    };
    proof {
        let r = ranking_of(ciphertext@, *config);
        lemma_estimate_unique(
            ciphertext@,
            config.min_key_length,
            config.max_key_length,
            ranking@,
            r,
        );
        let first = ranking@[0];
        assert(eligible(
            ciphertext@.len(),
            config.min_key_length,
            config.max_key_length,
            first.length as int,
        ));
        assert(is_breakable(ciphertext@, *config));
    }
    let count: usize = if config.candidate_key_lengths <= ranking.len() {
        config.candidate_key_lengths
    } else {
        ranking.len()
    };
    let mut best: Option<DecryptionResult> = None;
    let mut j: usize = 0;
    while j < count
        invariant
            j <= count,
            count == tried_count(ciphertext@, *config),
            count <= ranking@.len(),
            ranking@ == ranking_of(ciphertext@, *config),
            is_estimate(ciphertext@, config.min_key_length, config.max_key_length, ranking@),
            j > 0 ==> best is Some,
            match best {
                Some(kept) => {
                    &&& exists|u: int|
                        0 <= u < j && #[trigger] tried_length(ciphertext@, *config, u)
                            == kept@.key.len()
                    &&& kept@ == attempt_of(ciphertext@, kept@.key.len(), *config)
                    &&& forall|u: int|
                        0 <= u < j ==> {
                            let other = attempt_of(
                                ciphertext@,
                                #[trigger] tried_length(ciphertext@, *config, u),
                                *config,
                            );
                            other.score < kept@.score || (other.score == kept@.score
                                && kept@.key.len() <= other.key.len())
                        }
                },
                None => j == 0,
            },
        decreases count - j,
    {
        let length: u32 = ranking[j].length;
        proof {
            assert(eligible(
                ciphertext@.len(),
                config.min_key_length,
                config.max_key_length,
                ranking@[j as int].length as int,
            ));
            assert(tried_length(ciphertext@, *config, j as int) == length);
        }
        let tried = match attempt(ciphertext, length as usize, config) {
            Ok(tried) => tried,
            Err(e) => {
                return Err(e);
            },
        };
        assert(tried@.key.len() == length);
        let replace: bool = match &best {
            Some(kept) => tried.score > kept.score || (tried.score == kept.score
                && tried.key.len() < kept.key.len()),
            None => true,
        };
        if replace {
            best = Some(tried);
        }
        j += 1;
    }
    match best {
        Some(result) => Ok(result),
        None => Err(CryptoError::InvalidInput),
    }
}

/// A ciphertext shorter than two blocks of the shortest key length cannot
/// be broken: no key length is eligible, and `break_ciphertext` rejects it.
pub proof fn lemma_short_ciphertext_rejected(ciphertext: Seq<u8>, config: BreakerConfig)
    requires
        ciphertext.len() < 2 * config.min_key_length,
    ensures
        !is_breakable(ciphertext, config),
{
}

} // verus!
