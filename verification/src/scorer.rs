//! Scoring a text for likeness to English, in two ways: by the common
//! characters among its most frequent bytes, and by the deviation of its
//! letter shares from those of English.

use vstd::prelude::*;
use crate::frequency::{byte_counts, count_of, is_count_table, lemma_count_bounded, top_bytes, top_of_table};

verus! {

/// The score of an empty text: below every score of a text that holds a byte.
pub const EMPTY_SCORE: i64 = i64::MIN;

/// What one unit of unprintable share costs in the deviation score.
pub const UNPRINTABLE_WEIGHT: i64 = 1_000_000;

/// How a text is scored for likeness to English.
#[derive(Clone, Copy, Debug, PartialEq, Eq, Structural)]
pub enum ScoringStrategy {
    /// Counts the common characters among the most frequent bytes.
    TopKOverlap,
    /// Sums the squared deviations of the letter frequencies from English.
    ChiSquare,
}

/// The characters that English text uses most: the space and the letters
/// e, t, a, o, i in either case.
pub open spec fn common_characters() -> Seq<u8> {
    seq![0x20u8, 0x65u8, 0x74u8, 0x61u8, 0x6fu8, 0x69u8, 0x45u8, 0x54u8, 0x41u8, 0x4fu8, 0x49u8]
}

/// How many of the first `n` of `wanted` occur in `ranking`.
pub open spec fn hits(ranking: Seq<u8>, wanted: Seq<u8>, n: nat) -> nat
    decreases n,
{
    if n == 0 {
        0
    } else {
        hits(ranking, wanted, (n - 1) as nat) + if ranking.contains(wanted[n - 1]) {
            1nat
        } else {
            0nat
        }
    }
}

/// The overlap score: how many of the common characters are among the `k`
/// most frequent bytes of the text.
pub open spec fn overlap_score(bytes: Seq<u8>, k: nat) -> nat {
    hits(top_bytes(bytes, k), common_characters(), common_characters().len())
}

/// The expected share of the letter with index `letter` (0 for a, 25 for z)
/// in English text, in hundredths of a percent; zero for any other index.
pub open spec fn expected_share(letter: int) -> int {
    if letter == 0 {
        816
    } else if letter == 1 {
        149
    } else if letter == 2 {
        278
    } else if letter == 3 {
        425
    } else if letter == 4 {
        1270
    } else if letter == 5 {
        222
    } else if letter == 6 {
        202
    } else if letter == 7 {
        609
    } else if letter == 8 {
        697
    } else if letter == 9 {
        15
    } else if letter == 10 {
        77
    } else if letter == 11 {
        403
    } else if letter == 12 {
        241
    } else if letter == 13 {
        675
    } else if letter == 14 {
        751
    } else if letter == 15 {
        193
    } else if letter == 16 {
        10
    } else if letter == 17 {
        599
    } else if letter == 18 {
        644
    } else if letter == 19 {
        901
    } else if letter == 20 {
        276
    } else if letter == 21 {
        98
    } else if letter == 22 {
        236
    } else if letter == 23 {
        15
    } else if letter == 24 {
        197
    } else if letter == 25 {
        7
    } else {
        0
    }
}

/// How often the lower-case letter with index `letter` occurs.
pub open spec fn letter_count(bytes: Seq<u8>, letter: int) -> nat {
    count_of(bytes, (0x61 + letter) as u8)
}

/// The observed share of a letter in a non-empty text, in hundredths of a
/// percent, rounded down.
pub open spec fn observed_share(bytes: Seq<u8>, letter: int) -> int {
    (10000 * letter_count(bytes, letter) as int) / (bytes.len() as int)
}

/// The squared deviation of one letter's observed share from its expected share.
pub open spec fn squared_deviation(bytes: Seq<u8>, letter: int) -> int {
    (observed_share(bytes, letter) - expected_share(letter)) * (observed_share(bytes, letter)
        - expected_share(letter))
}

/// The sum of the squared deviations of the first `letters` letters.
pub open spec fn deviation_sum(bytes: Seq<u8>, letters: nat) -> int
    decreases letters,
{
    if letters == 0 {
        0
    } else {
        deviation_sum(bytes, (letters - 1) as nat) + squared_deviation(bytes, letters - 1)
    }
}

/// Printable ASCII: the bytes 32 to 126.
pub open spec fn is_printable(b: u8) -> bool {
    32 <= b <= 126
}

/// How many bytes of a text are not printable ASCII.
pub open spec fn unprintable_count(bytes: Seq<u8>) -> nat
    decreases bytes.len(),
{
    if bytes.len() == 0 {
        0
    } else {
        unprintable_count(bytes.drop_last()) + if is_printable(bytes.last()) {
            0nat
        } else {
            1nat
        }
    }
}

/// The share of unprintable bytes in a non-empty text, in hundredths of a
/// percent, rounded up: one such byte already counts.
pub open spec fn unprintable_share(bytes: Seq<u8>) -> int {
    (10000 * unprintable_count(bytes) as int + bytes.len() as int - 1) / (bytes.len() as int)
}

/// The deviation score of a non-empty text: the negated sum of the squared
/// deviations of the shares of the letters a to z from English, less a heavy penalty for
/// every unit of unprintable share. It is never positive, and the closer to
/// zero the more the text looks like English.
pub open spec fn deviation_score(bytes: Seq<u8>) -> int {
    -(deviation_sum(bytes, 26) + UNPRINTABLE_WEIGHT * unprintable_share(bytes))
}

/// The deviation sum is never negative, and bounded by the number of letters.
proof fn lemma_deviation_sum_bounded(bytes: Seq<u8>, letters: nat)
    requires
        bytes.len() > 0,
        letters <= 26,
    ensures
        0 <= deviation_sum(bytes, letters) <= 100_000_000 * letters,
    decreases letters,
{
    if letters > 0 {
        lemma_deviation_sum_bounded(bytes, (letters - 1) as nat);
        let letter = letters - 1;
        let count = letter_count(bytes, letter) as int;
        let n = bytes.len() as int;
        lemma_count_bounded(bytes, (0x61 + letter) as u8);
        let observed = observed_share(bytes, letter);
        assert(0 <= observed <= 10000) by (nonlinear_arith)
            requires
                observed == (10000 * count) / n,
                0 <= count <= n,
                n > 0,
        ;
        let deviation = observed - expected_share(letter);
        assert(0 <= deviation * deviation <= 100_000_000) by (nonlinear_arith)
            requires
                -1270 <= deviation <= 10000,
        ;
    }
}

/// No more bytes are unprintable than there are bytes.
proof fn lemma_unprintable_bounded(bytes: Seq<u8>)
    ensures
        unprintable_count(bytes) <= bytes.len(),
    decreases bytes.len(),
{
    if bytes.len() > 0 {
        lemma_unprintable_bounded(bytes.drop_last());
    }
}

/// The deviation score of a non-empty text is never positive, and bounded
/// below.
pub proof fn lemma_deviation_score_bounded(bytes: Seq<u8>)
    requires
        bytes.len() > 0,
    ensures
        -12_600_000_000 <= deviation_score(bytes) <= 0,
{
    lemma_deviation_sum_bounded(bytes, 26);
    lemma_unprintable_bounded(bytes);
    let count = unprintable_count(bytes) as int;
    let n = bytes.len() as int;
    let share = unprintable_share(bytes);
    assert(0 <= share <= 10000) by (nonlinear_arith)
        requires
            share == (10000 * count + n - 1) / n,
            0 <= count <= n,
            n > 0,
    ;
}

/// Scores texts for likeness to English; a higher score is more plausible.
#[derive(Clone, Copy, Debug, PartialEq, Eq, Structural)]
pub struct FrequencyScorer {
    /// Which of the two scores is computed.
    pub strategy: ScoringStrategy,
    /// How many of the most frequent bytes the overlap score looks at.
    pub top_k: usize,
}

impl FrequencyScorer {
    /// The scorer that counts common characters among the `top_k` most
    /// frequent bytes.
    pub fn top_k_overlap(top_k: usize) -> (scorer: FrequencyScorer)
        ensures
            scorer.strategy == ScoringStrategy::TopKOverlap,
            scorer.top_k == top_k,
    {
        FrequencyScorer { strategy: ScoringStrategy::TopKOverlap, top_k }
    }

    /// The scorer that measures the deviation of the letter shares from English.
    pub fn chi_square() -> (scorer: FrequencyScorer)
        ensures
            scorer.strategy == ScoringStrategy::ChiSquare,
            scorer.top_k == 5,
    {
        FrequencyScorer { strategy: ScoringStrategy::ChiSquare, top_k: 5 }
    }

    /// The score of a text under this scorer. An empty text has the lowest
    /// score there is.
    pub open spec fn score_of(&self, bytes: Seq<u8>) -> int {
        if bytes.len() == 0 {
            EMPTY_SCORE as int
        } else {
            match self.strategy {
                ScoringStrategy::TopKOverlap => overlap_score(bytes, self.top_k as nat) as int,
                ScoringStrategy::ChiSquare => deviation_score(bytes),
            }
        }
    }

    /// Scores a text; higher is more plausible.
    pub fn score(&self, bytes: &[u8]) -> (s: i64)
        ensures
            s == self.score_of(bytes@),
            bytes@.len() > 0 ==> s > EMPTY_SCORE,
    {
        if bytes.len() == 0 {
            return EMPTY_SCORE;
        }
        let table = byte_counts(bytes);
        match self.strategy {
            ScoringStrategy::TopKOverlap => overlap_of_table(&table, self.top_k, Ghost(bytes@)),
            ScoringStrategy::ChiSquare => deviation_of_table(&table, bytes),
        }
    }
}

/// The expected share of a letter in English text, in hundredths of a
/// percent; zero for an index that is no letter's.
pub fn expected_share_of(letter: u8) -> (share: i64)
    ensures
        share == expected_share(letter as int),
        0 <= share <= 1270,
{
    if letter == 0 {
        816
    } else if letter == 1 {
        149
    } else if letter == 2 {
        278
    } else if letter == 3 {
        425
    } else if letter == 4 {
        1270
    } else if letter == 5 {
        222
    } else if letter == 6 {
        202
    } else if letter == 7 {
        609
    } else if letter == 8 {
        697
    } else if letter == 9 {
        15
    } else if letter == 10 {
        77
    } else if letter == 11 {
        403
    } else if letter == 12 {
        241
    } else if letter == 13 {
        675
    } else if letter == 14 {
        751
    } else if letter == 15 {
        193
    } else if letter == 16 {
        10
    } else if letter == 17 {
        599
    } else if letter == 18 {
        644
    } else if letter == 19 {
        901
    } else if letter == 20 {
        276
    } else if letter == 21 {
        98
    } else if letter == 22 {
        236
    } else if letter == 23 {
        15
    } else if letter == 24 {
        197
    } else if letter == 25 {
        7
    } else {
        0
    }
}

/// Whether a byte is printable ASCII.
pub fn printable(b: u8) -> (r: bool)
    ensures
        r == is_printable(b),
{
    32 <= b && b <= 126
}

/// Counts the bytes that are not printable ASCII.
pub fn count_unprintable(bytes: &[u8]) -> (n: usize)
    ensures
        n == unprintable_count(bytes@),
        n <= bytes@.len(),
{
    let mut n: usize = 0;
    let mut i: usize = 0;
    while i < bytes.len()
        invariant
            i <= bytes.len(),
            n == unprintable_count(bytes@.take(i as int)),
            n <= i,
        decreases bytes.len() - i,
    {
        proof {
            assert(bytes@.take(i + 1).drop_last() =~= bytes@.take(i as int));
        }
        if !printable(bytes[i]) {
            n += 1;
        }
        i += 1;
    }
    assert(bytes@.take(i as int) =~= bytes@);
    n
}

/// Whether a ranking holds the byte `b`.
fn holds(ranking: &Vec<u8>, b: u8) -> (r: bool)
    ensures
        r == ranking@.contains(b),
{
    let mut i: usize = 0;
    while i < ranking.len()
        invariant
            i <= ranking.len(),
            forall|j: int| 0 <= j < i ==> ranking@[j] != b,
        decreases ranking.len() - i,
    {
        if ranking[i] == b {
            return true;
        }
        i += 1;
    }
    false
}

/// The overlap score by the counts in a table.
fn overlap_of_table(table: &Vec<usize>, k: usize, Ghost(bytes): Ghost<Seq<u8>>) -> (s: i64)
    requires
        is_count_table(table@, bytes),
    ensures
        s == overlap_score(bytes, k as nat),
        0 <= s <= 11,
{
    let ranking = top_of_table(table, k, Ghost(bytes));
    let wanted: Vec<u8> = vec![0x20u8, 0x65u8, 0x74u8, 0x61u8, 0x6fu8, 0x69u8, 0x45u8, 0x54u8, 0x41u8, 0x4fu8, 0x49u8];
    assert(wanted@ =~= common_characters());
    let mut s: i64 = 0;
    let mut i: usize = 0;
    while i < wanted.len()
        invariant
            i <= wanted.len(),
            wanted.len() == 11,
            s == hits(ranking@, wanted@, i as nat),
            0 <= s <= i,
        decreases wanted.len() - i,
    {
        if holds(&ranking, wanted[i]) {
            s += 1;
        }
        i += 1;
    }
    s
}

/// The observed share of a letter by the counts in a table.
fn observed_share_of(table: &Vec<usize>, letter: u8, len: usize, Ghost(bytes): Ghost<Seq<u8>>) -> (share: i64)
    requires
        is_count_table(table@, bytes),
        letter < 26,
        len == bytes.len(),
        len > 0,
    ensures
        share == observed_share(bytes, letter as int),
        0 <= share <= 10000,
{
    let total: u128 = table[(0x61 + letter) as usize] as u128;
    proof {
        lemma_count_bounded(bytes, (0x61 + letter) as u8);
    }
    let n: u128 = len as u128;
    let q: u128 = (10000 * total) / n;
    assert(q <= 10000) by (nonlinear_arith)
        requires
            q == (10000 * total) / (n as int),
            n > 0,
            total <= n,
    ;
    q as i64
}

/// The deviation score of a non-empty text by the counts in a table.
fn deviation_of_table(table: &Vec<usize>, bytes: &[u8]) -> (s: i64)
    requires
        is_count_table(table@, bytes@),
        bytes@.len() > 0,
    ensures
        s == deviation_score(bytes@),
        -13_000_000_000 <= s <= 0,
{
    let len: usize = bytes.len();
    let mut sum: i64 = 0;
    let mut letter: u8 = 0;
    while letter < 26
        invariant
            letter <= 26,
            is_count_table(table@, bytes@),
            len == bytes@.len(),
            len > 0,
            sum == deviation_sum(bytes@, letter as nat),
            0 <= sum <= 100_000_000 * letter,
        decreases 26 - letter,
    {
        let observed: i64 = observed_share_of(table, letter, len, Ghost(bytes@));
        let deviation: i64 = observed - expected_share_of(letter);
        assert(0 <= deviation * deviation <= 100_000_000) by (nonlinear_arith)
            requires
                -1270 <= deviation <= 10000,
        ;
        sum += deviation * deviation;
        letter += 1;
    }
    let unprintable: u128 = count_unprintable(bytes) as u128;
    let n: u128 = len as u128;
    let share: u128 = (10000 * unprintable + n - 1) / n;
    assert(share <= 10000) by (nonlinear_arith)
        requires
            share == (10000 * unprintable + n - 1) / (n as int),
            n > 0,
            unprintable <= n,
    ;
    -(sum + UNPRINTABLE_WEIGHT * (share as i64))
}

/// An empty text scores below every text that holds a byte, whatever the
/// scorer: it is never kept over another candidate.
pub proof fn lemma_empty_scores_lowest(scorer: FrequencyScorer, bytes: Seq<u8>)
    requires
        bytes.len() > 0,
    ensures
        scorer.score_of(Seq::<u8>::empty()) < scorer.score_of(bytes),
{
    lemma_deviation_score_bounded(bytes);
}

} // verus!
