//! Key length estimation: the Hamming distance of the first two blocks of a
//! ciphertext, per byte of block, ranks the key lengths that may be the
//! true one. The ranking is a heuristic: the true length tends to come
//! early, not always first, so a caller tries several.

use vstd::prelude::*;
use vstd::slice::slice_subrange;
use crate::error::CryptoError;

verus! {

/// How many bits of a byte are set.
pub open spec fn ones(x: u8) -> nat
    decreases x,
{
    if x == 0 {
        0
    } else {
        (x % 2) as nat + ones(x / 2)
    }
}

/// The Hamming distance of two buffers of one length: in how many bits
/// they differ.
pub open spec fn hamming(a: Seq<u8>, b: Seq<u8>) -> nat
    recommends
        a.len() == b.len(),
    decreases a.len(),
{
    if a.len() == 0 || b.len() == 0 {
        0
    } else {
        hamming(a.drop_last(), b.drop_last()) + ones(a.last() ^ b.last())
    }
}

/// A byte has at most eight bits set.
pub proof fn lemma_ones_bounded(x: u8)
    ensures
        ones(x) <= 8,
{
    reveal_with_fuel(ones, 10);
}

/// Counts the set bits of a byte.
pub fn count_ones(x: u8) -> (n: u8)
    ensures
        n == ones(x),
        n <= 8,
{
    let mut rest: u8 = x;
    let mut n: u8 = 0;
    proof {
        lemma_ones_bounded(x);
    }
    while rest != 0
        invariant
            n + ones(rest) == ones(x),
            ones(x) <= 8,
        decreases rest,
    {
        n += rest % 2;
        rest = rest / 2;
    }
    n
}

/// The Hamming distance of two buffers of one length.
pub(crate) fn distance_of(a: &[u8], b: &[u8]) -> (d: u128)
    requires
        a@.len() == b@.len(),
    ensures
        d == hamming(a@, b@),
        d <= 8 * a@.len(),
{
    let mut d: u128 = 0;
    let mut i: usize = 0;
    while i < a.len()
        invariant
            a.len() == b.len(),
            i <= a.len(),
            d == hamming(a@.take(i as int), b@.take(i as int)),
            d <= 8 * i,
        decreases a.len() - i,
    {
        proof {
            assert(a@.take(i + 1).drop_last() =~= a@.take(i as int));
            assert(b@.take(i + 1).drop_last() =~= b@.take(i as int));
        }
        d += count_ones(a[i] ^ b[i]) as u128;
        i += 1;
    }
    proof {
        assert(a@.take(i as int) =~= a@);
        assert(b@.take(i as int) =~= b@);
    }
    d
}

/// The Hamming distance of two buffers; buffers of different lengths are
/// rejected.
pub fn hamming_distance(a: &[u8], b: &[u8]) -> (out: Result<u128, CryptoError>)
    ensures
        match out {
            Ok(d) => a@.len() == b@.len() && d == hamming(a@, b@),
            Err(e) => a@.len() != b@.len() && e == CryptoError::InvalidInput,
        },
{
    if a.len() != b.len() {
        return Err(CryptoError::InvalidInput);
    }
    Ok(distance_of(a, b))
}

/// A key length that may be the true one, with the Hamming distance of the
/// first two blocks of that length. Its score is the distance divided by the
/// length, kept as the exact fraction; a lower score is better.
#[derive(Clone, Copy, Debug, PartialEq, Eq, Structural)]
pub struct KeyLengthCandidate {
    /// The key length, at least 2.
    pub length: u32,
    /// In how many bits the first two blocks of that length differ.
    pub distance: u64,
}

/// Whether `a` ranks before `b`: its distance per byte of key is lower, or
/// the same and its length is smaller.
pub open spec fn better(a: KeyLengthCandidate, b: KeyLengthCandidate) -> bool {
    a.distance * b.length < b.distance * a.length || (a.distance * b.length == b.distance
        * a.length && a.length < b.length)
}

/// Whether `length` is a key length to try: at least 2, within the range
/// asked for, and with two full blocks in a ciphertext of `len` bytes.
pub open spec fn eligible(len: nat, min_len: u32, max_len: u32, length: int) -> bool {
    2 <= length && min_len <= length <= max_len && 2 * length <= len
}

/// The candidate for one key length: the distance of the first block of
/// that length from the second.
pub open spec fn candidate_for(ciphertext: Seq<u8>, length: int) -> KeyLengthCandidate {
    KeyLengthCandidate {
        length: length as u32,
        distance: hamming(
            ciphertext.subrange(0, length),
            ciphertext.subrange(length, 2 * length),
        ) as u64,
    }
}

/// Whether `ranking` lists the candidates of exactly the lengths from `from`
/// up to, not including, `to`, best first.
spec fn ranks_lengths(
    ciphertext: Seq<u8>,
    from: int,
    to: int,
    ranking: Seq<KeyLengthCandidate>,
) -> bool {
    &&& forall|i: int|
        0 <= i < ranking.len() ==> from <= (#[trigger] ranking[i]).length < to && ranking[i]
            == candidate_for(ciphertext, ranking[i].length as int)
    &&& forall|length: int|
        from <= length < to ==> ranking.contains(#[trigger] candidate_for(ciphertext, length))
    &&& forall|i: int, j: int|
        0 <= i < j < ranking.len() ==> better(#[trigger] ranking[i], #[trigger] ranking[j])
}

/// The lowest key length to try.
spec fn lowest_length(min_len: u32) -> int {
    if min_len < 2 {
        2
    } else {
        min_len as int
    }
}

/// The highest key length to try in a ciphertext of `len` bytes.
spec fn highest_length(len: nat, max_len: u32) -> int {
    if max_len <= len / 2 {
        max_len as int
    } else {
        (len / 2) as int
    }
}

/// Whether `ranking` is the estimate for a ciphertext: the candidates of
/// exactly the eligible key lengths, best first.
pub open spec fn is_estimate(
    ciphertext: Seq<u8>,
    min_len: u32,
    max_len: u32,
    ranking: Seq<KeyLengthCandidate>,
) -> bool {
    &&& forall|i: int|
        0 <= i < ranking.len() ==> eligible(
            ciphertext.len(),
            min_len,
            max_len,
            (#[trigger] ranking[i]).length as int,
        ) && ranking[i] == candidate_for(ciphertext, ranking[i].length as int)
    &&& forall|length: int|
        eligible(ciphertext.len(), min_len, max_len, length) ==> ranking.contains(
            #[trigger] candidate_for(ciphertext, length),
        )
    &&& forall|i: int, j: int|
        0 <= i < j < ranking.len() ==> better(#[trigger] ranking[i], #[trigger] ranking[j])
}

/// An estimate ranks the lengths from the lowest to the highest to try.
proof fn lemma_estimate_ranks(
    ciphertext: Seq<u8>,
    min_len: u32,
    max_len: u32,
    ranking: Seq<KeyLengthCandidate>,
)
    ensures
        is_estimate(ciphertext, min_len, max_len, ranking) <==> ranks_lengths(
            ciphertext,
            lowest_length(min_len),
            highest_length(ciphertext.len(), max_len) + 1,
            ranking,
        ),
{
    assert forall|length: int|
        eligible(ciphertext.len(), min_len, max_len, length) <==> lowest_length(min_len) <= length
            < highest_length(ciphertext.len(), max_len) + 1 by {
        lemma_eligible_range(ciphertext.len(), min_len, max_len, length);
    }
}

/// The lengths between the lowest and the highest to try are the eligible ones.
proof fn lemma_eligible_range(len: nat, min_len: u32, max_len: u32, length: int)
    ensures
        eligible(len, min_len, max_len, length) <==> lowest_length(min_len) <= length
            <= highest_length(len, max_len),
{
}

/// The order of candidates is transitive.
pub proof fn lemma_better_transitive(a: KeyLengthCandidate, b: KeyLengthCandidate, c: KeyLengthCandidate)
    requires
        a.length > 0,
        b.length > 0,
        c.length > 0,
        better(a, b),
        better(b, c),
    ensures
        better(a, c),
{
    let da = a.distance as int;
    let db = b.distance as int;
    let dc = c.distance as int;
    let la = a.length as int;
    let lb = b.length as int;
    let lc = c.length as int;
    assert(da * lb <= db * la);
    assert(db * lc <= dc * lb);
    assert((da * lc) * lb <= (dc * la) * lb) by (nonlinear_arith)
        requires
            da * lb <= db * la,
            db * lc <= dc * lb,
            la > 0,
            lb > 0,
            lc > 0,
            da >= 0,
            db >= 0,
            dc >= 0,
    {
        assert((da * lb) * lc <= (db * la) * lc);
        assert((db * lc) * la <= (dc * lb) * la);
    }
    assert(da * lc <= dc * la) by (nonlinear_arith)
        requires
            (da * lc) * lb <= (dc * la) * lb,
            lb > 0,
    ;
    if da * lc == dc * la {
        assert(da * lb == db * la && db * lc == dc * lb) by (nonlinear_arith)
            requires
                da * lb <= db * la,
                db * lc <= dc * lb,
                da * lc == dc * la,
                la > 0,
                lb > 0,
                lc > 0,
                da >= 0,
                db >= 0,
                dc >= 0,
        {
            assert((da * lb) * lc <= (db * la) * lc);
            assert((db * lc) * la <= (dc * lb) * la);
            assert((da * lc) * lb == (dc * la) * lb);
            assert((da * lb) * lc == (db * la) * lc);
            assert((db * lc) * la == (dc * lb) * la);
        }
    }
}

/// Of two candidates of different lengths, one ranks before the other.
pub proof fn lemma_better_total(a: KeyLengthCandidate, b: KeyLengthCandidate)
    requires
        a.length != b.length,
    ensures
        better(a, b) || better(b, a),
        !(better(a, b) && better(b, a)),
{
}

/// The product of a distance and a length fits in 128 bits.
proof fn lemma_product_fits(distance: u64, length: u32)
    ensures
        0 <= distance * length <= u128::MAX,
{
    assert(0 <= distance * length <= 0xffff_ffff_ffff_ffff * 0xffff_ffff) by (nonlinear_arith)
        requires
            0 <= distance <= 0xffff_ffff_ffff_ffff,
            0 <= length <= 0xffff_ffff,
    ;
}

/// Compares two candidates.
pub fn is_better(a: &KeyLengthCandidate, b: &KeyLengthCandidate) -> (r: bool)
    ensures
        r == better(*a, *b),
{
    proof {
        lemma_product_fits(a.distance, b.length);
        lemma_product_fits(b.distance, a.length);
    }
    let left: u128 = (a.distance as u128) * (b.length as u128);
    let right: u128 = (b.distance as u128) * (a.length as u128);
    left < right || (left == right && a.length < b.length)
}

/// The candidate for one key length.
pub(crate) fn candidate(ciphertext: &[u8], length: u32) -> (c: KeyLengthCandidate)
    requires
        length >= 1,
        2 * length <= ciphertext@.len(),
    ensures
        c == candidate_for(ciphertext@, length as int),
        c.distance <= 8 * length,
{
    let n: usize = ciphertext.len();
    let l: usize = length as usize;
    assert(2 * l <= n);
    let first = slice_subrange(ciphertext, 0, l);
    let second = slice_subrange(ciphertext, l, 2 * l);
    KeyLengthCandidate { length, distance: distance_of(first, second) as u64 }
}

/// Inserting the candidate of the next length at its place keeps a ranking.
proof fn lemma_insert_candidate(
    ciphertext: Seq<u8>,
    from: int,
    to: int,
    ranking: Seq<KeyLengthCandidate>,
    place: int,
)
    requires
        1 <= from <= to <= u32::MAX,
        ranks_lengths(ciphertext, from, to, ranking),
        0 <= place <= ranking.len(),
        forall|i: int| 0 <= i < place ==> !better(candidate_for(ciphertext, to), #[trigger] ranking[i]),
        place < ranking.len() ==> better(candidate_for(ciphertext, to), ranking[place]),
    ensures
        ranks_lengths(ciphertext, from, to + 1, ranking.insert(place, candidate_for(ciphertext, to))),
{
    let cand = candidate_for(ciphertext, to);
    let grown = ranking.insert(place, cand);
    assert(cand.length == to);
    assert forall|i: int| 0 <= i < grown.len() implies from <= (#[trigger] grown[i]).length < to + 1
        && grown[i] == candidate_for(ciphertext, grown[i].length as int) by {
        if i < place {
            assert(grown[i] == ranking[i]);
        } else if i > place {
            assert(grown[i] == ranking[i - 1]);
        }
    }
    assert forall|length: int| from <= length < to + 1 implies grown.contains(
        #[trigger] candidate_for(ciphertext, length),
    ) by {
        if length == to {
            assert(grown[place] == cand);
        } else {
            assert(ranking.contains(candidate_for(ciphertext, length)));
            let i = choose|i: int|
                0 <= i < ranking.len() && ranking[i] == candidate_for(ciphertext, length);
            if i < place {
                assert(grown[i] == ranking[i]);
            } else {
                assert(grown[i + 1] == ranking[i]);
            }
        }
    }
    assert forall|i: int, j: int| 0 <= i < j < grown.len() implies better(
        #[trigger] grown[i],
        #[trigger] grown[j],
    ) by {
        if j < place {
            assert(grown[i] == ranking[i] && grown[j] == ranking[j]);
        } else if i > place {
            assert(grown[i] == ranking[i - 1] && grown[j] == ranking[j - 1]);
        } else if i < place && j > place {
            assert(grown[i] == ranking[i] && grown[j] == ranking[j - 1]);
        } else if j == place {
            assert(grown[i] == ranking[i]);
            lemma_better_total(cand, ranking[i]);
        } else {
            assert(i == place);
            assert(grown[j] == ranking[j - 1]);
            if j - 1 > place {
                assert(better(ranking[place], ranking[j - 1]));
                lemma_better_transitive(cand, ranking[place], ranking[j - 1]);
            }
        }
    }
}

/// Ranks the key lengths from `min_len` to `max_len` that are at least 2 and
/// leave two full blocks in the ciphertext, by the Hamming distance of the
/// first two blocks divided by the length, lowest first; of two lengths with
/// one score the smaller comes first. Where no length is eligible the input
/// is rejected.
pub fn estimate(ciphertext: &[u8], min_len: u32, max_len: u32) -> (out: Result<
    Vec<KeyLengthCandidate>,
    CryptoError,
>)
    ensures
        match out {
            Ok(ranking) => ranking@.len() > 0 && is_estimate(
                ciphertext@,
                min_len,
                max_len,
                ranking@,
            ),
            Err(e) => e == CryptoError::InvalidInput && forall|length: int|
                !eligible(ciphertext@.len(), min_len, max_len, length),
        },
{
    let half: usize = ciphertext.len() / 2;
    let lo: u32 = if min_len < 2 {
        2
    } else {
        min_len
    };
    let hi: u32 = if max_len as usize <= half {
        max_len
    } else {
        half as u32
    };
    if lo > hi {
        return Err(CryptoError::InvalidInput);
    }
    let mut ranking: Vec<KeyLengthCandidate> = Vec::new();
    let mut length: u64 = lo as u64;
    while length <= hi as u64
        invariant
            2 <= lo <= length <= hi + 1,
            2 * hi <= ciphertext@.len(),
            ranks_lengths(ciphertext@, lo as int, length as int, ranking@),
            ranking@.len() == length - lo,
        decreases hi + 1 - length,
    {
        let cand = candidate(ciphertext, length as u32);
        let mut place: usize = 0;
        while place < ranking.len() && !is_better(&cand, &ranking[place])
            invariant
                place <= ranking.len(),
                forall|i: int| 0 <= i < place ==> !better(cand, #[trigger] ranking@[i]),
            decreases ranking.len() - place,
        {
            place += 1;
        }
        proof {
            lemma_insert_candidate(ciphertext@, lo as int, length as int, ranking@, place as int);
        }
        ranking.insert(place, cand);
        length += 1;
    }
    proof {
        lemma_estimate_ranks(ciphertext@, min_len, max_len, ranking@);
    }
    Ok(ranking)
}

/// The estimate is determined by the ciphertext and the range: two rankings
/// of the same candidates are the same ranking.
pub proof fn lemma_estimate_unique(
    ciphertext: Seq<u8>,
    min_len: u32,
    max_len: u32,
    first: Seq<KeyLengthCandidate>,
    second: Seq<KeyLengthCandidate>,
)
    requires
        is_estimate(ciphertext, min_len, max_len, first),
        is_estimate(ciphertext, min_len, max_len, second),
    ensures
        first == second,
{
    let from = lowest_length(min_len);
    let to = highest_length(ciphertext.len(), max_len) + 1;
    lemma_estimate_ranks(ciphertext, min_len, max_len, first);
    lemma_estimate_ranks(ciphertext, min_len, max_len, second);
    lemma_same_prefix(ciphertext, from, to, first, second, first.len() as int);
    lemma_same_prefix(ciphertext, from, to, second, first, second.len() as int);
    lemma_length_bound(ciphertext, from, to, first, second);
    lemma_length_bound(ciphertext, from, to, second, first);
    assert(first =~= second);
}

/// Two rankings of the same lengths agree on their first `n` places.
proof fn lemma_same_prefix(
    ciphertext: Seq<u8>,
    from: int,
    to: int,
    first: Seq<KeyLengthCandidate>,
    second: Seq<KeyLengthCandidate>,
    n: int,
)
    requires
        ranks_lengths(ciphertext, from, to, first),
        ranks_lengths(ciphertext, from, to, second),
        0 <= n <= first.len(),
    ensures
        forall|i: int| 0 <= i < n && i < second.len() ==> first[i] == second[i],
    decreases n,
{
    if n > 0 {
        lemma_same_prefix(ciphertext, from, to, first, second, n - 1);
        let i = n - 1;
        if i < second.len() {
            let a = first[i];
            let b = second[i];
            assert(second.contains(candidate_for(ciphertext, a.length as int)));
            let m = choose|m: int| 0 <= m < second.len() && second[m] == a;
            assert(first.contains(candidate_for(ciphertext, b.length as int)));
            let k = choose|k: int| 0 <= k < first.len() && first[k] == b;
            if m < i {
                assert(first[m] == second[m]);
                assert(better(first[m], first[i]));
            }
            if k < i {
                assert(first[k] == second[k]);
                assert(better(second[k], second[i]));
            }
            if m > i && k > i {
                assert(better(second[i], second[m]));
                assert(better(first[i], first[k]));
            }
        }
    }
}

/// A ranking is no longer than another ranking of the same lengths that
/// agrees with it place by place.
proof fn lemma_length_bound(
    ciphertext: Seq<u8>,
    from: int,
    to: int,
    shorter: Seq<KeyLengthCandidate>,
    longer: Seq<KeyLengthCandidate>,
)
    requires
        ranks_lengths(ciphertext, from, to, shorter),
        ranks_lengths(ciphertext, from, to, longer),
        forall|i: int| 0 <= i < shorter.len() && i < longer.len() ==> shorter[i] == longer[i],
    ensures
        longer.len() <= shorter.len(),
{
    if shorter.len() < longer.len() {
        let extra = longer[shorter.len() as int];
        assert(shorter.contains(candidate_for(ciphertext, extra.length as int)));
        let m = choose|m: int| 0 <= m < shorter.len() && shorter[m] == extra;
        assert(longer[m] == shorter[m]);
        assert(better(longer[m], longer[shorter.len() as int]));
    }
}

} // verus!
