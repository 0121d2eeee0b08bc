//! Byte frequencies: how often each byte occurs, and which occur most.

use vstd::prelude::*;

verus! {

/// How often the byte `b` occurs in `bytes`.
pub open spec fn count_of(bytes: Seq<u8>, b: u8) -> nat
    decreases bytes.len(),
{
    if bytes.len() == 0 {
        0
    } else {
        count_of(bytes.drop_last(), b) + if bytes.last() == b {
            1nat
        } else {
            0nat
        }
    }
}

/// No byte occurs more often than there are bytes.
pub proof fn lemma_count_bounded(bytes: Seq<u8>, b: u8)
    ensures
        count_of(bytes, b) <= bytes.len(),
    decreases bytes.len(),
{
    if bytes.len() > 0 {
        lemma_count_bounded(bytes.drop_last(), b);
    }
}

/// A table of 256 entries that holds, for every byte value, how often it
/// occurs in `bytes`.
pub open spec fn is_count_table(table: Seq<usize>, bytes: Seq<u8>) -> bool {
    &&& table.len() == 256
    &&& forall|b: u8| #[trigger] table[b as int] == count_of(bytes, b)
}

/// Counts how often each byte value occurs.
pub fn byte_counts(bytes: &[u8]) -> (table: Vec<usize>)
    ensures
        is_count_table(table@, bytes@),
{
    let mut table: Vec<usize> = Vec::new();
    let mut v: usize = 0;
    while v < 256
        invariant
            v <= 256,
            table.len() == v,
            forall|j: int| 0 <= j < v ==> table@[j] == 0,
        decreases 256 - v,
    {
        table.push(0);
        v += 1;
    }
    let mut i: usize = 0;
    while i < bytes.len()
        invariant
            i <= bytes.len(),
            table.len() == 256,
            forall|b: u8| #[trigger] table@[b as int] == count_of(bytes@.take(i as int), b),
        decreases bytes.len() - i,
    {
        let b: u8 = bytes[i];
        let ghost before = bytes@.take(i as int);
        let ghost after = bytes@.take(i + 1);
        proof {
            assert(after.drop_last() =~= before);
            assert(after.last() == b);
            lemma_count_bounded(before, b);
        }
        let old_count: usize = table[b as usize];
        table.set(b as usize, old_count + 1);
        i += 1;
    }
    assert(bytes@.take(i as int) =~= bytes@);
    table
}

/// Whether `a` ranks before `b` among the bytes of `bytes`: it occurs more
/// often, or as often and has the smaller value.
pub open spec fn precedes(bytes: Seq<u8>, a: u8, b: u8) -> bool {
    count_of(bytes, a) > count_of(bytes, b) || (count_of(bytes, a) == count_of(bytes, b) && a < b)
}

/// Whether `b` can stand right behind `after` in the ranking: it occurs,
/// and `after`, if there is one, ranks before it.
pub open spec fn may_follow(bytes: Seq<u8>, after: Option<u8>, b: u8) -> bool {
    count_of(bytes, b) > 0 && match after {
        Some(a) => precedes(bytes, a, b),
        None => true,
    }
}

/// The first in rank of the byte values below `limit` that may follow `after`.
pub open spec fn leader(bytes: Seq<u8>, after: Option<u8>, limit: nat) -> Option<u8>
    decreases limit,
{
    if limit == 0 {
        None
    } else {
        let b = (limit - 1) as u8;
        let rest = leader(bytes, after, (limit - 1) as nat);
        if may_follow(bytes, after, b) && (rest is None || precedes(bytes, b, rest.unwrap())) {
            Some(b)
        } else {
            rest
        }
    }
}

/// The last element of a ranking so far, if it has one.
pub open spec fn last_of(ranking: Seq<u8>) -> Option<u8> {
    if ranking.len() == 0 {
        None
    } else {
        Some(ranking.last())
    }
}

/// The `k` most frequent bytes of `bytes`, most frequent first; among bytes
/// that occur equally often the smaller value comes first. Where fewer than
/// `k` distinct bytes occur, all of them.
pub open spec fn top_bytes(bytes: Seq<u8>, k: nat) -> Seq<u8>
    decreases k,
{
    if k == 0 {
        Seq::empty()
    } else {
        let shorter = top_bytes(bytes, (k - 1) as nat);
        if shorter.len() < k - 1 {
            shorter
        } else {
            match leader(bytes, last_of(shorter), 256) {
                Some(b) => shorter.push(b),
                None => shorter,
            }
        }
    }
}

/// Once the ranking has run out of bytes, asking for more changes nothing.
pub proof fn lemma_top_bytes_stable(bytes: Seq<u8>, j: nat, k: nat)
    requires
        j <= k,
        top_bytes(bytes, j).len() < j,
    ensures
        top_bytes(bytes, k) == top_bytes(bytes, j),
    decreases k,
{
    if k > j {
        lemma_top_bytes_stable(bytes, j, (k - 1) as nat);
    }
}

/// What `leader` picks: a byte below the limit that may follow `after` and
/// ranks before every other such byte; none only where no byte may follow.
pub proof fn lemma_leader(bytes: Seq<u8>, after: Option<u8>, limit: nat)
    requires
        limit <= 256,
    ensures
        match leader(bytes, after, limit) {
            Some(b) => {
                &&& b < limit
                &&& may_follow(bytes, after, b)
                &&& forall|c: u8|
                    c < limit && #[trigger] may_follow(bytes, after, c) && c != b ==> precedes(
                        bytes,
                        b,
                        c,
                    )
            },
            None => forall|c: u8| c < limit ==> !#[trigger] may_follow(bytes, after, c),
        },
    decreases limit,
{
    if limit > 0 {
        lemma_leader(bytes, after, (limit - 1) as nat);
    }
}

/// Whether `ranking` lists the `k` most frequent bytes of `bytes`: at most
/// `k` bytes, each of which occurs, every one ranking before those behind
/// it, and every byte that occurs and is not listed ranking behind all `k`.
pub open spec fn is_ranking_of(bytes: Seq<u8>, k: nat, ranking: Seq<u8>) -> bool {
    &&& ranking.len() <= k
    &&& forall|i: int| 0 <= i < ranking.len() ==> count_of(bytes, #[trigger] ranking[i]) > 0
    &&& forall|i: int, j: int|
        0 <= i < j < ranking.len() ==> precedes(bytes, #[trigger] ranking[i], #[trigger] ranking[j])
    &&& forall|b: u8|
        #[trigger] count_of(bytes, b) > 0 && !ranking.contains(b) ==> ranking.len() == k
    &&& forall|b: u8, i: int|
        count_of(bytes, b) > 0 && !ranking.contains(b) && 0 <= i < ranking.len()
            ==> #[trigger] precedes(bytes, ranking[i], b)
}

/// `top_bytes` lists the `k` most frequent bytes, best first.
pub proof fn lemma_top_bytes_ranked(bytes: Seq<u8>, k: nat)
    ensures
        is_ranking_of(bytes, k, top_bytes(bytes, k)),
    decreases k,
{
    if k > 0 {
        let shorter = top_bytes(bytes, (k - 1) as nat);
        let ranking = top_bytes(bytes, k);
        lemma_top_bytes_ranked(bytes, (k - 1) as nat);
        lemma_leader(bytes, last_of(shorter), 256);
        if shorter.len() == k - 1 {
            match leader(bytes, last_of(shorter), 256) {
                Some(b) => {
                    assert(ranking == shorter.push(b));
                    assert forall|i: int| 0 <= i < ranking.len() implies count_of(
                        bytes,
                        #[trigger] ranking[i],
                    ) > 0 by {
                        if i < shorter.len() {
                            assert(ranking[i] == shorter[i]);
                        }
                    }
                    assert forall|i: int, j: int| 0 <= i < j < ranking.len() implies precedes(
                        bytes,
                        #[trigger] ranking[i],
                        #[trigger] ranking[j],
                    ) by {
                        assert(ranking[i] == shorter[i]);
                        if j < shorter.len() {
                            assert(ranking[j] == shorter[j]);
                        } else if i < shorter.len() - 1 {
                            assert(precedes(bytes, shorter[i], shorter[shorter.len() - 1]));
                        }
                    }
                    assert forall|c: u8, i: int|
                        count_of(bytes, c) > 0 && !ranking.contains(c) && 0 <= i
                            < ranking.len() implies #[trigger] precedes(bytes, ranking[i], c) by {
                        assert(ranking[shorter.len() as int] == b);
                        assert(c != b);
                        if shorter.contains(c) {
                            let at = choose|at: int| 0 <= at < shorter.len() && shorter[at] == c;
                            assert(ranking[at] == c);
                        }
                        if shorter.len() > 0 {
                            assert(precedes(bytes, shorter[shorter.len() - 1], c));
                        }
                        assert(may_follow(bytes, last_of(shorter), c));
                        if i < shorter.len() {
                            assert(ranking[i] == shorter[i]);
                        }
                    }
                },
                None => {
                    assert forall|c: u8| #[trigger] count_of(bytes, c) > 0 implies ranking.contains(
                        c,
                    ) by {
                        if !shorter.contains(c) {
                            if shorter.len() > 0 {
                                assert(precedes(bytes, shorter[shorter.len() - 1], c));
                            }
                            assert(may_follow(bytes, last_of(shorter), c));
                        }
                    }
                },
            }
        }
    }
}

/// Two rankings of the same bytes agree on their first `n` places.
proof fn lemma_rankings_agree(bytes: Seq<u8>, k: nat, first: Seq<u8>, second: Seq<u8>, n: int)
    requires
        is_ranking_of(bytes, k, first),
        is_ranking_of(bytes, k, second),
        0 <= n <= first.len(),
    ensures
        forall|i: int| 0 <= i < n && i < second.len() ==> first[i] == second[i],
    decreases n,
{
    if n > 0 {
        lemma_rankings_agree(bytes, k, first, second, n - 1);
        let i = n - 1;
        if i < second.len() {
            let a = first[i];
            let b = second[i];
            if second.contains(a) {
                let m = choose|m: int| 0 <= m < second.len() && second[m] == a;
                if m < i {
                    assert(first[m] == second[m]);
                    assert(precedes(bytes, first[m], first[i]));
                } else if m > i {
                    assert(precedes(bytes, second[i], second[m]));
                }
            } else {
                assert(precedes(bytes, second[i], a));
            }
            if first.contains(b) {
                let m = choose|m: int| 0 <= m < first.len() && first[m] == b;
                if m < i {
                    assert(first[m] == second[m]);
                    assert(precedes(bytes, second[m], second[i]));
                } else if m > i {
                    assert(precedes(bytes, first[i], first[m]));
                }
            } else {
                assert(precedes(bytes, first[i], b));
            }
        }
    }
}

/// A ranking is no longer than another ranking of the same bytes that
/// agrees with it place by place.
proof fn lemma_ranking_length(bytes: Seq<u8>, k: nat, shorter: Seq<u8>, longer: Seq<u8>)
    requires
        is_ranking_of(bytes, k, shorter),
        is_ranking_of(bytes, k, longer),
        forall|i: int| 0 <= i < shorter.len() && i < longer.len() ==> shorter[i] == longer[i],
    ensures
        longer.len() <= shorter.len(),
{
    if shorter.len() < longer.len() {
        let extra = longer[shorter.len() as int];
        assert(count_of(bytes, extra) > 0);
        if shorter.contains(extra) {
            let m = choose|m: int| 0 <= m < shorter.len() && shorter[m] == extra;
            assert(longer[m] == shorter[m]);
            assert(precedes(bytes, longer[m], longer[shorter.len() as int]));
        }
    }
}

/// The most frequent bytes have one ranking: whatever lists them best
/// first is `top_bytes`.
pub proof fn lemma_ranking_unique(bytes: Seq<u8>, k: nat, ranking: Seq<u8>)
    requires
        is_ranking_of(bytes, k, ranking),
    ensures
        ranking == top_bytes(bytes, k),
{
    let top = top_bytes(bytes, k);
    lemma_top_bytes_ranked(bytes, k);
    lemma_rankings_agree(bytes, k, ranking, top, ranking.len() as int);
    lemma_ranking_length(bytes, k, ranking, top);
    lemma_ranking_length(bytes, k, top, ranking);
    assert(ranking =~= top);
}

/// Whether `a` ranks before `b` by the counts in a table.
fn ranks_before(table: &Vec<usize>, a: u8, b: u8, Ghost(bytes): Ghost<Seq<u8>>) -> (r: bool)
    requires
        is_count_table(table@, bytes),
    ensures
        r == precedes(bytes, a, b),
{
    let ca: usize = table[a as usize];
    let cb: usize = table[b as usize];
    ca > cb || (ca == cb && a < b)
}

/// The first in rank of all bytes that may follow `after`.
fn find_leader(table: &Vec<usize>, after: Option<u8>, Ghost(bytes): Ghost<Seq<u8>>) -> (best: Option<u8>)
    requires
        is_count_table(table@, bytes),
    ensures
        best == leader(bytes, after, 256),
{
    let mut best: Option<u8> = None;
    let mut v: usize = 0;
    while v < 256
        invariant
            v <= 256,
            is_count_table(table@, bytes),
            best == leader(bytes, after, v as nat),
        decreases 256 - v,
    {
        let b: u8 = v as u8;
        let follows: bool = table[v] > 0 && match after {
            Some(a) => ranks_before(table, a, b, Ghost(bytes)),
            None => true,
        };
        if follows {
            let better: bool = match best {
                Some(c) => ranks_before(table, b, c, Ghost(bytes)),
                None => true,
            };
            if better {
                best = Some(b);
            }
        }
        v += 1;
    }
    best
}

/// The `k` most frequent bytes by the counts in a table.
pub(crate) fn top_of_table(table: &Vec<usize>, k: usize, Ghost(bytes): Ghost<Seq<u8>>) -> (ranking: Vec<u8>)
    requires
        is_count_table(table@, bytes),
    ensures
        ranking@ == top_bytes(bytes, k as nat),
{
    let mut ranking: Vec<u8> = Vec::new();
    while ranking.len() < k
        invariant
            is_count_table(table@, bytes),
            ranking.len() <= k,
            ranking@ == top_bytes(bytes, ranking.len() as nat),
        decreases k - ranking.len(),
    {
        let after: Option<u8> = if ranking.len() == 0 {
            None
        } else {
            Some(ranking[ranking.len() - 1])
        };
        match find_leader(table, after, Ghost(bytes)) {
            Some(b) => {
                ranking.push(b);
            },
            None => {
                proof {
                    lemma_top_bytes_stable(bytes, (ranking.len() + 1) as nat, k as nat);
                }
                return ranking;
            },
        }
    }
    ranking
}

/// The `k` most frequent bytes of `bytes`, most frequent first.
pub fn top_frequent(bytes: &[u8], k: usize) -> (ranking: Vec<u8>)
    ensures
        ranking@ == top_bytes(bytes@, k as nat),
{
    let table = byte_counts(bytes);
    top_of_table(&table, k, Ghost(bytes@))
}

} // verus!
