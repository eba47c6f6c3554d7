use vstd::prelude::*;
use crate::fixed::SCALE;
use crate::tiers::BUCKET_FRACTION;

verus! {

/// Entity `x` comes before entity `y`: a higher score, or an equal score and
/// an earlier position in the input.
pub open spec fn ranks_before(s: Seq<i64>, x: int, y: int) -> bool {
    s[x] > s[y] || (s[x] == s[y] && x < y)
}

/// `o` lists every entity index once, by score from highest to lowest, ties
/// in input order.
pub open spec fn is_rank_order(s: Seq<i64>, o: Seq<usize>) -> bool {
    &&& o.len() == s.len()
    &&& forall|i: int| 0 <= i < o.len() ==> #[trigger] o[i] < s.len()
    &&& forall|k: int| 0 <= k < s.len() ==> #[trigger] o.contains(k as usize)
    &&& forall|i: int, j: int|
        0 <= i < j < o.len() ==> ranks_before(s, #[trigger] o[i] as int, #[trigger] o[j] as int)
}

/// The size of the safest bucket: `fraction` (in units of `SCALE`) of `n`,
/// rounded down, and at most `n`.
pub open spec fn top_count(n: int, fraction: int) -> int {
    let k = n * fraction / (SCALE as int);
    if k <= n {
        k
    } else {
        n
    }
}

/// The size of the most dangerous bucket: the same share, but no more than
/// what the safest bucket left.
pub open spec fn bottom_count(n: int, fraction: int) -> int {
    let k = n * fraction / (SCALE as int);
    if k <= n - top_count(n, fraction) {
        k
    } else {
        n - top_count(n, fraction)
    }
}

/// Entity indices in three tiers.
pub struct Buckets {
    pub most_safe: Vec<usize>,
    pub moderately_safe: Vec<usize>,
    pub most_dangerous: Vec<usize>,
}

/// Orders the entity indices by score, highest first; equal scores keep
/// their input order.
pub fn rank_order(scores: &Vec<i64>) -> (r: Vec<usize>)
    ensures
        is_rank_order(scores@, r@),
{
    let n = scores.len();
    let mut order: Vec<usize> = Vec::new();
    let mut idx: usize = 0;
    while idx < n
        invariant
            n == scores@.len(),
            idx <= n,
            order@.len() == idx,
            forall|i: int| 0 <= i < order@.len() ==> #[trigger] order@[i] < idx,
            forall|k: int| 0 <= k < idx ==> #[trigger] order@.contains(k as usize),
            forall|i: int, j: int|
                0 <= i < j < order@.len() ==> ranks_before(
                    scores@,
                    #[trigger] order@[i] as int,
                    #[trigger] order@[j] as int,
                ),
        decreases n - idx,
    {
        let mut p: usize = 0;
        while p < order.len() && scores[order[p]] >= scores[idx]
            invariant
                n == scores@.len(),
                idx < n,
                p <= order@.len(),
                forall|i: int| 0 <= i < order@.len() ==> #[trigger] order@[i] < idx,
                forall|i: int| 0 <= i < p ==> scores@[#[trigger] order@[i] as int] >= scores@[idx as int],
            decreases order@.len() - p,
        {
            p = p + 1;
        }
        let ghost prev = order@;
        order.insert(p, idx);
        proof {
            let w = order@;
            assert(w == prev.insert(p as int, idx));
            assert forall|i: int| 0 <= i < w.len() implies #[trigger] w[i] < idx + 1 by {
                if i > p {
                    assert(w[i] == prev[i - 1]);
                }
            }
            assert forall|k: int| 0 <= k < idx + 1 implies #[trigger] w.contains(k as usize) by {
                if k == idx {
                    assert(w[p as int] == idx);
                } else {
                    assert(prev.contains(k as usize));
                    let t = choose|t: int| 0 <= t < prev.len() && prev[t] == k as usize;
                    if t < p {
                        assert(w[t] == k as usize);
                    } else {
                        assert(w[t + 1] == k as usize);
                    }
                }
            }
            assert forall|a: int, b: int| 0 <= a < b < w.len() implies ranks_before(
                scores@,
                #[trigger] w[a] as int,
                #[trigger] w[b] as int,
            ) by {
                if b < p {
                    assert(w[a] == prev[a] && w[b] == prev[b]);
                } else if b == p {
                    assert(w[a] == prev[a]);
                    assert(scores@[prev[a] as int] >= scores@[idx as int]);
                } else if a < p {
                    assert(w[a] == prev[a] && w[b] == prev[b - 1]);
                } else if a == p {
                    assert(w[b] == prev[b - 1]);
                    assert(p < prev.len());
                    assert(scores@[prev[p as int] as int] < scores@[idx as int]);
                    if b - 1 > p {
                        assert(ranks_before(scores@, prev[p as int] as int, prev[b - 1] as int));
                    }
                } else {
                    assert(w[a] == prev[a - 1] && w[b] == prev[b - 1]);
                }
            }
        }
        idx = idx + 1;
    }
    order
}

/// Copies `o[from..to]`.
fn slice_of(o: &Vec<usize>, from: usize, to: usize) -> (r: Vec<usize>)
    requires
        from <= to <= o@.len(),
    ensures
        r@ == o@.subrange(from as int, to as int),
{
    let mut r: Vec<usize> = Vec::new();
    let mut i: usize = from;
    while i < to
        invariant
            from <= i <= to <= o@.len(),
            r@ == o@.subrange(from as int, i as int),
        decreases to - i,
    {
        r.push(o[i]);
        assert(r@ =~= o@.subrange(from as int, i + 1));
        i = i + 1;
    }
    r
}

/// Splits the entities by rank: the top `fraction` (in units of `SCALE`,
/// rounded down) is the safest bucket, as many from the bottom the most
/// dangerous, and the rest in between. Ties keep their input order.
pub fn rank_and_bucket(scores: &Vec<i64>, fraction: u64) -> (r: Buckets)
    ensures
        is_rank_order(scores@, r.most_safe@ + r.moderately_safe@ + r.most_dangerous@),
        r.most_safe@.len() == top_count(scores@.len() as int, fraction as int),
        r.most_dangerous@.len() == bottom_count(scores@.len() as int, fraction as int),
{
    let order = rank_order(scores);
    let n = order.len();
    assert((n as u128) * (fraction as u128) <= 0xFFFF_FFFF_FFFF_FFFFu128 * 0xFFFF_FFFF_FFFF_FFFFu128)
        by (nonlinear_arith)
        requires n <= 0xFFFF_FFFF_FFFF_FFFFu128, fraction <= 0xFFFF_FFFF_FFFF_FFFFu128;
    let k128: u128 = (n as u128) * (fraction as u128) / (SCALE as u128);
    let top: usize = if k128 <= n as u128 {
        k128 as usize
    } else {
        n
    };
    let bottom: usize = if k128 <= (n - top) as u128 {
        k128 as usize
    } else {
        n - top
    };
    let most_safe = slice_of(&order, 0, top);
    let moderately_safe = slice_of(&order, top, n - bottom);
    let most_dangerous = slice_of(&order, n - bottom, n);
    assert(most_safe@ + moderately_safe@ + most_dangerous@ =~= order@);
    Buckets { most_safe, moderately_safe, most_dangerous }
}

/// Ranks at the default fraction (a quarter of the entities in each outer
/// bucket).
pub fn rank_and_bucket_default(scores: &Vec<i64>) -> (r: Buckets)
    ensures
        is_rank_order(scores@, r.most_safe@ + r.moderately_safe@ + r.most_dangerous@),
        r.most_safe@.len() == scores@.len() / 4,
        r.most_dangerous@.len() == scores@.len() / 4,
        r.moderately_safe@.len() == scores@.len() - 2 * (scores@.len() / 4),
{
    let r = rank_and_bucket(scores, BUCKET_FRACTION);
    proof {
        lemma_quarter_counts(scores@.len() as int);
    }
    r
}

/// With the default fraction, each outer bucket holds a quarter of the `n`
/// entities rounded down, and the middle bucket the remainder.
pub proof fn lemma_quarter_counts(n: int)
    requires
        n >= 0,
    ensures
        top_count(n, BUCKET_FRACTION as int) == n / 4,
        bottom_count(n, BUCKET_FRACTION as int) == n / 4,
        n - top_count(n, BUCKET_FRACTION as int) - bottom_count(n, BUCKET_FRACTION as int) == n
            - 2 * (n / 4),
{
    assert(n * 250_000_000 / 1_000_000_000 == n / 4) by (nonlinear_arith)
        requires n >= 0;
}

/// A rank order holds each entity index exactly once.
pub proof fn lemma_rank_order_is_permutation(s: Seq<i64>, o: Seq<usize>)
    requires
        is_rank_order(s, o),
    ensures
        o.no_duplicates(),
        forall|k: int| 0 <= k < s.len() ==> #[trigger] o.contains(k as usize),
{
    assert forall|i: int, j: int| 0 <= i < o.len() && 0 <= j < o.len() && i != j implies o[i]
        != o[j] by {
        if i < j {
            assert(ranks_before(s, o[i] as int, o[j] as int));
        } else {
            assert(ranks_before(s, o[j] as int, o[i] as int));
        }
    }
}

/// The three buckets of a rank order partition the entities: each index lies
/// in exactly one bucket, once.
pub proof fn lemma_buckets_partition(s: Seq<i64>, a: Seq<usize>, b: Seq<usize>, c: Seq<usize>)
    requires
        is_rank_order(s, a + b + c),
    ensures
        a.len() + b.len() + c.len() == s.len(),
        (a + b + c).no_duplicates(),
        forall|k: int|
            0 <= k < s.len() ==> {
                ||| (#[trigger] a.contains(k as usize) && !b.contains(k as usize) && !c.contains(
                    k as usize,
                ))
                ||| (!a.contains(k as usize) && b.contains(k as usize) && !c.contains(k as usize))
                ||| (!a.contains(k as usize) && !b.contains(k as usize) && c.contains(k as usize))
            },
{
    let o = a + b + c;
    lemma_rank_order_is_permutation(s, o);
    assert forall|k: int| 0 <= k < s.len() implies {
        ||| (#[trigger] a.contains(k as usize) && !b.contains(k as usize) && !c.contains(
            k as usize,
        ))
        ||| (!a.contains(k as usize) && b.contains(k as usize) && !c.contains(k as usize))
        ||| (!a.contains(k as usize) && !b.contains(k as usize) && c.contains(k as usize))
    } by {
        let v = k as usize;
        assert(o.contains(v));
        let t = choose|t: int| 0 <= t < o.len() && o[t] == v;
        if a.contains(v) {
            let x = choose|x: int| 0 <= x < a.len() && a[x] == v;
            assert(o[x] == v);
        }
        if b.contains(v) {
            let x = choose|x: int| 0 <= x < b.len() && b[x] == v;
            assert(o[a.len() + x] == v);
        }
        if c.contains(v) {
            let x = choose|x: int| 0 <= x < c.len() && c[x] == v;
            assert(o[a.len() + b.len() + x] == v);
        }
        if t < a.len() {
            assert(a[t] == v);
        } else if t < a.len() + b.len() {
            assert(b[t - a.len()] == v);
        } else {
            assert(c[t - a.len() - b.len()] == v);
        }
    }
}

} // verus!
