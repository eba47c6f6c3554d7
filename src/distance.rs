use vstd::prelude::*;

verus! {

/// Errors of the distance engine.
#[derive(Debug, Clone, Copy, PartialEq, Eq, Structural)]
pub enum DistanceError {
    /// The two vectors handed to `euclidean_distance` differ in length.
    DimensionMismatch,
    /// Entity `index` has another dimension than entity 0 (the least such index).
    InconsistentDimension { index: usize },
}

/// Sum of the squared differences of the first `n` coordinates.
pub open spec fn sq_sum(a: Seq<i64>, b: Seq<i64>, n: int) -> int
    decreases n,
{
    if n <= 0 {
        0
    } else {
        sq_sum(a, b, n - 1) + (a[n - 1] - b[n - 1]) * (a[n - 1] - b[n - 1])
    }
}

/// Squared Euclidean distance of two vectors of equal length.
pub open spec fn sq_dist(a: Seq<i64>, b: Seq<i64>) -> int {
    sq_sum(a, b, a.len() as int)
}

pub open spec fn is_floor_sqrt(x: int, r: int) -> bool {
    0 <= r && r * r <= x && x < (r + 1) * (r + 1)
}

/// The integer square root, rounded down.
pub open spec fn floor_sqrt(x: int) -> int {
    choose|r: int| is_floor_sqrt(x, r)
}

/// Euclidean distance, rounded down to a whole number of units.
pub open spec fn dist(a: Seq<i64>, b: Seq<i64>) -> int {
    floor_sqrt(sq_dist(a, b))
}

pub proof fn lemma_floor_sqrt_unique(x: int, r: int, s: int)
    requires
        is_floor_sqrt(x, r),
        is_floor_sqrt(x, s),
    ensures
        r == s,
{
    if r < s {
        assert((r + 1) * (r + 1) <= s * s) by (nonlinear_arith)
            requires 0 <= r, r + 1 <= s;
    } else if s < r {
        assert((s + 1) * (s + 1) <= r * r) by (nonlinear_arith)
            requires 0 <= s, s + 1 <= r;
    }
}

proof fn lemma_floor_sqrt_is(x: int, r: int)
    requires
        is_floor_sqrt(x, r),
    ensures
        floor_sqrt(x) == r,
{
    let s = floor_sqrt(x);
    assert(is_floor_sqrt(x, s));
    lemma_floor_sqrt_unique(x, r, s);
}

proof fn lemma_sq_sum_symmetric(a: Seq<i64>, b: Seq<i64>, n: int)
    ensures
        sq_sum(a, b, n) == sq_sum(b, a, n),
    decreases n,
{
    if n > 0 {
        lemma_sq_sum_symmetric(a, b, n - 1);
        assert((a[n - 1] - b[n - 1]) * (a[n - 1] - b[n - 1]) == (b[n - 1] - a[n - 1]) * (b[n
            - 1] - a[n - 1])) by (nonlinear_arith);
    }
}

proof fn lemma_sq_sum_self(a: Seq<i64>, n: int)
    ensures
        sq_sum(a, a, n) == 0,
    decreases n,
{
    if n > 0 {
        lemma_sq_sum_self(a, n - 1);
    }
}

proof fn lemma_sq_sum_monotone(a: Seq<i64>, b: Seq<i64>, m: int, n: int)
    requires
        0 <= m <= n,
    ensures
        0 <= sq_sum(a, b, m) <= sq_sum(a, b, n),
    decreases n,
{
    if n > m {
        lemma_sq_sum_monotone(a, b, m, n - 1);
        assert((a[n - 1] - b[n - 1]) * (a[n - 1] - b[n - 1]) >= 0) by (nonlinear_arith);
    } else if n > 0 {
        lemma_sq_sum_monotone(a, b, n - 1, n - 1);
        assert((a[n - 1] - b[n - 1]) * (a[n - 1] - b[n - 1]) >= 0) by (nonlinear_arith);
    }
}

/// The distance between two vectors of equal length does not depend on their
/// order, and a vector is at distance zero from itself.
pub proof fn lemma_dist_symmetric_and_zero(a: Seq<i64>, b: Seq<i64>)
    requires
        a.len() == b.len(),
    ensures
        dist(a, b) == dist(b, a),
        dist(a, a) == 0,
{
    lemma_sq_sum_symmetric(a, b, a.len() as int);
    lemma_sq_sum_self(a, a.len() as int);
    lemma_floor_sqrt_is(0, 0);
}

/// Integer square root of `x`, rounded down, by bisection.
pub fn floor_sqrt_u128(x: u128) -> (r: u64)
    ensures
        r as int == floor_sqrt(x as int),
{
    let mut lo: u128 = 0;
    let mut hi: u128 = 0x1_0000_0000_0000_0000;
    assert(x < hi * hi) by (nonlinear_arith)
        requires hi == 0x1_0000_0000_0000_0000u128, x <= u128::MAX;
    while hi - lo > 1
        invariant
            lo < hi <= 0x1_0000_0000_0000_0000,
            lo * lo <= x,
            x < hi * hi,
        decreases hi - lo,
    {
        let mid = lo + (hi - lo) / 2;
        assert(mid * mid <= 0xFFFF_FFFF_FFFF_FFFFu128 * 0xFFFF_FFFF_FFFF_FFFFu128) by (nonlinear_arith)
            requires mid <= 0xFFFF_FFFF_FFFF_FFFFu128;
        if mid * mid <= x {
            lo = mid;
        } else {
            hi = mid;
        }
    }
    proof {
        assert(hi == lo + 1);
        lemma_floor_sqrt_is(x as int, lo as int);
    }
    lo as u64
}

/// Distance of two vectors known to have the same length.
pub(crate) fn distance_same_len(a: &Vec<i64>, b: &Vec<i64>) -> (r: u64)
    requires
        a@.len() == b@.len(),
        sq_dist(a@, b@) <= u128::MAX,
    ensures
        r as int == dist(a@, b@),
{
    let n = a.len();
    let mut sum: u128 = 0;
    let mut k: usize = 0;
    while k < n
        invariant
            n == a@.len() == b@.len(),
            k <= n,
            sq_dist(a@, b@) <= u128::MAX,
            sum as int == sq_sum(a@, b@, k as int),
        decreases n - k,
    {
        let x = a[k];
        let y = b[k];
        let d: u128 = if x >= y {
            (x as i128 - y as i128) as u128
        } else {
            (y as i128 - x as i128) as u128
        };
        assert(d * d == (x - y) * (x - y)) by (nonlinear_arith)
            requires d == x - y || d == y - x;
        proof {
            lemma_sq_sum_monotone(a@, b@, k + 1, n as int);
        }
        sum = sum + d * d;
        k = k + 1;
    }
    floor_sqrt_u128(sum)
}

/// Euclidean distance between two score vectors, rounded down to whole units.
/// Vectors of different lengths are refused.
pub fn euclidean_distance(a: &Vec<i64>, b: &Vec<i64>) -> (r: Result<u64, DistanceError>)
    requires
        a@.len() == b@.len() ==> sq_dist(a@, b@) <= u128::MAX,
    ensures
        a@.len() != b@.len() <==> r == Err::<u64, DistanceError>(DistanceError::DimensionMismatch),
        a@.len() == b@.len() ==> r == Ok::<u64, DistanceError>(dist(a@, b@) as u64),
{
    if a.len() != b.len() {
        return Err(DistanceError::DimensionMismatch);
    }
    Ok(distance_same_len(a, b))
}

} // verus!
