use vstd::prelude::*;
use crate::matrix::{DistanceMatrix, row_mean, row_sum};

verus! {

/// Scores at or below this cut point (0.60) fall in the most dangerous tier.
pub const DANGER_CUTOFF: i64 = 600_000_000;

/// Scores above `DANGER_CUTOFF` and at or below this cut point (0.80) fall in
/// the moderately safe tier; higher scores in the safest.
pub const SAFE_CUTOFF: i64 = 800_000_000;

/// The share of entities (0.25) that `rank_and_bucket` puts in each outer tier.
pub const BUCKET_FRACTION: u64 = 250_000_000;

/// The three ordered tiers.
#[derive(Debug, Clone, Copy, PartialEq, Eq, Hash, Structural)]
pub enum Tier {
    MostDangerous,
    ModeratelySafe,
    Safest,
}

/// The tier that the threshold policy gives a score.
pub open spec fn tier_of(score: int) -> Tier {
    if score <= DANGER_CUTOFF {
        Tier::MostDangerous
    } else if score <= SAFE_CUTOFF {
        Tier::ModeratelySafe
    } else {
        Tier::Safest
    }
}

pub open spec fn tier_index(t: Tier) -> usize {
    match t {
        Tier::MostDangerous => 0,
        Tier::ModeratelySafe => 1,
        Tier::Safest => 2,
    }
}

impl Tier {
    /// The tier's position in the order: 0 most dangerous, 2 safest.
    pub fn index(&self) -> (r: usize)
        ensures
            r == tier_index(*self),
    {
        match self {
            Tier::MostDangerous => 0,
            Tier::ModeratelySafe => 1,
            Tier::Safest => 2,
        }
    }
}

/// Classifies a score: at most 0.60 is most dangerous, at most 0.80
/// moderately safe, above that safest.
pub fn classify_by_score(score: i64) -> (r: Tier)
    ensures
        r == tier_of(score as int),
{
    if score <= DANGER_CUTOFF {
        Tier::MostDangerous
    } else if score <= SAFE_CUTOFF {
        Tier::ModeratelySafe
    } else {
        Tier::Safest
    }
}

/// Classifies row `row` of a distance matrix by the mean of the row (all its
/// cells, the zero diagonal included), under the thresholds of
/// `classify_by_score`.
pub fn classify_by_matrix_row_mean(m: &DistanceMatrix, row: usize) -> (r: Tier)
    requires
        row < m@.len(),
        row_sum(m@[row as int]) <= u64::MAX,
    ensures
        r == tier_of(row_mean(m@, row as int)),
{
    let mean = m.row_mean(row);
    if mean <= DANGER_CUTOFF as u64 {
        Tier::MostDangerous
    } else if mean <= SAFE_CUTOFF as u64 {
        Tier::ModeratelySafe
    } else {
        Tier::Safest
    }
}

/// Places each entity in a tier by the mean of its row of the distance
/// matrix and returns the tiers' indices (0 most dangerous, 1 moderately
/// safe, 2 safest). `scores` is not consulted.
pub fn simple_clustering(similarity_matrix: &DistanceMatrix, scores: Vec<i64>) -> (r: Vec<usize>)
    requires
        forall|i: int|
            0 <= i < similarity_matrix@.len() ==> #[trigger] row_sum(similarity_matrix@[i])
                <= u64::MAX,
    ensures
        r@.len() == similarity_matrix@.len(),
        forall|i: int|
            0 <= i < r@.len() ==> #[trigger] r@[i] == tier_index(
                tier_of(row_mean(similarity_matrix@, i)),
            ),
{
    let n = similarity_matrix.size();
    let mut clusters: Vec<usize> = Vec::new();
    let mut i: usize = 0;
    while i < n
        invariant
            n == similarity_matrix@.len(),
            forall|p: int|
                0 <= p < similarity_matrix@.len() ==> #[trigger] row_sum(similarity_matrix@[p])
                    <= u64::MAX,
            i <= n,
            clusters@.len() == i,
            forall|p: int|
                0 <= p < i ==> #[trigger] clusters@[p] == tier_index(
                    tier_of(row_mean(similarity_matrix@, p)),
                ),
        decreases n - i,
    {
        let t = classify_by_matrix_row_mean(similarity_matrix, i);
        clusters.push(t.index());
        i = i + 1;
    }
    clusters
}

} // verus!
