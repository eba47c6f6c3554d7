//! Country indicator scores: pairwise distances between score vectors and
//! tier classification by thresholds or by rank.
//!
//! Scores are fixed-point integers counting billionths (see `fixed::SCALE`).

pub mod distance;
pub mod matrix;
pub mod fixed;
pub mod tiers;
pub mod rank;
pub mod frame;

pub use distance::{euclidean_distance, DistanceError};
pub use frame::{ColumnVal, DataFrame, LoadError, NAME_COLUMN, SCORE_COLUMN};
pub use matrix::{create_similarity_matrix, DistanceMatrix};
pub use rank::{rank_and_bucket, rank_and_bucket_default, rank_order, Buckets};
pub use tiers::{classify_by_matrix_row_mean, classify_by_score, simple_clustering, Tier};
