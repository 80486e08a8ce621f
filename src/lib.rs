//! A Burkhard-Keller tree: an index over a discrete metric space that answers
//! "which stored items lie within distance `d` of this query" while pruning
//! subtrees by the triangle inequality.

pub mod distance;
pub mod tree;

pub use distance::{
    aligned_distance, levenshtein_distance, AlignedDistance, Distance, HammingDistance,
    LevenshteinDistance,
};
pub use tree::{BkTree, IntoIter, Iter};
