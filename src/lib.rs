//! Item-to-item recommendations: a catalog's numeric and categorical columns become a
//! fixed-point feature matrix (min-max normalized numbers, one-hot categories), and each
//! item gets the list of the items most cosine-similar to it.

use vstd::prelude::*;

pub mod features;
pub mod graph;
pub mod matrix;
pub mod similarity;
pub mod vocab;

pub use features::{build_feature_matrix, column_index, FeatureError};
pub use graph::{recommend, Graph};
pub use matrix::{FeatureMatrix, FEATURE_ONE, MAX_FEATURE_LEN};
pub use similarity::build_graph_from_features;
pub use vocab::vocabulary;

verus! {

} // verus!
