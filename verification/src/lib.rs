pub mod cosine;
pub mod counts;
pub mod dataset;
pub mod factorization;
pub mod fixed;
pub mod ingest;
pub mod item_index;
pub mod math;
pub mod model;
pub mod score;
pub mod similarity;

use vstd::prelude::*;

verus! {

/// Number of neighbours kept per item in a trained similarity table.
pub const TOP_K: usize = 10;

} // verus!
