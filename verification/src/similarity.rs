use vstd::prelude::*;

use crate::model::{EngineError, RecommendationResponse};

verus! {

/// The capability contract both engines implement: train on ingested
/// interactions, then answer ranked queries by user or by item. The exact
/// behaviour of each operation is stated on the engines' inherent methods;
/// the trait threads each engine's own invariant through the calls.
pub trait SimilarityEngine: Sized {
    /// The engine's well-formedness invariant.
    spec fn inv(&self) -> bool;

    fn train(&mut self) -> (r: Result<(), EngineError>)
        requires
            old(self).inv(),
        ensures
            final(self).inv(),
    ;

    fn find_similar_by_user_id(&self, user_id: String, n_items: usize) -> Result<
        RecommendationResponse,
        EngineError,
    >
        requires
            self.inv(),
    ;

    fn find_similar_by_target_id(&self, target_id: String, n_items: usize) -> Result<
        RecommendationResponse,
        EngineError,
    >
        requires
            self.inv(),
    ;
}

} // verus!
