use vstd::prelude::*;

verus! {

/// Why a training run or a query failed.
///
/// `DegenerateSimilarity` is deliberately absent: a zero-norm vector is
/// recovered locally by treating the similarity as zero, never reported.
#[derive(Clone, Copy, Debug, PartialEq, Eq, Structural)]
pub enum EngineError {
    /// A query was issued before a successful training run.
    NotTrained,
    /// A query named an identifier that was never observed.
    UnknownIdentifier,
    /// A numeric value left the representable range during training
    /// (divergence); the prior trained state is left intact.
    NumericInstability,
    /// Training was invoked with no events, or with zero users or items.
    EmptyCorpus,
    /// A dense index was looked up beyond the size of the mapping.
    OutOfRange,
}

/// One implicit interaction: a user touched an item. Repeats accumulate as
/// counts; there is no weight and no timestamp.
#[derive(Clone, Debug)]
pub struct Event {
    user_id: String,
    target_id: String,
}

impl Event {
    /// The user identifier, as a mathematical sequence of characters.
    pub closed spec fn user(self) -> Seq<char> {
        self.user_id@
    }

    /// The item identifier, as a mathematical sequence of characters.
    pub closed spec fn target(self) -> Seq<char> {
        self.target_id@
    }

    pub fn new(user_id: String, target_id: String) -> (e: Event)
        ensures
            e.user() == user_id@,
            e.target() == target_id@,
    {
        Event { user_id, target_id }
    }

    pub fn user_id(&self) -> (r: &str)
        ensures
            r@ == self.user(),
    {
        self.user_id.as_str()
    }

    pub fn target_id(&self) -> (r: &str)
        ensures
            r@ == self.target(),
    {
        self.target_id.as_str()
    }
}

/// A ranked list of recommended identifiers, best first.
pub struct RecommendationResponse {
    recommendations: Vec<String>,
}

impl RecommendationResponse {
    /// The recommended identifiers as sequences of characters, best first.
    pub closed spec fn ids(self) -> Seq<Seq<char>> {
        self.recommendations@.map_values(|s: String| s@)
    }

    pub fn new(recommendations: Vec<String>) -> (r: RecommendationResponse)
        ensures
            r.ids() == recommendations@.map_values(|s: String| s@),
    {
        RecommendationResponse { recommendations }
    }

    pub fn recommendations(&self) -> (r: &Vec<String>)
        ensures
            r@.map_values(|s: String| s@) == self.ids(),
    {
        &self.recommendations
    }
}

} // verus!
