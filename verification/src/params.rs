//! The prover/verifier parameter bundle loaded from configuration.

use vstd::prelude::*;

verus! {

/// Optional FRI parameters; unset fields fall back to the caller's
/// defaults.
#[derive(Clone, Debug)]
pub struct Params {
    pub blowup_log2: Option<u32>,
    pub fri_rounds: Option<u32>,
    pub queries: Option<usize>,
}

impl Default for Params {
    /// The test-grade default parameter set.
    fn default() -> (r: Self)
        ensures
            r.blowup_log2 == Option::Some(2u32),
            r.fri_rounds == Option::Some(1u32),
            r.queries == Option::Some(32usize),
    {
        Params {
            blowup_log2: Option::Some(2),
            fri_rounds: Option::Some(1),
            queries: Option::Some(32),
        }
    }
}

} // verus!
