//! Branch-prediction hints.
//!
//! The functions come from `likely_stable`. Each of them only tells the compiler which way a test
//! usually goes, so the contracts below say that the hint changes no value.

use likely_stable::{likely, unlikely, LikelyResult};
use vstd::prelude::*;

verus! {

/// Trusted: `likely_stable::likely` returns the condition it is given, whichever way it goes.
pub assume_specification[ likely ](b: bool) -> (r: bool)
    ensures
        r == b,
;

/// Trusted: `likely_stable::unlikely` returns the condition it is given, whichever way it goes.
pub assume_specification[ unlikely ](b: bool) -> (r: bool)
    ensures
        r == b,
;

/// Trusted: `likely_stable::LikelyResult::unwrap_or_else_likely`, on a `Result`.
///
/// An `Ok` gives its value and leaves `op` uncalled; an `Err` gives what `op` makes of the error.
#[verifier::external_body]
pub(crate) fn unwrap_or_else_likely<V, E, F: FnOnce(E) -> V>(result: Result<V, E>, op: F) -> (value:
    V)
    requires
        result matches Err(e) ==> op.requires((e,)),
    ensures
        match result {
            Ok(v) => value == v,
            Err(e) => op.ensures((e,), value),
        },
{
    LikelyResult::unwrap_or_else_likely(result, op)
}

} // verus!
