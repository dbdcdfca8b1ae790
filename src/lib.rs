//! The scheduling core of an Elm-style terminal application runtime.
//!
//! - `flag`: the shared, one-shot cancellation flag.
//! - `reconcile`: the registry of running subscription handles and the pass
//!   that reconciles it with a newly desired set, by a table of equalities.
//! - `runtime`: the loop's control state and its transitions.
//! - `laws`: what holds across reconciliation passes and loop steps.
use vstd::prelude::*;

pub mod flag;
pub mod laws;
pub mod reconcile;
pub mod runtime;

verus! {

} // verus!
