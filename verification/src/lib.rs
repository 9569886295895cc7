//! A discrete-agent SIR (Susceptible / Infected / Recovered) epidemic
//! simulator.
//!
//! Each step proposes state transitions from a read-only snapshot of the
//! population and then applies them, re-validating each against the live
//! state.  Two proposers are offered and selectable, never mixed: the
//! mean-field approximation (`Model::step`, the default, linear in the
//! population and run in parallel) and the pairwise-contact model
//! (`Model::step_pairwise`, quadratic, for validation at small sizes).
//!
//! Probabilities are fixed-point numbers: an integer `p` with
//! `0 <= p <= SCALE` stands for the real probability `p / SCALE`.

pub mod agent;
pub mod change;
pub mod errors;
pub mod model;

use vstd::prelude::*;

verus! {

/// Fixed-point denominator: an integer probability `p` stands for `p / SCALE`.
pub const SCALE: u64 = 1000000;

} // verus!
