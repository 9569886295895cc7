//! Errors surfaced while applying proposed changes.

use vstd::prelude::*;

verus! {

/// Why a proposed change was inconsistent with the target's current status.
#[derive(Debug, Clone, Copy, PartialEq, Eq, Structural)]
pub enum BadChangeReason {
    /// `RemainInfected` aimed at a person who is not infected.
    RemainButNotInfected,
    /// `BecomeInfected` aimed at a person already infected for more than
    /// zero days.
    AlreadyInfected,
    /// `BecomeInfected` aimed at a person who has already recovered.
    AlreadyRecovered,
    /// `BecomeRecovered` aimed at a person who is not infected.
    RecoverButNotInfected,
}

/// Errors that abort a step.
#[derive(Debug, Clone, Copy, PartialEq, Eq, Structural)]
pub enum Error {
    /// Reserved for a random source that fails to supply the contact-order
    /// permutation; the shuffle here always completes, so neither proposer
    /// ever produces it.
    ShuffleError,
    /// A change referenced an identity outside the population.
    CouldntFindPerson,
    /// A change was inconsistent with the target's current status.
    BadChange(BadChangeReason),
}

} // verus!
