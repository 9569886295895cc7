//! A single person: infection status and mobility.

use vstd::prelude::*;

verus! {

use crate::SCALE;

/// The compartment a person is in.  `Infected` carries the number of
/// consecutive completed steps spent infected, starting at 0.
#[derive(Debug, Clone, Copy, PartialEq, Eq, Structural)]
pub enum InfectionStatus {
    Infected(i64),
    Susceptible,
    Recovered,
}

/// One agent of the population.  `mobility` is a fixed-point factor in
/// `(0, 1]` (so `1..=SCALE`) that would scale contact transmission in a
/// pairwise-contact model; the mean-field model keeps it as data only.
#[derive(Debug, Clone, Copy, PartialEq, Eq, Structural)]
pub struct Person {
    pub status: InfectionStatus,
    pub mobility: u64,
}

/// Well-formedness of a single person: a non-negative day count and a
/// mobility in `(0, 1]`.
pub open spec fn person_wf(p: Person) -> bool {
    &&& (p.status matches InfectionStatus::Infected(d) ==> d >= 0)
    &&& 0 < p.mobility <= SCALE
}

/// `b` is reachable from `a` by zero or more legal transitions: a status
/// never regresses (Infected never goes back to Susceptible, Recovered
/// never changes compartment).  Day counts are not compared.
pub open spec fn status_progresses(a: InfectionStatus, b: InfectionStatus) -> bool {
    match a {
        InfectionStatus::Susceptible => true,
        InfectionStatus::Infected(_) => !(b is Susceptible),
        InfectionStatus::Recovered => b is Recovered,
    }
}

/// `status_progresses` is a preorder: reflexive and transitive.
pub proof fn lemma_status_progresses_trans(
    a: InfectionStatus,
    b: InfectionStatus,
    c: InfectionStatus,
)
    requires
        status_progresses(a, b),
        status_progresses(b, c),
    ensures
        status_progresses(a, c),
{
}

/// The two statuses are the same compartment (day counts ignored).
pub open spec fn same_compartment(a: InfectionStatus, b: InfectionStatus) -> bool {
    compartment_of(a) == compartment_of(b)
}

/// What one step can do to one agent's status: leave it alone, infect a
/// susceptible at day 0, advance an infected's day count by exactly one,
/// or recover an infected.  Stronger than `status_progresses`: it also
/// pins the day counts.
pub open spec fn step_evolution(a: InfectionStatus, b: InfectionStatus) -> bool {
    match a {
        InfectionStatus::Susceptible => b is Susceptible || b == InfectionStatus::Infected(0),
        InfectionStatus::Infected(d) => b == a || (d < i64::MAX && b == InfectionStatus::Infected(
            (d + 1) as i64,
        )) || b is Recovered,
        InfectionStatus::Recovered => b == a,
    }
}

/// One step's evolution never regresses a status.
pub proof fn lemma_step_evolution_progresses(a: InfectionStatus, b: InfectionStatus)
    requires
        step_evolution(a, b),
    ensures
        status_progresses(a, b),
{
}

/// A status with its day count forgotten; the unit the aggregate counts
/// are taken over.
#[derive(Debug, Clone, Copy, PartialEq, Eq, Structural)]
pub enum Compartment {
    Susceptible,
    Infected,
    Recovered,
}

/// The compartment of a status.
pub open spec fn compartment_of(s: InfectionStatus) -> Compartment {
    match s {
        InfectionStatus::Susceptible => Compartment::Susceptible,
        InfectionStatus::Infected(_) => Compartment::Infected,
        InfectionStatus::Recovered => Compartment::Recovered,
    }
}

impl Person {
    /// True exactly when the status is `Infected(_)`.
    pub fn is_infected(&self) -> (r: bool)
        ensures
            r == (self.status is Infected),
    {
        match self.status {
            InfectionStatus::Infected(_) => true,
            _ => false,
        }
    }

    /// True exactly when the status is `Susceptible`.
    pub fn is_susceptible(&self) -> (r: bool)
        ensures
            r == (self.status is Susceptible),
    {
        match self.status {
            InfectionStatus::Susceptible => true,
            _ => false,
        }
    }

    /// True exactly when the status is `Recovered`.
    pub fn is_recovered(&self) -> (r: bool)
        ensures
            r == (self.status is Recovered),
    {
        match self.status {
            InfectionStatus::Recovered => true,
            _ => false,
        }
    }
}

} // verus!
