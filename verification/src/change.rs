//! Proposed state transitions and the random draws that drive them.

use vstd::prelude::*;

verus! {

use crate::SCALE;
use crate::agent::{InfectionStatus, Person};

/// A proposed transition for one agent, computed from a snapshot of the
/// population.  It is re-validated against the live population when applied.
#[derive(Debug, Clone, Copy, PartialEq, Eq, Structural)]
pub enum Change {
    BecomeInfected(usize),
    RemainInfected(usize),
    BecomeRecovered(usize),
}

/// The identity the change aims at.
pub open spec fn change_target(c: Change) -> int {
    match c {
        Change::BecomeInfected(pid) => pid as int,
        Change::RemainInfected(pid) => pid as int,
        Change::BecomeRecovered(pid) => pid as int,
    }
}

/// The change is consistent with the snapshot it was proposed from:
/// its target exists and is in the compartment the change assumes.
pub open spec fn change_ok(people: Seq<Person>, c: Change) -> bool {
    match c {
        Change::BecomeInfected(pid) => pid < people.len() && people[pid as int].status
            is Susceptible,
        Change::RemainInfected(pid) => pid < people.len() && people[pid as int].status is Infected,
        Change::BecomeRecovered(pid) => pid < people.len() && people[pid as int].status
            is Infected,
    }
}

/// The changes proposed for one agent from a snapshot of its state: an
/// infected agent rolls once against the recovery probability and either
/// recovers or remains infected; a susceptible agent rolls once against the
/// per-step infection probability and may become infected; a recovered
/// agent proposes nothing.  Probabilities are fixed point over `SCALE`.
pub fn propose_for_agent(
    pid: usize,
    person: &Person,
    infection_probability: u64,
    recovery_probability: u64,
) -> (cs: Vec<Change>)
    ensures
        person.status is Infected ==> cs@.len() == 1 && (cs@[0] == Change::BecomeRecovered(pid)
            || cs@[0] == Change::RemainInfected(pid)),
        person.status is Infected && recovery_probability == 0 ==> cs@ == seq![
            Change::RemainInfected(pid),
        ],
        person.status is Infected && recovery_probability >= crate::SCALE ==> cs@ == seq![
            Change::BecomeRecovered(pid),
        ],
        person.status is Susceptible ==> cs@ == Seq::<Change>::empty() || cs@ == seq![
            Change::BecomeInfected(pid),
        ],
        person.status is Susceptible && infection_probability == 0 ==> cs@
            == Seq::<Change>::empty(),
        person.status is Recovered ==> cs@ == Seq::<Change>::empty(),
        forall|i: int| 0 <= i < cs@.len() ==> change_target(#[trigger] cs@[i]) == pid,
{
    let mut cs: Vec<Change> = Vec::new();
    match person.status {
        InfectionStatus::Infected(_) => {
            if diceroll(SCALE) < recovery_probability {
                cs.push(Change::BecomeRecovered(pid));
            } else {
                cs.push(Change::RemainInfected(pid));
            }
        },
        InfectionStatus::Susceptible => {
            if diceroll(SCALE) < infection_probability {
                cs.push(Change::BecomeInfected(pid));
            }
        },
        InfectionStatus::Recovered => {},
    }
    cs
}

/// `s` holds each identity `0..n` exactly once: it has length `n`, every
/// entry is an identity, and no entry repeats.
pub open spec fn is_permutation_of(s: Seq<usize>, n: int) -> bool {
    &&& s.len() == n
    &&& forall|k: int| 0 <= k < n ==> (#[trigger] s[k]) < n
    &&& forall|j: int, k: int| 0 <= j < k < n ==> s[j] != s[k]
}

/// A uniformly random permutation of the identities `0..n`, produced by a
/// Fisher–Yates shuffle over `diceroll`: the "contact order" of the
/// pairwise model.  That each permutation is equally likely rests on the
/// uniformity of the draws and is checked statistically, not proved; what
/// is proved is that the result is a permutation.
pub fn shuffled_identities(n: usize) -> (r: Vec<usize>)
    ensures
        is_permutation_of(r@, n as int),
{
    let mut ids: Vec<usize> = Vec::new();
    let mut k: usize = 0;
    while k < n
        invariant
            k <= n,
            ids@.len() == k,
            forall|j: int| 0 <= j < k ==> (#[trigger] ids@[j]) == j,
        decreases n - k,
    {
        ids.push(k);
        k += 1;
    }
    if n == 0 {
        return ids;
    }
    let mut i: usize = n - 1;
    while i >= 1
        invariant
            i < n,
            is_permutation_of(ids@, n as int),
        decreases i,
    {
        let j = diceroll((i + 1) as u64) as usize;
        let a = ids[i];
        let b = ids[j];
        ids.set(i, b);
        ids.set(j, a);
        i -= 1;
    }
    ids
}

/// Relies on `rand::rngs::ThreadRng` via `rand::thread_rng` and
/// `rand::Rng::gen_range`: a uniform draw from `0..bound`, which panics only
/// on an empty range.  Nothing beyond the range can be promised of a random
/// draw.
#[verifier::external_body]
pub fn diceroll(bound: u64) -> (r: u64)
    requires
        bound >= 1,
    ensures
        r < bound,
{
    let mut rng = rand::thread_rng();
    rand::Rng::gen_range(&mut rng, 0..bound)
}

} // verus!
