//! The population and the propose / apply step engine.

use vstd::prelude::*;

verus! {

use crate::SCALE;
use crate::agent::{
    Compartment, InfectionStatus, Person, compartment_of, lemma_status_progresses_trans,
    lemma_step_evolution_progresses, person_wf, same_compartment, status_progresses,
    step_evolution,
};
use crate::change::{
    Change, change_ok, change_target, diceroll, is_permutation_of, propose_for_agent,
    shuffled_identities,
};
use crate::errors::{BadChangeReason, Error};
use vstd::arithmetic::div_mod::{lemma_div_is_ordered, lemma_div_multiples_vanish};
use vstd::arithmetic::mul::{lemma_mul_by_zero_is_zero, lemma_mul_upper_bound};

/// How many people of `s` are in compartment `c`.
pub open spec fn count_in(s: Seq<Person>, c: Compartment) -> int
    decreases s.len(),
{
    if s.len() == 0 {
        0
    } else {
        count_in(s.drop_last(), c) + if compartment_of(s.last().status) == c {
            1int
        } else {
            0int
        }
    }
}

/// A compartment count lies between 0 and the population size.
pub proof fn lemma_count_in_bounds(s: Seq<Person>, c: Compartment)
    ensures
        0 <= count_in(s, c) <= s.len(),
    decreases s.len(),
{
    if s.len() > 0 {
        lemma_count_in_bounds(s.drop_last(), c);
    }
}

/// Extending a prefix by one person adds that person's contribution.
pub proof fn lemma_count_take_step(s: Seq<Person>, c: Compartment, i: int)
    requires
        0 <= i < s.len(),
    ensures
        count_in(s.take(i + 1), c) == count_in(s.take(i), c) + (if compartment_of(s[i].status)
            == c {
            1int
        } else {
            0int
        }),
{
    assert(s.take(i + 1).drop_last() =~= s.take(i));
    assert(s.take(i + 1).last() == s[i]);
}

/// Replacing one person swaps that person's contribution to a count.
pub proof fn lemma_count_update(s: Seq<Person>, c: Compartment, i: int, p: Person)
    requires
        0 <= i < s.len(),
    ensures
        count_in(s.update(i, p), c) == count_in(s, c) + (if compartment_of(p.status) == c {
            1int
        } else {
            0int
        }) - (if compartment_of(s[i].status) == c {
            1int
        } else {
            0int
        }),
    decreases s.len(),
{
    let t = s.update(i, p);
    if i == s.len() - 1 {
        assert(t.drop_last() =~= s.drop_last());
        assert(t.last() == p);
    } else {
        assert(t.drop_last() =~= s.drop_last().update(i, p));
        assert(t.last() == s.last());
        lemma_count_update(s.drop_last(), c, i, p);
    }
}

/// The population is closed: the three compartment counts always sum to
/// the number of people.
pub proof fn lemma_count_partition(s: Seq<Person>)
    ensures
        count_in(s, Compartment::Susceptible) + count_in(s, Compartment::Infected) + count_in(
            s,
            Compartment::Recovered,
        ) == s.len(),
    decreases s.len(),
{
    if s.len() > 0 {
        lemma_count_partition(s.drop_last());
    }
}

/// Counts only depend on each person's compartment.
pub proof fn lemma_count_congruent(s: Seq<Person>, t: Seq<Person>, c: Compartment)
    requires
        s.len() == t.len(),
        forall|i: int|
            0 <= i < s.len() ==> same_compartment(#[trigger] s[i].status, t[i].status),
    ensures
        count_in(s, c) == count_in(t, c),
    decreases s.len(),
{
    if s.len() > 0 {
        assert forall|i: int| 0 <= i < s.drop_last().len() implies same_compartment(
            #[trigger] s.drop_last()[i].status,
            t.drop_last()[i].status,
        ) by {
            assert(s.drop_last()[i] == s[i]);
            assert(t.drop_last()[i] == t[i]);
        }
        lemma_count_congruent(s.drop_last(), t.drop_last(), c);
        assert(same_compartment(s[s.len() - 1].status, t[t.len() - 1].status));
    }
}

/// Fixed-point power: `pow_fp(q, k)` is `(q / SCALE)^k`, rescaled to
/// `0..=SCALE` and rounded down at every multiplication, exactly as the
/// executable loop computes it.
pub open spec fn pow_fp(q: int, k: nat) -> int
    decreases k,
{
    if k == 0 {
        SCALE as int
    } else {
        q * pow_fp(q, (k - 1) as nat) / (SCALE as int)
    }
}

/// Fixed-point proportion `inf / n`, and 0 for an empty population.
pub open spec fn proportion_fp(inf: int, n: int) -> int {
    if n <= 0 {
        0
    } else {
        inf * SCALE / n
    }
}

/// The mean-field per-step infection probability for a susceptible agent:
/// `(1 - (1 - p)^k) * t`, in fixed point, where `p` is the proportion
/// infected and `t` the transmission probability.
pub open spec fn infection_prob_fp(p: int, k: nat, t: int) -> int {
    (SCALE - pow_fp(SCALE - p, k)) * t / (SCALE as int)
}

/// The pairwise-contact transmission probability for one contact between
/// an infected and a susceptible person: the two mobilities scale the
/// transmission probability, in fixed point and rounded down at each
/// multiplication.
pub open spec fn contact_prob_fp(ma: int, mb: int, t: int) -> int {
    (ma * mb / (SCALE as int)) * t / (SCALE as int)
}

/// `pow_fp` stays within `0..=SCALE` for a base within `0..=SCALE`.
pub proof fn lemma_pow_fp_bounds(q: int, k: nat)
    requires
        0 <= q <= SCALE,
    ensures
        0 <= pow_fp(q, k) <= SCALE,
    decreases k,
{
    if k > 0 {
        lemma_pow_fp_bounds(q, (k - 1) as nat);
        let prev = pow_fp(q, (k - 1) as nat);
        lemma_mul_upper_bound(q, SCALE as int, prev, SCALE as int);
        lemma_div_is_ordered(q * prev, SCALE * SCALE, SCALE as int);
        lemma_div_multiples_vanish(SCALE as int, SCALE as int);
        assert(q * prev >= 0) by (nonlinear_arith)
            requires
                q >= 0,
                prev >= 0,
        ;
        lemma_div_is_ordered(0, q * prev, SCALE as int);
    }
}

/// What applying one change to the live population yields: the updated
/// population, or the error the applier surfaces.  A change is re-validated
/// against the target's *current* status, not the snapshot it was proposed
/// from.  A `BecomeInfected` landing on a person already `Infected(0)` —
/// a same-step duplicate proposal — is kept as a benign no-op, while one
/// landing on `Infected(d > 0)` or `Recovered` is an error; this keeps the
/// asymmetric no-op/error split rather than de-duplicating proposals.
pub open spec fn apply_change_spec(people: Seq<Person>, c: Change) -> Result<Seq<Person>, Error> {
    let pid = change_target(c);
    if !(0 <= pid < people.len()) {
        Err(Error::CouldntFindPerson)
    } else {
        let person = people[pid];
        match c {
            Change::RemainInfected(_) => match person.status {
                InfectionStatus::Infected(d) => Ok(
                    people.update(
                        pid,
                        Person {
                            status: InfectionStatus::Infected((d + 1) as i64),
                            mobility: person.mobility,
                        },
                    ),
                ),
                _ => Err(Error::BadChange(BadChangeReason::RemainButNotInfected)),
            },
            Change::BecomeInfected(_) => match person.status {
                InfectionStatus::Susceptible => Ok(
                    people.update(
                        pid,
                        Person { status: InfectionStatus::Infected(0), mobility: person.mobility },
                    ),
                ),
                InfectionStatus::Infected(d) => if d > 0 {
                    Err(Error::BadChange(BadChangeReason::AlreadyInfected))
                } else {
                    Ok(people)
                },
                InfectionStatus::Recovered => Err(Error::BadChange(BadChangeReason::AlreadyRecovered)),
            },
            Change::BecomeRecovered(_) => match person.status {
                InfectionStatus::Infected(_) => Ok(
                    people.update(
                        pid,
                        Person { status: InfectionStatus::Recovered, mobility: person.mobility },
                    ),
                ),
                _ => Err(Error::BadChange(BadChangeReason::RecoverButNotInfected)),
            },
        }
    }
}

/// Applying a whole list of changes in order, failing fast on the first
/// inconsistent one.
pub open spec fn apply_changes_spec(people: Seq<Person>, cs: Seq<Change>) -> Result<
    Seq<Person>,
    Error,
>
    decreases cs.len(),
{
    if cs.len() == 0 {
        Ok(people)
    } else {
        match apply_change_spec(people, cs[0]) {
            Ok(next) => apply_changes_spec(next, cs.subrange(1, cs.len() as int)),
            Err(e) => Err(e),
        }
    }
}

/// The population after applying changes in order up to (excluding) the
/// first failing one: the partially committed state the applier leaves
/// behind when it fails fast.
pub open spec fn apply_changes_partial(people: Seq<Person>, cs: Seq<Change>) -> Seq<Person>
    decreases cs.len(),
{
    if cs.len() == 0 {
        people
    } else {
        match apply_change_spec(people, cs[0]) {
            Ok(next) => apply_changes_partial(next, cs.subrange(1, cs.len() as int)),
            Err(_) => people,
        }
    }
}

/// How many `RemainInfected` changes in `cs` aim at `pid`; each one that is
/// applied increments that person's day count by one.
pub open spec fn count_remain_for(cs: Seq<Change>, pid: int) -> int
    decreases cs.len(),
{
    if cs.len() == 0 {
        0
    } else {
        (match cs[0] {
            Change::RemainInfected(p) => if p == pid {
                1int
            } else {
                0int
            },
            _ => 0int,
        }) + count_remain_for(cs.subrange(1, cs.len() as int), pid)
    }
}

/// `count_remain_for` is non-negative.
pub proof fn lemma_count_remain_nonneg(cs: Seq<Change>, pid: int)
    ensures
        count_remain_for(cs, pid) >= 0,
    decreases cs.len(),
{
    if cs.len() > 0 {
        lemma_count_remain_nonneg(cs.subrange(1, cs.len() as int), pid);
    }
}

/// Day counts cannot overflow while applying `cs`: every infected person
/// has room for the `RemainInfected` changes aimed at them, and every
/// susceptible one for those that could follow a same-step infection.
/// A machine limit only: `daysInfected` itself is unbounded in the model.
pub open spec fn days_headroom(people: Seq<Person>, cs: Seq<Change>) -> bool {
    forall|pid: int|
        0 <= pid < people.len() ==> match (#[trigger] people[pid]).status {
            InfectionStatus::Infected(d) => d + count_remain_for(cs, pid) <= i64::MAX,
            InfectionStatus::Susceptible => count_remain_for(cs, pid) <= i64::MAX,
            InfectionStatus::Recovered => true,
        }
}

/// An applied `RemainInfected` strictly increments the target's day count
/// by exactly one, and changes nothing else.
pub proof fn lemma_remain_infected_increments(people: Seq<Person>, pid: usize, d: i64)
    requires
        pid < people.len(),
        people[pid as int].status == InfectionStatus::Infected(d),
        d < i64::MAX,
    ensures
        apply_change_spec(people, Change::RemainInfected(pid)) == Ok::<Seq<Person>, Error>(
            people.update(
                pid as int,
                Person {
                    status: InfectionStatus::Infected((d + 1) as i64),
                    mobility: people[pid as int].mobility,
                },
            ),
        ),
{
}

/// An applied `BecomeInfected` always starts the target at day 0.
pub proof fn lemma_become_infected_resets(people: Seq<Person>, pid: usize)
    requires
        pid < people.len(),
        people[pid as int].status is Susceptible,
    ensures
        apply_change_spec(people, Change::BecomeInfected(pid)) == Ok::<Seq<Person>, Error>(
            people.update(
                pid as int,
                Person {
                    status: InfectionStatus::Infected(0),
                    mobility: people[pid as int].mobility,
                },
            ),
        ),
{
}

/// No `RemainInfected` change in `cs` aims at `pid` when nothing in `cs`
/// targets `pid` at all.
pub proof fn lemma_count_remain_absent(cs: Seq<Change>, pid: int)
    requires
        forall|j: int| 0 <= j < cs.len() ==> change_target(#[trigger] cs[j]) != pid,
    ensures
        count_remain_for(cs, pid) == 0,
    decreases cs.len(),
{
    if cs.len() > 0 {
        let rest = cs.subrange(1, cs.len() as int);
        assert forall|j: int| 0 <= j < rest.len() implies change_target(#[trigger] rest[j])
            != pid by {
            assert(rest[j] == cs[j + 1]);
        }
        lemma_count_remain_absent(rest, pid);
        assert(change_target(cs[0]) != pid);
    }
}

/// With pairwise-distinct targets, at most one `RemainInfected` aims at
/// any one person.
pub proof fn lemma_count_remain_le_one(cs: Seq<Change>, pid: int)
    requires
        forall|j: int, k: int|
            0 <= j < k < cs.len() ==> change_target(cs[j]) != change_target(cs[k]),
    ensures
        count_remain_for(cs, pid) <= 1,
    decreases cs.len(),
{
    if cs.len() > 0 {
        let rest = cs.subrange(1, cs.len() as int);
        assert forall|j: int, k: int| 0 <= j < k < rest.len() implies change_target(rest[j])
            != change_target(rest[k]) by {
            assert(rest[j] == cs[j + 1]);
            assert(rest[k] == cs[k + 1]);
        }
        if change_target(cs[0]) == pid {
            assert forall|j: int| 0 <= j < rest.len() implies change_target(#[trigger] rest[j])
                != pid by {
                assert(rest[j] == cs[j + 1]);
                assert(change_target(cs[0]) != change_target(cs[j + 1]));
            }
            lemma_count_remain_absent(rest, pid);
        } else {
            lemma_count_remain_le_one(rest, pid);
        }
    }
}

/// Applying changes never shrinks or grows the population, never regresses
/// any status, and never touches anyone's mobility — whatever the changes
/// are, valid or not.
pub proof fn lemma_partial_monotone(people: Seq<Person>, cs: Seq<Change>)
    ensures
        apply_changes_partial(people, cs).len() == people.len(),
        forall|i: int|
            0 <= i < people.len() ==> status_progresses(
                (#[trigger] people[i]).status,
                apply_changes_partial(people, cs)[i].status,
            ),
        forall|i: int|
            0 <= i < people.len() ==> apply_changes_partial(people, cs)[i].mobility == (
            #[trigger] people[i]).mobility,
    decreases cs.len(),
{
    if cs.len() > 0 {
        let rest = cs.subrange(1, cs.len() as int);
        match apply_change_spec(people, cs[0]) {
            Ok(next) => {
                lemma_partial_monotone(next, rest);
                assert forall|i: int| 0 <= i < people.len() implies status_progresses(
                    (#[trigger] people[i]).status,
                    apply_changes_partial(people, cs)[i].status,
                ) by {
                    assert(status_progresses(people[i].status, next[i].status));
                    lemma_status_progresses_trans(
                        people[i].status,
                        next[i].status,
                        apply_changes_partial(next, rest)[i].status,
                    );
                }
                assert forall|i: int|
                    0 <= i < people.len() implies apply_changes_partial(people, cs)[i].mobility
                    == (#[trigger] people[i]).mobility by {
                    assert(next[i].mobility == people[i].mobility);
                }
            },
            Err(_) => {},
        }
    }
}

/// A person nothing in `cs` aims at comes out of the applier untouched.
pub proof fn lemma_partial_frame(people: Seq<Person>, cs: Seq<Change>, pid: int)
    requires
        0 <= pid < people.len(),
        forall|j: int| 0 <= j < cs.len() ==> change_target(#[trigger] cs[j]) != pid,
    ensures
        apply_changes_partial(people, cs).len() == people.len(),
        apply_changes_partial(people, cs)[pid] == people[pid],
    decreases cs.len(),
{
    lemma_partial_monotone(people, cs);
    if cs.len() > 0 {
        let rest = cs.subrange(1, cs.len() as int);
        assert forall|j: int| 0 <= j < rest.len() implies change_target(#[trigger] rest[j])
            != pid by {
            assert(rest[j] == cs[j + 1]);
        }
        match apply_change_spec(people, cs[0]) {
            Ok(next) => {
                assert(change_target(cs[0]) != pid);
                assert(next[pid] == people[pid]);
                lemma_partial_frame(next, rest, pid);
            },
            Err(_) => {},
        }
    }
}

/// Without `BecomeInfected` proposals the number of infected people cannot
/// grow: only recoveries and day-count increments can happen.
pub proof fn lemma_partial_no_new_infections(people: Seq<Person>, cs: Seq<Change>)
    requires
        forall|j: int| 0 <= j < cs.len() ==> !((#[trigger] cs[j]) is BecomeInfected),
    ensures
        count_in(apply_changes_partial(people, cs), Compartment::Infected) <= count_in(
            people,
            Compartment::Infected,
        ),
    decreases cs.len(),
{
    if cs.len() > 0 {
        let rest = cs.subrange(1, cs.len() as int);
        assert forall|j: int| 0 <= j < rest.len() implies !((#[trigger] rest[j])
            is BecomeInfected) by {
            assert(rest[j] == cs[j + 1]);
        }
        assert(!(cs[0] is BecomeInfected));
        match apply_change_spec(people, cs[0]) {
            Ok(next) => {
                let pid = change_target(cs[0]);
                assert(count_in(next, Compartment::Infected) <= count_in(
                    people,
                    Compartment::Infected,
                )) by {
                    lemma_count_update(people, Compartment::Infected, pid, next[pid]);
                }
                lemma_partial_no_new_infections(next, rest);
            },
            Err(_) => {},
        }
    }
}

/// With neither infections nor recoveries proposed, every person keeps
/// their compartment: the population is frozen up to day counts.
pub proof fn lemma_partial_frozen(people: Seq<Person>, cs: Seq<Change>)
    requires
        forall|j: int|
            0 <= j < cs.len() ==> !((#[trigger] cs[j]) is BecomeInfected) && !(cs[j]
                is BecomeRecovered),
    ensures
        apply_changes_partial(people, cs).len() == people.len(),
        forall|i: int|
            0 <= i < people.len() ==> same_compartment(
                (#[trigger] people[i]).status,
                apply_changes_partial(people, cs)[i].status,
            ),
    decreases cs.len(),
{
    lemma_partial_monotone(people, cs);
    if cs.len() > 0 {
        let rest = cs.subrange(1, cs.len() as int);
        assert forall|j: int| 0 <= j < rest.len() implies !((#[trigger] rest[j])
            is BecomeInfected) && !(rest[j] is BecomeRecovered) by {
            assert(rest[j] == cs[j + 1]);
        }
        assert(!(cs[0] is BecomeInfected) && !(cs[0] is BecomeRecovered));
        match apply_change_spec(people, cs[0]) {
            Ok(next) => {
                lemma_partial_frozen(next, rest);
                assert forall|i: int| 0 <= i < people.len() implies same_compartment(
                    (#[trigger] people[i]).status,
                    apply_changes_partial(people, cs)[i].status,
                ) by {
                    assert(same_compartment(people[i].status, next[i].status));
                }
            },
            Err(_) => {},
        }
    }
}

/// With pairwise-distinct targets and day-count headroom, every person
/// makes at most one legal move in a step: stays put, is infected at day
/// 0, has the day count advanced by exactly one, or recovers.
pub proof fn lemma_partial_step_evolution(people: Seq<Person>, cs: Seq<Change>)
    requires
        forall|j: int, k: int|
            0 <= j < k < cs.len() ==> change_target(cs[j]) != change_target(cs[k]),
        days_headroom(people, cs),
    ensures
        apply_changes_partial(people, cs).len() == people.len(),
        forall|i: int|
            0 <= i < people.len() ==> step_evolution(
                (#[trigger] people[i]).status,
                apply_changes_partial(people, cs)[i].status,
            ),
    decreases cs.len(),
{
    lemma_partial_monotone(people, cs);
    if cs.len() > 0 {
        let rest = cs.subrange(1, cs.len() as int);
        assert forall|j: int, k: int| 0 <= j < k < rest.len() implies change_target(rest[j])
            != change_target(rest[k]) by {
            assert(rest[j] == cs[j + 1]);
            assert(rest[k] == cs[k + 1]);
        }
        match apply_change_spec(people, cs[0]) {
            Ok(next) => {
                let pid = change_target(cs[0]);
                assert forall|j: int| 0 <= j < rest.len() implies change_target(
                    #[trigger] rest[j],
                ) != pid by {
                    assert(rest[j] == cs[j + 1]);
                    assert(change_target(cs[0]) != change_target(cs[j + 1]));
                }
                // The one change aimed at `pid` has headroom for its increment.
                lemma_count_remain_nonneg(rest, pid);
                assert(step_evolution(people[pid].status, next[pid].status));
                // Nobody's day count moves further: `rest` leaves `pid` alone and
                // everyone else keeps the headroom they had.
                assert forall|q: int|
                    0 <= q < next.len() implies match (#[trigger] next[q]).status {
                    InfectionStatus::Infected(d) => d + count_remain_for(rest, q) <= i64::MAX,
                    InfectionStatus::Susceptible => count_remain_for(rest, q) <= i64::MAX,
                    InfectionStatus::Recovered => true,
                } by {
                    if q == pid {
                        lemma_count_remain_absent(rest, pid);
                    } else {
                        lemma_count_remain_nonneg(rest, q);
                        assert(count_remain_for(cs, q) == (match cs[0] {
                            Change::RemainInfected(p) => if p == q {
                                1int
                            } else {
                                0int
                            },
                            _ => 0int,
                        }) + count_remain_for(rest, q));
                    }
                }
                lemma_partial_step_evolution(next, rest);
                lemma_partial_frame(next, rest, pid);
                assert forall|i: int| 0 <= i < people.len() implies step_evolution(
                    (#[trigger] people[i]).status,
                    apply_changes_partial(people, cs)[i].status,
                ) by {
                    if i == pid {
                        assert(apply_changes_partial(next, rest)[pid] == next[pid]);
                    } else {
                        assert(next[i] == people[i]);
                    }
                }
            },
            Err(_) => {},
        }
    }
}

/// Appending a change adds its own contribution to a `RemainInfected`
/// count.
pub proof fn lemma_count_remain_push(cs: Seq<Change>, c: Change, pid: int)
    ensures
        count_remain_for(cs.push(c), pid) == count_remain_for(cs, pid) + (match c {
            Change::RemainInfected(p) => if p == pid {
                1int
            } else {
                0int
            },
            _ => 0int,
        }),
    decreases cs.len(),
{
    let pushed = cs.push(c);
    assert(pushed.len() == cs.len() + 1);
    if cs.len() == 0 {
        assert(pushed[0] == c);
        assert(pushed.subrange(1, 1) =~= Seq::<Change>::empty());
        assert(count_remain_for(pushed.subrange(1, pushed.len() as int), pid) == 0);
    } else {
        let rest = cs.subrange(1, cs.len() as int);
        assert(pushed.subrange(1, pushed.len() as int) =~= rest.push(c));
        assert(pushed[0] == cs[0]);
        lemma_count_remain_push(rest, c, pid);
        assert(count_remain_for(pushed, pid) == (match pushed[0] {
            Change::RemainInfected(p) => if p == pid {
                1int
            } else {
                0int
            },
            _ => 0int,
        }) + count_remain_for(rest.push(c), pid));
    }
}

/// `c` still applies cleanly to `people`: either it is consistent with it,
/// or it is a duplicate same-step infection, aimed at a person another
/// `BecomeInfected` already moved to `Infected(0)`, which the applier
/// treats as a benign no-op.
pub open spec fn change_applies(people: Seq<Person>, c: Change) -> bool {
    change_ok(people, c) || (c matches Change::BecomeInfected(pid) && pid < people.len()
        && people[pid as int].status == InfectionStatus::Infected(0))
}

/// Two changes of `cs` only share a target when both are `BecomeInfected`:
/// the shape the pairwise proposer produces, where a popular susceptible
/// person may be proposed for infection by several contacts but infected
/// people get exactly one change.
pub open spec fn changes_compatible(cs: Seq<Change>) -> bool {
    forall|j: int, k: int|
        0 <= j < k < cs.len() ==> (change_target(cs[j]) == change_target(cs[k]) ==> cs[j]
            is BecomeInfected && cs[k] is BecomeInfected)
}

/// Compatible changes that each apply cleanly to the snapshot all apply
/// cleanly in sequence: a target shared by several `BecomeInfected` sits at
/// `Infected(0)` from the first one on, and everyone else is touched at
/// most once.
pub proof fn lemma_compatible_changes_apply_ok(people: Seq<Person>, cs: Seq<Change>)
    requires
        forall|j: int| 0 <= j < cs.len() ==> change_applies(people, #[trigger] cs[j]),
        changes_compatible(cs),
    ensures
        apply_changes_spec(people, cs) is Ok,
    decreases cs.len(),
{
    if cs.len() > 0 {
        let rest = cs.subrange(1, cs.len() as int);
        assert(change_applies(people, cs[0]));
        match apply_change_spec(people, cs[0]) {
            Ok(next) => {
                let pid = change_target(cs[0]);
                assert forall|j: int| 0 <= j < rest.len() implies change_applies(
                    next,
                    #[trigger] rest[j],
                ) by {
                    assert(rest[j] == cs[j + 1]);
                    if change_target(rest[j]) == pid {
                        assert(cs[0] is BecomeInfected && cs[j + 1] is BecomeInfected);
                        assert(next[pid].status == InfectionStatus::Infected(0));
                    } else {
                        assert(next[change_target(rest[j])] == people[change_target(rest[j])]);
                    }
                }
                assert forall|j: int, k: int| 0 <= j < k < rest.len() implies (change_target(
                    rest[j],
                ) == change_target(rest[k]) ==> rest[j] is BecomeInfected && rest[k]
                    is BecomeInfected) by {
                    assert(rest[j] == cs[j + 1]);
                    assert(rest[k] == cs[k + 1]);
                }
                lemma_compatible_changes_apply_ok(next, rest);
            },
            Err(_) => {
                assert(false);
            },
        }
    }
}

/// Applying changes with day-count headroom keeps every person well
/// formed.
pub proof fn lemma_partial_wf(people: Seq<Person>, cs: Seq<Change>)
    requires
        days_headroom(people, cs),
        forall|i: int| 0 <= i < people.len() ==> person_wf(#[trigger] people[i]),
    ensures
        forall|i: int|
            0 <= i < people.len() ==> person_wf(#[trigger] apply_changes_partial(people, cs)[i]),
    decreases cs.len(),
{
    lemma_partial_monotone(people, cs);
    if cs.len() > 0 {
        let rest = cs.subrange(1, cs.len() as int);
        match apply_change_spec(people, cs[0]) {
            Ok(next) => {
                let pid = change_target(cs[0]);
                lemma_count_remain_nonneg(rest, pid);
                assert forall|i: int| 0 <= i < next.len() implies person_wf(
                    #[trigger] next[i],
                ) by {
                    assert(person_wf(people[i]));
                }
                assert forall|q: int|
                    0 <= q < next.len() implies match (#[trigger] next[q]).status {
                    InfectionStatus::Infected(d) => d + count_remain_for(rest, q) <= i64::MAX,
                    InfectionStatus::Susceptible => count_remain_for(rest, q) <= i64::MAX,
                    InfectionStatus::Recovered => true,
                } by {
                    lemma_count_remain_nonneg(rest, q);
                    assert(count_remain_for(cs, q) == (match cs[0] {
                        Change::RemainInfected(p) => if p == q {
                            1int
                        } else {
                            0int
                        },
                        _ => 0int,
                    }) + count_remain_for(rest, q));
                }
                lemma_partial_wf(next, rest);
                assert forall|i: int| 0 <= i < people.len() implies person_wf(
                    #[trigger] apply_changes_partial(people, cs)[i],
                ) by {
                    assert(person_wf(apply_changes_partial(next, rest)[i]));
                }
            },
            Err(_) => {
                assert forall|i: int| 0 <= i < people.len() implies person_wf(
                    #[trigger] apply_changes_partial(people, cs)[i],
                ) by {
                    assert(person_wf(people[i]));
                }
            },
        }
    } else {
        assert forall|i: int| 0 <= i < people.len() implies person_wf(
            #[trigger] apply_changes_partial(people, cs)[i],
        ) by {
            assert(person_wf(people[i]));
        }
    }
}

/// A `BecomeRecovered` among compatible, cleanly-applying changes goes
/// through: if it is the only change aimed at its target, that target
/// comes out `Recovered`.
pub proof fn lemma_partial_recovers(people: Seq<Person>, cs: Seq<Change>, pid: usize)
    requires
        pid < people.len(),
        forall|j: int| 0 <= j < cs.len() ==> change_applies(people, #[trigger] cs[j]),
        changes_compatible(cs),
        forall|j: int|
            0 <= j < cs.len() ==> (change_target(#[trigger] cs[j]) == pid as int ==> cs[j]
                == Change::BecomeRecovered(pid)),
        exists|j: int| 0 <= j < cs.len() && (#[trigger] cs[j]) == Change::BecomeRecovered(pid),
    ensures
        apply_changes_partial(people, cs)[pid as int].status is Recovered,
    decreases cs.len(),
{
    let k = choose|k: int|
        0 <= k < cs.len() && (#[trigger] cs[k]) == Change::BecomeRecovered(pid);
    let rest = cs.subrange(1, cs.len() as int);
    assert(change_applies(people, cs[0]));
    match apply_change_spec(people, cs[0]) {
        Ok(next) => {
            let pid0 = change_target(cs[0]);
            assert forall|j: int| 0 <= j < rest.len() implies change_applies(
                next,
                #[trigger] rest[j],
            ) by {
                assert(rest[j] == cs[j + 1]);
                if change_target(rest[j]) == pid0 {
                    assert(cs[0] is BecomeInfected && cs[j + 1] is BecomeInfected);
                    assert(next[pid0].status == InfectionStatus::Infected(0));
                } else {
                    assert(next[change_target(rest[j])] == people[change_target(rest[j])]);
                }
            }
            assert forall|j: int, k2: int| 0 <= j < k2 < rest.len() implies (change_target(
                rest[j],
            ) == change_target(rest[k2]) ==> rest[j] is BecomeInfected && rest[k2]
                is BecomeInfected) by {
                assert(rest[j] == cs[j + 1]);
                assert(rest[k2] == cs[k2 + 1]);
            }
            assert forall|j: int| 0 <= j < rest.len() implies (change_target(#[trigger] rest[j])
                == pid as int ==> rest[j] == Change::BecomeRecovered(pid)) by {
                assert(rest[j] == cs[j + 1]);
            }
            if pid0 == pid as int {
                assert(cs[0] == Change::BecomeRecovered(pid));
                assert(next[pid as int].status is Recovered);
                assert forall|j: int| 0 <= j < rest.len() implies change_target(
                    #[trigger] rest[j],
                ) != pid as int by {
                    assert(rest[j] == cs[j + 1]);
                    if change_target(cs[j + 1]) == pid as int {
                        assert(cs[0] is BecomeInfected && cs[j + 1] is BecomeInfected);
                    }
                }
                lemma_partial_frame(next, rest, pid as int);
            } else {
                assert(next[pid as int] == people[pid as int]);
                assert(k != 0);
                assert(rest[k - 1] == cs[k]);
                assert(exists|j: int|
                    0 <= j < rest.len() && (#[trigger] rest[j]) == Change::BecomeRecovered(pid));
                lemma_partial_recovers(next, rest, pid);
            }
        },
        Err(_) => {
            assert(false);
        },
    }
}

/// Changes that are consistent with the snapshot they were proposed from
/// and aim at pairwise-distinct targets all apply cleanly: each target is
/// touched at most once, so its current status still matches the snapshot
/// when its change arrives.
pub proof fn lemma_consistent_changes_apply_ok(people: Seq<Person>, cs: Seq<Change>)
    requires
        forall|j: int| 0 <= j < cs.len() ==> change_ok(people, #[trigger] cs[j]),
        forall|j: int, k: int|
            0 <= j < k < cs.len() ==> change_target(cs[j]) != change_target(cs[k]),
    ensures
        apply_changes_spec(people, cs) is Ok,
    decreases cs.len(),
{
    if cs.len() > 0 {
        let rest = cs.subrange(1, cs.len() as int);
        assert(change_ok(people, cs[0]));
        match apply_change_spec(people, cs[0]) {
            Ok(next) => {
                let pid = change_target(cs[0]);
                assert forall|j: int| 0 <= j < rest.len() implies change_ok(
                    next,
                    #[trigger] rest[j],
                ) by {
                    assert(rest[j] == cs[j + 1]);
                    assert(change_target(cs[0]) != change_target(cs[j + 1]));
                    assert(next[change_target(rest[j])] == people[change_target(rest[j])]);
                }
                assert forall|j: int, k: int| 0 <= j < k < rest.len() implies change_target(
                    rest[j],
                ) != change_target(rest[k]) by {
                    assert(rest[j] == cs[j + 1]);
                    assert(rest[k] == cs[k + 1]);
                }
                lemma_consistent_changes_apply_ok(next, rest);
            },
            Err(_) => {
                assert(false);
            },
        }
    }
}

/// Relies on rayon's `par_iter`, `enumerate`, `flat_map` and `collect`:
/// the closure is applied to each `(index, person)` pair exactly once and
/// the resulting lists are concatenated.  The closure only calls the
/// verified `propose_for_agent`, whose contract gives, for the list
/// proposed from person `i`: every change targets `i` and assumes `i`'s
/// snapshot compartment, an infected person gets exactly one change (none
/// of them `BecomeRecovered` when the recovery probability is 0), a
/// susceptible person at most a `BecomeInfected` (none when the infection
/// probability is 0), and a recovered person none.  Concatenation over
/// distinct indices yields the pairwise-distinct targets.
#[verifier::external_body]
fn par_propose_all(
    people: &Vec<Person>,
    infection_probability: u64,
    recovery_probability: u64,
) -> (cs: Vec<Change>)
    ensures
        forall|j: int| 0 <= j < cs@.len() ==> change_ok(people@, #[trigger] cs@[j]),
        forall|j: int, k: int|
            0 <= j < k < cs@.len() ==> change_target(cs@[j]) != change_target(cs@[k]),
        infection_probability == 0 ==> forall|j: int|
            0 <= j < cs@.len() ==> !(#[trigger] cs@[j] is BecomeInfected),
        recovery_probability == 0 ==> forall|j: int|
            0 <= j < cs@.len() ==> !(#[trigger] cs@[j] is BecomeRecovered),
        forall|pid: int|
            0 <= pid < people@.len() && (#[trigger] people@[pid]).status is Infected
                ==> exists|j: int| 0 <= j < cs@.len() && change_target(#[trigger] cs@[j]) == pid,
        recovery_probability >= SCALE ==> forall|pid: int|
            0 <= pid < people@.len() && (#[trigger] people@[pid]).status is Infected
                ==> exists|j: int|
                0 <= j < cs@.len() && (#[trigger] cs@[j]) == Change::BecomeRecovered(pid as usize),
{
    rayon::iter::ParallelIterator::collect(
        rayon::iter::ParallelIterator::flat_map_iter(
            rayon::iter::IndexedParallelIterator::enumerate(
                rayon::iter::IntoParallelRefIterator::par_iter(people),
            ),
            |(pid, person)| propose_for_agent(pid, person, infection_probability, recovery_probability),
        ),
    )
}

/// Dropping the first element of a suffix moves its start one to the right.
pub proof fn lemma_suffix_shift(cs: Seq<Change>, j: int)
    requires
        0 <= j < cs.len(),
    ensures
        cs.subrange(j, cs.len() as int).subrange(1, cs.len() - j) =~= cs.subrange(
            j + 1,
            cs.len() as int,
        ),
{
}

/// The whole simulation state: a population indexed by dense identities
/// `0..people.len()`, and the model parameters, fixed for a run.
/// `transmission_probability` and `recovery_probability` are fixed-point
/// probabilities in `0..=SCALE`; `num_contacts_per_step` is the mean-field
/// contact count per agent and step.
#[derive(Debug)]
pub struct Model {
    pub people: Vec<Person>,
    pub transmission_probability: u64,
    pub recovery_probability: u64,
    pub num_contacts_per_step: usize,
}

impl Model {
    /// Well-formedness: probabilities are at most `SCALE`, at least one
    /// contact per step, and every person is well formed.
    pub open spec fn wf(&self) -> bool {
        &&& self.transmission_probability <= SCALE
        &&& self.recovery_probability <= SCALE
        &&& self.num_contacts_per_step >= 1
        &&& forall|i: int| 0 <= i < self.people@.len() ==> person_wf(#[trigger] self.people@[i])
    }

    /// The number of people in the population.
    pub fn num_people(&self) -> (r: usize)
        ensures
            r == self.people@.len(),
    {
        self.people.len()
    }

    /// The number of currently infected people.
    pub fn num_infected(&self) -> (r: usize)
        ensures
            r == count_in(self.people@, Compartment::Infected),
    {
        let mut count: usize = 0;
        let mut i: usize = 0;
        while i < self.people.len()
            invariant
                i <= self.people@.len(),
                count <= i,
                count == count_in(self.people@.take(i as int), Compartment::Infected),
            decreases self.people@.len() - i,
        {
            proof {
                lemma_count_take_step(self.people@, Compartment::Infected, i as int);
            }
            if self.people[i].is_infected() {
                count += 1;
            }
            i += 1;
        }
        proof {
            assert(self.people@.take(self.people@.len() as int) =~= self.people@);
        }
        count
    }

    /// The number of currently susceptible people.
    pub fn num_susceptible(&self) -> (r: usize)
        ensures
            r == count_in(self.people@, Compartment::Susceptible),
    {
        let mut count: usize = 0;
        let mut i: usize = 0;
        while i < self.people.len()
            invariant
                i <= self.people@.len(),
                count <= i,
                count == count_in(self.people@.take(i as int), Compartment::Susceptible),
            decreases self.people@.len() - i,
        {
            proof {
                lemma_count_take_step(self.people@, Compartment::Susceptible, i as int);
            }
            if self.people[i].is_susceptible() {
                count += 1;
            }
            i += 1;
        }
        proof {
            assert(self.people@.take(self.people@.len() as int) =~= self.people@);
        }
        count
    }

    /// The number of people who have recovered.
    pub fn num_recovered(&self) -> (r: usize)
        ensures
            r == count_in(self.people@, Compartment::Recovered),
    {
        let mut count: usize = 0;
        let mut i: usize = 0;
        while i < self.people.len()
            invariant
                i <= self.people@.len(),
                count <= i,
                count == count_in(self.people@.take(i as int), Compartment::Recovered),
            decreases self.people@.len() - i,
        {
            proof {
                lemma_count_take_step(self.people@, Compartment::Recovered, i as int);
            }
            if self.people[i].is_recovered() {
                count += 1;
            }
            i += 1;
        }
        proof {
            assert(self.people@.take(self.people@.len() as int) =~= self.people@);
        }
        count
    }

    /// The fixed-point proportion of the population that is infected, 0 for
    /// an empty population (the explicit divide-by-zero guard).
    pub fn proportion_infected(&self) -> (r: u64)
        ensures
            r == proportion_fp(count_in(self.people@, Compartment::Infected), self.people@.len() as int),
            r <= SCALE,
    {
        let n = self.people.len();
        if n == 0 {
            return 0;
        }
        let inf = self.num_infected();
        proof {
            lemma_count_in_bounds(self.people@, Compartment::Infected);
            assert((inf as int) * (SCALE as int) <= (n as int) * (SCALE as int)) by (nonlinear_arith)
                requires
                    inf as int <= n as int,
                    SCALE as int >= 0,
            ;
            lemma_div_is_ordered((inf as int) * (SCALE as int), (n as int) * (SCALE as int), n as int);
            lemma_div_multiples_vanish(SCALE as int, n as int);
            assert((n as int) * (SCALE as int) / (n as int) == SCALE);
            assert((inf as int) * (SCALE as int) >= 0) by (nonlinear_arith)
                requires
                    inf as int >= 0,
                    SCALE as int >= 0,
            ;
            lemma_div_is_ordered(0, (inf as int) * (SCALE as int), n as int);
        }
        (((inf as u128) * (SCALE as u128)) / (n as u128)) as u64
    }

    /// The mean-field per-step infection probability for a susceptible
    /// agent, in fixed point.
    pub fn infection_probability(&self) -> (r: u64)
        requires
            self.wf(),
        ensures
            r == infection_prob_fp(
                proportion_fp(count_in(self.people@, Compartment::Infected), self.people@.len() as int),
                self.num_contacts_per_step as nat,
                self.transmission_probability as int,
            ),
            r <= SCALE,
            self.transmission_probability == 0 ==> r == 0,
    {
        let p = self.proportion_infected();
        let q = SCALE - p;
        let mut acc: u64 = SCALE;
        let mut k: usize = 0;
        while k < self.num_contacts_per_step
            invariant
                0 <= q <= SCALE,
                k <= self.num_contacts_per_step,
                acc == pow_fp(q as int, k as nat),
                acc <= SCALE,
            decreases self.num_contacts_per_step - k,
        {
            proof {
                lemma_pow_fp_bounds(q as int, (k + 1) as nat);
                lemma_mul_upper_bound(q as int, SCALE as int, acc as int, SCALE as int);
                assert((q as int) * (acc as int) >= 0) by (nonlinear_arith)
                    requires
                        q as int >= 0,
                        acc as int >= 0,
                ;
            }
            acc = q * acc / SCALE;
            k += 1;
        }
        let t = self.transmission_probability;
        proof {
            lemma_mul_upper_bound((SCALE - acc) as int, SCALE as int, t as int, SCALE as int);
            assert(((SCALE - acc) as int) * (t as int) >= 0) by (nonlinear_arith)
                requires
                    (SCALE - acc) as int >= 0,
                    t as int >= 0,
            ;
            lemma_div_is_ordered(0, ((SCALE - acc) as int) * (t as int), SCALE as int);
            lemma_div_is_ordered(
                ((SCALE - acc) as int) * (t as int),
                (SCALE as int) * (SCALE as int),
                SCALE as int,
            );
            lemma_div_multiples_vanish(SCALE as int, SCALE as int);
            if t == 0 {
                lemma_mul_by_zero_is_zero((SCALE - acc) as int);
                assert(0int / (SCALE as int) == 0);
            }
        }
        (SCALE - acc) * t / SCALE
    }

    /// Compute this step's proposed changes from a snapshot of the
    /// population, one agent at a time and in parallel: the mean-field
    /// infection probability is computed once, then each infected agent
    /// rolls for recovery and each susceptible agent rolls for infection.
    /// Which changes come back depends on the random draws; what holds of
    /// every outcome is that each change is consistent with the snapshot,
    /// no two changes aim at the same agent, every infected agent gets
    /// exactly one change, and zero probabilities propose no transition of
    /// the corresponding kind.
    pub fn queue_changes(&self) -> (cs: Vec<Change>)
        requires
            self.wf(),
        ensures
            forall|j: int| 0 <= j < cs@.len() ==> change_ok(self.people@, #[trigger] cs@[j]),
            forall|j: int, k: int|
                0 <= j < k < cs@.len() ==> change_target(cs@[j]) != change_target(cs@[k]),
            self.transmission_probability == 0 ==> forall|j: int|
                0 <= j < cs@.len() ==> !(#[trigger] cs@[j] is BecomeInfected),
            self.recovery_probability == 0 ==> forall|j: int|
                0 <= j < cs@.len() ==> !(#[trigger] cs@[j] is BecomeRecovered),
            forall|pid: int|
                0 <= pid < self.people@.len() && (#[trigger] self.people@[pid]).status is Infected
                    ==> exists|j: int|
                    0 <= j < cs@.len() && change_target(#[trigger] cs@[j]) == pid,
            self.recovery_probability >= SCALE ==> forall|pid: int|
                0 <= pid < self.people@.len() && (#[trigger] self.people@[pid]).status is Infected
                    ==> exists|j: int|
                    0 <= j < cs@.len() && (#[trigger] cs@[j]) == Change::BecomeRecovered(
                        pid as usize,
                    ),
    {
        let infection_probability = self.infection_probability();
        par_propose_all(&self.people, infection_probability, self.recovery_probability)
    }

    /// The fixed-point probability that one contact between an infected
    /// and a susceptible person transmits, their mobilities factored in.
    pub fn contact_transmission_probability(ma: u64, mb: u64, t: u64) -> (r: u64)
        requires
            ma <= SCALE,
            mb <= SCALE,
            t <= SCALE,
        ensures
            r == contact_prob_fp(ma as int, mb as int, t as int),
            r <= SCALE,
            t == 0 ==> r == 0,
    {
        proof {
            lemma_mul_upper_bound(ma as int, SCALE as int, mb as int, SCALE as int);
            assert((ma as int) * (mb as int) >= 0) by (nonlinear_arith)
                requires
                    ma as int >= 0,
                    mb as int >= 0,
            ;
            lemma_div_is_ordered(0, (ma as int) * (mb as int), SCALE as int);
            lemma_div_is_ordered(
                (ma as int) * (mb as int),
                (SCALE as int) * (SCALE as int),
                SCALE as int,
            );
            lemma_div_multiples_vanish(SCALE as int, SCALE as int);
        }
        let scaled = ma * mb / SCALE;
        proof {
            lemma_mul_upper_bound(scaled as int, SCALE as int, t as int, SCALE as int);
            assert((scaled as int) * (t as int) >= 0) by (nonlinear_arith)
                requires
                    scaled as int >= 0,
                    t as int >= 0,
            ;
            lemma_div_is_ordered(0, (scaled as int) * (t as int), SCALE as int);
            lemma_div_is_ordered(
                (scaled as int) * (t as int),
                (SCALE as int) * (SCALE as int),
                SCALE as int,
            );
            if t == 0 {
                lemma_mul_by_zero_is_zero(scaled as int);
                assert(0int / (SCALE as int) == 0);
            }
        }
        scaled * t / SCALE
    }

    /// Compute this step's proposed changes with the pairwise-contact
    /// model: every agent meets every agent once, in a freshly shuffled
    /// contact order, and each infected–susceptible contact rolls against
    /// the mobility-scaled transmission probability; infected agents roll
    /// for recovery exactly as in the mean-field model.  A susceptible
    /// person may be proposed for infection by several contacts — the
    /// applier treats the duplicates as benign no-ops — while infected
    /// people get exactly one change each.
    pub fn queue_changes_pairwise(&self) -> (cs: Vec<Change>)
        requires
            self.wf(),
        ensures
            forall|j: int| 0 <= j < cs@.len() ==> change_ok(self.people@, #[trigger] cs@[j]),
            changes_compatible(cs@),
            forall|pid: int| #![trigger count_remain_for(cs@, pid)] count_remain_for(cs@, pid) <= 1,
            self.transmission_probability == 0 ==> forall|j: int|
                0 <= j < cs@.len() ==> !(#[trigger] cs@[j] is BecomeInfected),
            self.recovery_probability == 0 ==> forall|j: int|
                0 <= j < cs@.len() ==> !(#[trigger] cs@[j] is BecomeRecovered),
            forall|pid: int|
                0 <= pid < self.people@.len() && (#[trigger] self.people@[pid]).status is Infected
                    ==> exists|j: int|
                    0 <= j < cs@.len() && ((#[trigger] cs@[j]) == Change::RemainInfected(
                        pid as usize,
                    ) || cs@[j] == Change::BecomeRecovered(pid as usize)),
            self.recovery_probability >= SCALE ==> forall|pid: int|
                0 <= pid < self.people@.len() && (#[trigger] self.people@[pid]).status is Infected
                    ==> exists|j: int|
                    0 <= j < cs@.len() && (#[trigger] cs@[j]) == Change::BecomeRecovered(
                        pid as usize,
                    ),
    {
        let n = self.people.len();
        let order = shuffled_identities(n);
        let mut cs: Vec<Change> = Vec::new();
        let mut a: usize = 0;
        while a < n
            invariant
                a <= n,
                n == self.people@.len(),
                self.wf(),
                is_permutation_of(order@, n as int),
                forall|j: int| 0 <= j < cs@.len() ==> change_ok(self.people@, #[trigger] cs@[j]),
                forall|j: int| 0 <= j < cs@.len() ==> (#[trigger] cs@[j]) is BecomeInfected,
                forall|pid: int| #![trigger count_remain_for(cs@, pid)]
                    count_remain_for(cs@, pid) == 0,
                self.transmission_probability == 0 ==> cs@.len() == 0,
            decreases n - a,
        {
            let pa = self.people[a];
            let mut bi: usize = 0;
            while bi < n
                invariant
                    a < n,
                    bi <= n,
                    n == self.people@.len(),
                    self.wf(),
                    is_permutation_of(order@, n as int),
                    pa == self.people@[a as int],
                    forall|j: int|
                        0 <= j < cs@.len() ==> change_ok(self.people@, #[trigger] cs@[j]),
                    forall|j: int| 0 <= j < cs@.len() ==> (#[trigger] cs@[j]) is BecomeInfected,
                    forall|pid: int| #![trigger count_remain_for(cs@, pid)]
                        count_remain_for(cs@, pid) == 0,
                    self.transmission_probability == 0 ==> cs@.len() == 0,
                decreases n - bi,
            {
                proof {
                    assert(order@[bi as int] < n);
                }
                let b = order[bi];
                let pb = self.people[b];
                proof {
                    assert(person_wf(self.people@[a as int]));
                    assert(person_wf(self.people@[b as int]));
                }
                let mut infect: Option<usize> = None;
                if pa.is_infected() && pb.is_susceptible() {
                    let thr = Self::contact_transmission_probability(
                        pa.mobility,
                        pb.mobility,
                        self.transmission_probability,
                    );
                    if diceroll(SCALE) < thr {
                        infect = Some(b);
                    }
                } else if pa.is_susceptible() && pb.is_infected() {
                    let thr = Self::contact_transmission_probability(
                        pb.mobility,
                        pa.mobility,
                        self.transmission_probability,
                    );
                    if diceroll(SCALE) < thr {
                        infect = Some(a);
                    }
                }
                match infect {
                    Some(target) => {
                        let ghost prev = cs@;
                        cs.push(Change::BecomeInfected(target));
                        proof {
                            let ch = Change::BecomeInfected(target);
                            assert(cs@ == prev.push(ch));
                            assert forall|j: int| 0 <= j < cs@.len() implies change_ok(
                                self.people@,
                                #[trigger] cs@[j],
                            ) && cs@[j] is BecomeInfected by {
                                if j < prev.len() {
                                    assert(cs@[j] == prev[j]);
                                } else {
                                    assert(cs@[j] == ch);
                                }
                            }
                            assert forall|pid: int| #![trigger count_remain_for(cs@, pid)]
                                count_remain_for(cs@, pid) == 0 by {
                                lemma_count_remain_push(prev, ch, pid);
                            }
                        }
                    },
                    None => {},
                }
                bi += 1;
            }
            a += 1;
        }
        let mut pid: usize = 0;
        while pid < n
            invariant
                pid <= n,
                n == self.people@.len(),
                self.wf(),
                forall|j: int| 0 <= j < cs@.len() ==> change_ok(self.people@, #[trigger] cs@[j]),
                changes_compatible(cs@),
                forall|p: int| #![trigger count_remain_for(cs@, p)]
                    count_remain_for(cs@, p) <= 1 && (p >= pid ==> count_remain_for(cs@, p) == 0),
                forall|j: int|
                    0 <= j < cs@.len() ==> ((#[trigger] cs@[j]) is BecomeInfected || change_target(
                        cs@[j],
                    ) < pid),
                self.transmission_probability == 0 ==> forall|j: int|
                    0 <= j < cs@.len() ==> !(#[trigger] cs@[j] is BecomeInfected),
                self.recovery_probability == 0 ==> forall|j: int|
                    0 <= j < cs@.len() ==> !(#[trigger] cs@[j] is BecomeRecovered),
                forall|p: int|
                    0 <= p < pid && (#[trigger] self.people@[p]).status is Infected
                        ==> exists|j: int|
                        0 <= j < cs@.len() && ((#[trigger] cs@[j]) == Change::RemainInfected(
                            p as usize,
                        ) || cs@[j] == Change::BecomeRecovered(p as usize)),
                self.recovery_probability >= SCALE ==> forall|p: int|
                    0 <= p < pid && (#[trigger] self.people@[p]).status is Infected
                        ==> exists|j: int|
                        0 <= j < cs@.len() && (#[trigger] cs@[j]) == Change::BecomeRecovered(
                            p as usize,
                        ),
            decreases n - pid,
        {
            let p = self.people[pid];
            if p.is_infected() {
                let roll = diceroll(SCALE);
                let ch = if roll < self.recovery_probability {
                    Change::BecomeRecovered(pid)
                } else {
                    Change::RemainInfected(pid)
                };
                let ghost prev = cs@;
                cs.push(ch);
                proof {
                    assert(cs@ == prev.push(ch));
                    assert(ch == Change::RemainInfected(pid) || ch == Change::BecomeRecovered(
                        pid,
                    ));
                    assert(self.recovery_probability >= SCALE ==> ch == Change::BecomeRecovered(
                        pid,
                    ));
                    assert forall|p2: int|
                        0 <= p2 < pid + 1 && (#[trigger] self.people@[p2]).status
                            is Infected implies exists|j: int|
                        0 <= j < cs@.len() && ((#[trigger] cs@[j]) == Change::RemainInfected(
                            p2 as usize,
                        ) || cs@[j] == Change::BecomeRecovered(p2 as usize)) by {
                        if p2 == pid {
                            assert(cs@[prev.len() as int] == ch);
                        } else {
                            let j = choose|j: int|
                                0 <= j < prev.len() && ((#[trigger] prev[j])
                                    == Change::RemainInfected(p2 as usize) || prev[j]
                                    == Change::BecomeRecovered(p2 as usize));
                            assert(cs@[j] == prev[j]);
                        }
                    }
                    if self.recovery_probability >= SCALE {
                        assert forall|p2: int|
                            0 <= p2 < pid + 1 && (#[trigger] self.people@[p2]).status
                                is Infected implies exists|j: int|
                            0 <= j < cs@.len() && (#[trigger] cs@[j]) == Change::BecomeRecovered(
                                p2 as usize,
                            ) by {
                            if p2 == pid {
                                assert(cs@[prev.len() as int] == ch);
                            } else {
                                let j = choose|j: int|
                                    0 <= j < prev.len() && (#[trigger] prev[j])
                                        == Change::BecomeRecovered(p2 as usize);
                                assert(cs@[j] == prev[j]);
                            }
                        }
                    }
                    assert(change_target(ch) == pid as int);
                    assert forall|j: int| 0 <= j < prev.len() implies change_target(
                        #[trigger] prev[j],
                    ) != pid as int by {
                        if prev[j] is BecomeInfected {
                            assert(change_ok(self.people@, prev[j]));
                        }
                    }
                    assert forall|j: int| 0 <= j < cs@.len() implies change_ok(
                        self.people@,
                        #[trigger] cs@[j],
                    ) && (cs@[j] is BecomeInfected || change_target(cs@[j]) < pid + 1) by {
                        if j < prev.len() {
                            assert(cs@[j] == prev[j]);
                        } else {
                            assert(cs@[j] == ch);
                        }
                    }
                    assert forall|j: int, k: int| 0 <= j < k < cs@.len() implies (change_target(
                        cs@[j],
                    ) == change_target(cs@[k]) ==> cs@[j] is BecomeInfected && cs@[k]
                        is BecomeInfected) by {
                        assert(cs@[j] == prev[j]);
                        if k < prev.len() {
                            assert(cs@[k] == prev[k]);
                        } else {
                            assert(cs@[k] == ch);
                        }
                    }
                    assert forall|q: int| #![trigger count_remain_for(cs@, q)]
                        count_remain_for(cs@, q) <= 1 && (q >= pid + 1 ==> count_remain_for(
                        cs@,
                        q,
                    ) == 0) by {
                        lemma_count_remain_push(prev, ch, q);
                    }
                }
            }
            pid += 1;
        }
        cs
    }

    /// One simulation step under the pairwise-contact model: propose via
    /// `queue_changes_pairwise`, then apply.  The same guarantees as
    /// `step` hold, and it likewise never fails: duplicate same-step
    /// infection proposals are benign no-ops and everyone else is touched
    /// at most once.
    pub fn step_pairwise(&mut self) -> (r: Result<(), Error>)
        requires
            old(self).wf(),
            forall|i: int|
                0 <= i < old(self).people@.len() ==> ((#[trigger] old(self).people@[i]).status
                    matches InfectionStatus::Infected(d) ==> d < i64::MAX),
        ensures
            r is Ok,
            final(self).wf(),
            final(self).people@.len() == old(self).people@.len(),
            final(self).transmission_probability == old(self).transmission_probability,
            final(self).recovery_probability == old(self).recovery_probability,
            final(self).num_contacts_per_step == old(self).num_contacts_per_step,
            forall|i: int|
                0 <= i < old(self).people@.len() ==> status_progresses(
                    (#[trigger] old(self).people@[i]).status,
                    final(self).people@[i].status,
                ),
            old(self).transmission_probability == 0 ==> count_in(
                final(self).people@,
                Compartment::Infected,
            ) <= count_in(old(self).people@, Compartment::Infected),
            old(self).transmission_probability == 0 && old(self).recovery_probability == 0
                ==> forall|i: int|
                0 <= i < old(self).people@.len() ==> same_compartment(
                    (#[trigger] old(self).people@[i]).status,
                    final(self).people@[i].status,
                ),
            old(self).recovery_probability == SCALE ==> forall|i: int|
                0 <= i < old(self).people@.len() && (#[trigger] old(self).people@[i]).status
                    is Infected ==> final(self).people@[i].status is Recovered,
    {
        // Fixing the population size as a machine word lets the recovery
        // proof below cast identities through `usize`.
        let n = self.people.len();
        proof {
            assert(n == old(self).people@.len());
        }
        let changes = self.queue_changes_pairwise();
        proof {
            assert forall|pid: int|
                0 <= pid < self.people@.len() implies match (#[trigger] self.people@[pid]).status {
                InfectionStatus::Infected(d) => d + count_remain_for(changes@, pid) <= i64::MAX,
                InfectionStatus::Susceptible => count_remain_for(changes@, pid) <= i64::MAX,
                InfectionStatus::Recovered => true,
            } by {
                lemma_count_remain_nonneg(changes@, pid);
                assert(count_remain_for(changes@, pid) <= 1);
            }
        }
        let r = self.execute_changes(&changes);
        proof {
            let orig = old(self).people@;
            assert forall|j: int| 0 <= j < changes@.len() implies change_applies(
                orig,
                #[trigger] changes@[j],
            ) by {
                assert(change_ok(orig, changes@[j]));
            }
            lemma_compatible_changes_apply_ok(orig, changes@);
            lemma_partial_monotone(orig, changes@);
            lemma_partial_wf(orig, changes@);
            if old(self).transmission_probability == 0 {
                lemma_partial_no_new_infections(orig, changes@);
            }
            if old(self).transmission_probability == 0 && old(self).recovery_probability == 0 {
                lemma_partial_frozen(orig, changes@);
            }
            if old(self).recovery_probability == SCALE {
                assert forall|i: int|
                    0 <= i < orig.len() && (#[trigger] orig[i]).status
                        is Infected implies self.people@[i].status is Recovered by {
                    let k = choose|k: int|
                        0 <= k < changes@.len() && (#[trigger] changes@[k])
                            == Change::BecomeRecovered(i as usize);
                    assert forall|j: int|
                        0 <= j < changes@.len() implies (change_target(#[trigger] changes@[j])
                        == i ==> changes@[j] == Change::BecomeRecovered(i as usize)) by {
                        if change_target(changes@[j]) == i && j != k {
                            assert(change_target(changes@[k]) == i);
                            if j < k {
                                assert(changes@[j] is BecomeInfected && changes@[k]
                                    is BecomeInfected);
                            } else {
                                assert(changes@[k] is BecomeInfected && changes@[j]
                                    is BecomeInfected);
                            }
                        }
                    }
                    assert(i as usize as int == i);
                    lemma_partial_recovers(orig, changes@, i as usize);
                    assert(apply_changes_partial(orig, changes@)[i].status is Recovered);
                }
            }
        }
        r
    }

    /// Apply the proposed changes to the live population, in order,
    /// re-validating each against the target's current status and stopping
    /// at the first inconsistent one.  On failure the applications made so
    /// far stay committed, as `apply_changes_partial` describes.
    pub fn execute_changes(&mut self, changes: &Vec<Change>) -> (r: Result<(), Error>)
        requires
            days_headroom(old(self).people@, changes@),
        ensures
            final(self).people@ == apply_changes_partial(old(self).people@, changes@),
            final(self).transmission_probability == old(self).transmission_probability,
            final(self).recovery_probability == old(self).recovery_probability,
            final(self).num_contacts_per_step == old(self).num_contacts_per_step,
            match apply_changes_spec(old(self).people@, changes@) {
                Ok(p) => r is Ok && final(self).people@ == p,
                Err(e) => r == Err::<(), Error>(e),
            },
    {
        let ghost all = changes@;
        let ghost orig = old(self).people@;
        let n = changes.len();
        let mut j: usize = 0;
        proof {
            assert(all.subrange(0, n as int) =~= all);
        }
        while j < n
            invariant
                n == all.len(),
                j <= n,
                changes@ == all,
                self.transmission_probability == old(self).transmission_probability,
                self.recovery_probability == old(self).recovery_probability,
                self.num_contacts_per_step == old(self).num_contacts_per_step,
                apply_changes_partial(orig, all) == apply_changes_partial(
                    self.people@,
                    all.subrange(j as int, n as int),
                ),
                apply_changes_spec(orig, all) == apply_changes_spec(
                    self.people@,
                    all.subrange(j as int, n as int),
                ),
                days_headroom(self.people@, all.subrange(j as int, n as int)),
                orig == old(self).people@,
            decreases n - j,
        {
            let ghost suffix = all.subrange(j as int, n as int);
            let ghost cur = self.people@;
            proof {
                assert(suffix[0] == all[j as int]);
                lemma_suffix_shift(all, j as int);
            }
            let ghost rest = all.subrange(j as int + 1, n as int);
            let c = changes[j];
            let pid = match c {
                Change::BecomeInfected(pid) => pid,
                Change::RemainInfected(pid) => pid,
                Change::BecomeRecovered(pid) => pid,
            };
            if pid >= self.people.len() {
                proof {
                    assert(apply_change_spec(cur, c) == Err::<Seq<Person>, Error>(
                        Error::CouldntFindPerson,
                    ));
                }
                return Err(Error::CouldntFindPerson);
            }
            let person = self.people[pid];
            match c {
                Change::RemainInfected(_) => {
                    match person.status {
                        InfectionStatus::Infected(days) => {
                            proof {
                                lemma_count_remain_nonneg(rest, pid as int);
                                assert(count_remain_for(suffix, pid as int) == 1
                                    + count_remain_for(rest, pid as int));
                                assert forall|q: int|
                                    0 <= q < cur.len() && q != pid implies count_remain_for(
                                    suffix,
                                    q,
                                ) == count_remain_for(rest, q) by {}
                            }
                            let next = Person {
                                status: InfectionStatus::Infected(days + 1),
                                mobility: person.mobility,
                            };
                            self.people.set(pid, next);
                        },
                        _ => {
                            return Err(Error::BadChange(BadChangeReason::RemainButNotInfected));
                        },
                    }
                },
                Change::BecomeInfected(_) => {
                    match person.status {
                        InfectionStatus::Susceptible => {
                            proof {
                                assert(count_remain_for(suffix, pid as int) == count_remain_for(
                                    rest,
                                    pid as int,
                                ));
                                assert forall|q: int|
                                    0 <= q < cur.len() && q != pid implies count_remain_for(
                                    suffix,
                                    q,
                                ) == count_remain_for(rest, q) by {}
                            }
                            let next = Person {
                                status: InfectionStatus::Infected(0),
                                mobility: person.mobility,
                            };
                            self.people.set(pid, next);
                        },
                        InfectionStatus::Infected(days) => {
                            if days > 0 {
                                return Err(Error::BadChange(BadChangeReason::AlreadyInfected));
                            }
                            proof {
                                lemma_count_remain_nonneg(rest, pid as int);
                                assert forall|q: int| 0 <= q < cur.len() implies count_remain_for(
                                    suffix,
                                    q,
                                ) >= count_remain_for(rest, q) by {}
                            }
                        },
                        InfectionStatus::Recovered => {
                            return Err(Error::BadChange(BadChangeReason::AlreadyRecovered));
                        },
                    }
                },
                Change::BecomeRecovered(_) => {
                    match person.status {
                        InfectionStatus::Infected(_) => {
                            proof {
                                assert forall|q: int| 0 <= q < cur.len() implies count_remain_for(
                                    suffix,
                                    q,
                                ) >= count_remain_for(rest, q) - (if q == pid {
                                    1int
                                } else {
                                    0int
                                }) by {
                                    lemma_count_remain_nonneg(rest, q);
                                }
                                lemma_count_remain_nonneg(rest, pid as int);
                            }
                            let next = Person {
                                status: InfectionStatus::Recovered,
                                mobility: person.mobility,
                            };
                            self.people.set(pid, next);
                        },
                        _ => {
                            return Err(Error::BadChange(BadChangeReason::RecoverButNotInfected));
                        },
                    }
                },
            }
            j += 1;
        }
        proof {
            assert(all.subrange(n as int, n as int) =~= Seq::<Change>::empty());
        }
        Ok(())
    }

    /// One simulation step: propose changes from a snapshot, then apply
    /// them.  Whatever the random draws were: the population stays the same
    /// size, every person makes at most one legal move (`step_evolution`,
    /// so no status ever regresses), a zero transmission probability cannot
    /// increase the number of infected, and with both probabilities zero
    /// every person keeps their compartment.  On failure the partially
    /// applied state remains, still subject to all of the above.  In fact
    /// a step never fails: each agent is the target of at most one change,
    /// proposed from its own current status, so every change is still
    /// consistent when it is applied.
    pub fn step(&mut self) -> (r: Result<(), Error>)
        requires
            old(self).wf(),
            forall|i: int|
                0 <= i < old(self).people@.len() ==> ((#[trigger] old(self).people@[i]).status
                    matches InfectionStatus::Infected(d) ==> d < i64::MAX),
        ensures
            r is Ok,
            final(self).wf(),
            final(self).people@.len() == old(self).people@.len(),
            final(self).transmission_probability == old(self).transmission_probability,
            final(self).recovery_probability == old(self).recovery_probability,
            final(self).num_contacts_per_step == old(self).num_contacts_per_step,
            forall|i: int|
                0 <= i < old(self).people@.len() ==> step_evolution(
                    (#[trigger] old(self).people@[i]).status,
                    final(self).people@[i].status,
                ),
            forall|i: int|
                0 <= i < old(self).people@.len() ==> status_progresses(
                    (#[trigger] old(self).people@[i]).status,
                    final(self).people@[i].status,
                ),
            old(self).transmission_probability == 0 ==> count_in(
                final(self).people@,
                Compartment::Infected,
            ) <= count_in(old(self).people@, Compartment::Infected),
            old(self).transmission_probability == 0 && old(self).recovery_probability == 0
                ==> forall|i: int|
                0 <= i < old(self).people@.len() ==> same_compartment(
                    (#[trigger] old(self).people@[i]).status,
                    final(self).people@[i].status,
                ),
            old(self).recovery_probability == SCALE ==> forall|i: int|
                0 <= i < old(self).people@.len() && (#[trigger] old(self).people@[i]).status
                    is Infected ==> final(self).people@[i].status is Recovered,
    {
        let changes = self.queue_changes();
        proof {
            assert forall|pid: int|
                0 <= pid < self.people@.len() implies match (#[trigger] self.people@[pid]).status {
                InfectionStatus::Infected(d) => d + count_remain_for(changes@, pid) <= i64::MAX,
                InfectionStatus::Susceptible => count_remain_for(changes@, pid) <= i64::MAX,
                InfectionStatus::Recovered => true,
            } by {
                lemma_count_remain_le_one(changes@, pid);
                lemma_count_remain_nonneg(changes@, pid);
            }
        }
        let r = self.execute_changes(&changes);
        proof {
            let orig = old(self).people@;
            lemma_consistent_changes_apply_ok(orig, changes@);
            lemma_partial_monotone(orig, changes@);
            lemma_partial_step_evolution(orig, changes@);
            assert forall|i: int| 0 <= i < orig.len() implies status_progresses(
                (#[trigger] orig[i]).status,
                self.people@[i].status,
            ) by {
                lemma_step_evolution_progresses(orig[i].status, self.people@[i].status);
            }
            if old(self).transmission_probability == 0 {
                lemma_partial_no_new_infections(orig, changes@);
            }
            if old(self).transmission_probability == 0 && old(self).recovery_probability == 0 {
                lemma_partial_frozen(orig, changes@);
            }
            if old(self).recovery_probability == SCALE {
                assert forall|i: int|
                    0 <= i < orig.len() && (#[trigger] orig[i]).status
                        is Infected implies self.people@[i].status is Recovered by {
                    let k = choose|k: int|
                        0 <= k < changes@.len() && (#[trigger] changes@[k])
                            == Change::BecomeRecovered(i as usize);
                    assert forall|j: int, k2: int|
                        0 <= j < k2 < changes@.len() implies (change_target(changes@[j])
                        == change_target(changes@[k2]) ==> changes@[j] is BecomeInfected
                        && changes@[k2] is BecomeInfected) by {}
                    assert forall|j: int|
                        0 <= j < changes@.len() implies (change_target(#[trigger] changes@[j])
                        == i ==> changes@[j] == Change::BecomeRecovered(i as usize)) by {
                        if change_target(changes@[j]) == i && j != k {
                            assert(change_target(changes@[k]) == i);
                        }
                    }
                    assert forall|j: int| 0 <= j < changes@.len() implies change_applies(
                        orig,
                        #[trigger] changes@[j],
                    ) by {}
                    lemma_partial_recovers(orig, changes@, i as usize);
                }
            }
            assert forall|i: int| 0 <= i < self.people@.len() implies person_wf(
                #[trigger] self.people@[i],
            ) by {
                assert(person_wf(orig[i]));
                assert(step_evolution(orig[i].status, self.people@[i].status));
                assert(self.people@[i].mobility == orig[i].mobility);
            }
        }
        r
    }

    /// Run `num_steps` steps in sequence, aborting on the first failed
    /// step — which, since a step never fails, means the run always
    /// completes.  The per-step guarantees carry over the whole run.
    pub fn run(&mut self, num_steps: usize) -> (r: Result<(), Error>)
        requires
            old(self).wf(),
            num_steps <= i64::MAX,
            forall|i: int|
                0 <= i < old(self).people@.len() ==> ((#[trigger] old(self).people@[i]).status
                    matches InfectionStatus::Infected(d) ==> d + num_steps <= i64::MAX),
        ensures
            r is Ok,
            final(self).wf(),
            final(self).people@.len() == old(self).people@.len(),
            final(self).transmission_probability == old(self).transmission_probability,
            final(self).recovery_probability == old(self).recovery_probability,
            final(self).num_contacts_per_step == old(self).num_contacts_per_step,
            forall|i: int|
                0 <= i < old(self).people@.len() ==> status_progresses(
                    (#[trigger] old(self).people@[i]).status,
                    final(self).people@[i].status,
                ),
            old(self).transmission_probability == 0 ==> count_in(
                final(self).people@,
                Compartment::Infected,
            ) <= count_in(old(self).people@, Compartment::Infected),
            old(self).transmission_probability == 0 && old(self).recovery_probability == 0 ==> {
                &&& forall|i: int|
                    0 <= i < old(self).people@.len() ==> same_compartment(
                        (#[trigger] old(self).people@[i]).status,
                        final(self).people@[i].status,
                    )
                &&& count_in(final(self).people@, Compartment::Susceptible) == count_in(
                    old(self).people@,
                    Compartment::Susceptible,
                )
                &&& count_in(final(self).people@, Compartment::Infected) == count_in(
                    old(self).people@,
                    Compartment::Infected,
                )
                &&& count_in(final(self).people@, Compartment::Recovered) == count_in(
                    old(self).people@,
                    Compartment::Recovered,
                )
            },
            old(self).recovery_probability == SCALE && num_steps >= 1 ==> forall|i: int|
                0 <= i < old(self).people@.len() && (#[trigger] old(self).people@[i]).status
                    is Infected ==> final(self).people@[i].status is Recovered,
    {
        let ghost orig = old(self).people@;
        let ghost t0 = old(self).transmission_probability;
        let ghost r0 = old(self).recovery_probability;
        let ghost c0 = old(self).num_contacts_per_step;
        let mut s: usize = 0;
        while s < num_steps
            invariant
                orig == old(self).people@,
                t0 == old(self).transmission_probability,
                r0 == old(self).recovery_probability,
                c0 == old(self).num_contacts_per_step,
                s <= num_steps,
                num_steps <= i64::MAX,
                self.wf(),
                self.people@.len() == orig.len(),
                self.transmission_probability == t0,
                self.recovery_probability == r0,
                self.num_contacts_per_step == c0,
                forall|i: int|
                    0 <= i < orig.len() ==> status_progresses(
                        (#[trigger] orig[i]).status,
                        self.people@[i].status,
                    ),
                forall|i: int|
                    0 <= i < orig.len() ==> ((#[trigger] self.people@[i]).status
                        matches InfectionStatus::Infected(d) ==> d + (num_steps - s) <= i64::MAX),
                t0 == 0 ==> count_in(self.people@, Compartment::Infected) <= count_in(
                    orig,
                    Compartment::Infected,
                ),
                t0 == 0 && r0 == 0 ==> forall|i: int|
                    0 <= i < orig.len() ==> same_compartment(
                        (#[trigger] orig[i]).status,
                        self.people@[i].status,
                    ),
                r0 == SCALE && s >= 1 ==> forall|i: int|
                    0 <= i < orig.len() && (#[trigger] orig[i]).status is Infected
                        ==> self.people@[i].status is Recovered,
            decreases num_steps - s,
        {
            let ghost before = self.people@;
            let result = self.step();
            proof {
                assert forall|i: int| 0 <= i < orig.len() implies status_progresses(
                    (#[trigger] orig[i]).status,
                    self.people@[i].status,
                ) by {
                    lemma_status_progresses_trans(
                        orig[i].status,
                        before[i].status,
                        self.people@[i].status,
                    );
                }
                assert forall|i: int|
                    0 <= i < orig.len() implies ((#[trigger] self.people@[i]).status
                    matches InfectionStatus::Infected(d) ==> d + (num_steps - (s + 1))
                    <= i64::MAX) by {
                    assert(step_evolution(before[i].status, self.people@[i].status));
                    assert(before[i].status matches InfectionStatus::Infected(d1) ==> d1
                        + (num_steps - s) <= i64::MAX);
                }
                if t0 == 0 && r0 == 0 {
                    assert forall|i: int| 0 <= i < orig.len() implies same_compartment(
                        (#[trigger] orig[i]).status,
                        self.people@[i].status,
                    ) by {
                        assert(same_compartment(orig[i].status, before[i].status));
                        assert(same_compartment(before[i].status, self.people@[i].status));
                    }
                }
                if r0 == SCALE {
                    assert forall|i: int|
                        0 <= i < orig.len() && (#[trigger] orig[i]).status
                            is Infected implies self.people@[i].status is Recovered by {
                        assert(status_progresses(orig[i].status, before[i].status));
                        if before[i].status is Infected {
                            assert(self.people@[i].status is Recovered);
                        } else {
                            assert(before[i].status is Recovered);
                            assert(status_progresses(before[i].status, self.people@[i].status));
                        }
                    }
                }
            }
            match result {
                Ok(_) => {},
                Err(e) => {
                    proof {
                        if t0 == 0 && r0 == 0 {
                            lemma_run_frozen_counts(orig, self.people@);
                        }
                    }
                    return Err(e);
                },
            }
            s += 1;
        }
        proof {
            if t0 == 0 && r0 == 0 {
                lemma_run_frozen_counts(orig, self.people@);
            }
        }
        Ok(())
    }
}

/// Pointwise equal compartments give equal compartment counts across the
/// board.
proof fn lemma_run_frozen_counts(orig: Seq<Person>, now: Seq<Person>)
    requires
        orig.len() == now.len(),
        forall|i: int|
            0 <= i < orig.len() ==> same_compartment((#[trigger] orig[i]).status, now[i].status),
    ensures
        count_in(now, Compartment::Susceptible) == count_in(orig, Compartment::Susceptible),
        count_in(now, Compartment::Infected) == count_in(orig, Compartment::Infected),
        count_in(now, Compartment::Recovered) == count_in(orig, Compartment::Recovered),
{
    lemma_count_congruent(orig, now, Compartment::Susceptible);
    lemma_count_congruent(orig, now, Compartment::Infected);
    lemma_count_congruent(orig, now, Compartment::Recovered);
}

/// The mean-field formula at its three pinned points: no infection pressure
/// when nobody is infected, the bare transmission probability when everybody
/// is, and `p * t` (in fixed point) for a single contact per step.
pub proof fn lemma_infection_probability_formula(p: int, k: nat, t: int)
    requires
        0 <= p <= SCALE,
        k >= 1,
        0 <= t <= SCALE,
    ensures
        p == 0 ==> infection_prob_fp(p, k, t) == 0,
        p == SCALE ==> infection_prob_fp(p, k, t) == t,
        k == 1 ==> infection_prob_fp(p, k, t) == p * t / (SCALE as int),
{
    if p == 0 {
        lemma_pow_fp_scale(k);
        assert((SCALE - pow_fp(SCALE as int, k)) * t == 0);
        assert(0int / (SCALE as int) == 0);
    }
    if p == SCALE {
        lemma_pow_fp_zero(k);
        lemma_div_multiples_vanish(t, SCALE as int);
        assert((SCALE as int) * t == t * (SCALE as int)) by (nonlinear_arith);
    }
    if k == 1 {
        let q = SCALE - p;
        assert(pow_fp(q, 1) == q * pow_fp(q, 0) / (SCALE as int));
        lemma_div_multiples_vanish(q, SCALE as int);
        assert(q * (SCALE as int) == (SCALE as int) * q) by (nonlinear_arith);
        assert(pow_fp(q, 1) == q);
    }
}

/// `pow_fp(SCALE, k) == SCALE`: certainty stays certainty.
pub proof fn lemma_pow_fp_scale(k: nat)
    ensures
        pow_fp(SCALE as int, k) == SCALE,
    decreases k,
{
    if k > 0 {
        lemma_pow_fp_scale((k - 1) as nat);
        lemma_div_multiples_vanish(SCALE as int, SCALE as int);
    }
}

/// `pow_fp(0, k) == 0` for `k >= 1`: impossibility stays impossible.
pub proof fn lemma_pow_fp_zero(k: nat)
    requires
        k >= 1,
    ensures
        pow_fp(0, k) == 0,
{
    assert(0 * pow_fp(0, (k - 1) as nat) == 0);
    assert(0int / (SCALE as int) == 0);
}

} // verus!


