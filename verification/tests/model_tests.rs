use sir_sim::SCALE;
use sir_sim::agent::{InfectionStatus, Person};
use sir_sim::change::{Change, diceroll};
use sir_sim::errors::{BadChangeReason, Error};
use sir_sim::model::Model;

fn person(status: InfectionStatus) -> Person {
    Person { status, mobility: SCALE / 10 }
}

fn model(statuses: Vec<InfectionStatus>, t: u64, r: u64, contacts: usize) -> Model {
    Model {
        people: statuses.into_iter().map(person).collect(),
        transmission_probability: t,
        recovery_probability: r,
        num_contacts_per_step: contacts,
    }
}

#[test]
fn person_queries_follow_status() {
    let inf = person(InfectionStatus::Infected(3));
    assert!(inf.is_infected());
    assert!(!inf.is_susceptible());
    assert!(!inf.is_recovered());

    let sus = person(InfectionStatus::Susceptible);
    assert!(sus.is_susceptible());
    assert!(!sus.is_infected());
    assert!(!sus.is_recovered());

    let rec = person(InfectionStatus::Recovered);
    assert!(rec.is_recovered());
    assert!(!rec.is_infected());
    assert!(!rec.is_susceptible());
}

#[test]
fn counts_partition_the_population() {
    let m = model(
        vec![
            InfectionStatus::Susceptible,
            InfectionStatus::Infected(0),
            InfectionStatus::Infected(4),
            InfectionStatus::Recovered,
            InfectionStatus::Susceptible,
        ],
        0,
        0,
        1,
    );
    assert_eq!(m.num_people(), 5);
    assert_eq!(m.num_susceptible(), 2);
    assert_eq!(m.num_infected(), 2);
    assert_eq!(m.num_recovered(), 1);
    assert_eq!(m.num_susceptible() + m.num_infected() + m.num_recovered(), m.num_people());
}

#[test]
fn proportion_infected_is_fixed_point_ratio() {
    let empty = model(vec![], 0, 0, 1);
    assert_eq!(empty.proportion_infected(), 0);

    let quarter = model(
        vec![
            InfectionStatus::Infected(0),
            InfectionStatus::Susceptible,
            InfectionStatus::Susceptible,
            InfectionStatus::Susceptible,
        ],
        0,
        0,
        1,
    );
    assert_eq!(quarter.proportion_infected(), SCALE / 4);

    let all = model(vec![InfectionStatus::Infected(1), InfectionStatus::Infected(2)], 0, 0, 1);
    assert_eq!(all.proportion_infected(), SCALE);
}

#[test]
fn infection_probability_nobody_infected_is_zero() {
    let m = model(vec![InfectionStatus::Susceptible, InfectionStatus::Recovered], 100_000, 0, 5);
    assert_eq!(m.infection_probability(), 0);
}

#[test]
fn infection_probability_everybody_infected_is_transmission() {
    let m = model(vec![InfectionStatus::Infected(0), InfectionStatus::Infected(3)], 100_000, 0, 5);
    assert_eq!(m.infection_probability(), 100_000);
}

#[test]
fn infection_probability_one_contact_is_p_times_t() {
    let m = model(vec![InfectionStatus::Infected(0), InfectionStatus::Susceptible], 100_000, 0, 1);
    // p = 1/2, so p * t = 500000 * 100000 / SCALE = 50000.
    assert_eq!(m.infection_probability(), 50_000);
}

#[test]
fn infection_probability_two_contacts_exact_value() {
    let m = model(vec![InfectionStatus::Infected(0), InfectionStatus::Susceptible], 100_000, 0, 2);
    // p = 1/2: (1 - (1/2)^2) * t = 750000 * 100000 / SCALE = 75000.
    assert_eq!(m.infection_probability(), 75_000);
}

#[test]
fn remain_infected_increments_day_count() {
    let mut m = model(vec![InfectionStatus::Infected(2)], 0, 0, 1);
    let r = m.execute_changes(&vec![Change::RemainInfected(0)]);
    assert_eq!(r, Ok(()));
    assert_eq!(m.people[0].status, InfectionStatus::Infected(3));
}

#[test]
fn remain_infected_on_susceptible_is_bad_change() {
    let mut m = model(vec![InfectionStatus::Susceptible], 0, 0, 1);
    let r = m.execute_changes(&vec![Change::RemainInfected(0)]);
    assert_eq!(r, Err(Error::BadChange(BadChangeReason::RemainButNotInfected)));
    assert_eq!(m.people[0].status, InfectionStatus::Susceptible);
}

#[test]
fn become_infected_starts_at_day_zero() {
    let mut m = model(vec![InfectionStatus::Susceptible], 0, 0, 1);
    let r = m.execute_changes(&vec![Change::BecomeInfected(0)]);
    assert_eq!(r, Ok(()));
    assert_eq!(m.people[0].status, InfectionStatus::Infected(0));
}

#[test]
fn become_infected_twice_same_step_is_benign() {
    let mut m = model(vec![InfectionStatus::Susceptible], 0, 0, 1);
    let r = m.execute_changes(&vec![Change::BecomeInfected(0), Change::BecomeInfected(0)]);
    assert_eq!(r, Ok(()));
    assert_eq!(m.people[0].status, InfectionStatus::Infected(0));
}

#[test]
fn become_infected_on_longer_infection_is_bad_change() {
    let mut m = model(vec![InfectionStatus::Infected(1)], 0, 0, 1);
    let r = m.execute_changes(&vec![Change::BecomeInfected(0)]);
    assert_eq!(r, Err(Error::BadChange(BadChangeReason::AlreadyInfected)));
    assert_eq!(m.people[0].status, InfectionStatus::Infected(1));
}

#[test]
fn become_infected_on_recovered_is_bad_change() {
    let mut m = model(vec![InfectionStatus::Recovered], 0, 0, 1);
    let r = m.execute_changes(&vec![Change::BecomeInfected(0)]);
    assert_eq!(r, Err(Error::BadChange(BadChangeReason::AlreadyRecovered)));
}

#[test]
fn become_recovered_requires_infection() {
    let mut m = model(vec![InfectionStatus::Infected(7), InfectionStatus::Susceptible], 0, 0, 1);
    assert_eq!(m.execute_changes(&vec![Change::BecomeRecovered(0)]), Ok(()));
    assert_eq!(m.people[0].status, InfectionStatus::Recovered);

    let r = m.execute_changes(&vec![Change::BecomeRecovered(1)]);
    assert_eq!(r, Err(Error::BadChange(BadChangeReason::RecoverButNotInfected)));
}

#[test]
fn unknown_identity_is_person_not_found() {
    let mut m = model(vec![InfectionStatus::Susceptible], 0, 0, 1);
    let r = m.execute_changes(&vec![Change::BecomeInfected(5)]);
    assert_eq!(r, Err(Error::CouldntFindPerson));
}

#[test]
fn failed_apply_keeps_the_partial_state() {
    let mut m = model(vec![InfectionStatus::Infected(0), InfectionStatus::Susceptible], 0, 0, 1);
    let r = m.execute_changes(&vec![Change::BecomeRecovered(0), Change::BecomeRecovered(1)]);
    assert_eq!(r, Err(Error::BadChange(BadChangeReason::RecoverButNotInfected)));
    // The first change stays committed even though the second failed.
    assert_eq!(m.people[0].status, InfectionStatus::Recovered);
    assert_eq!(m.people[1].status, InfectionStatus::Susceptible);
}

#[test]
fn diceroll_respects_its_bound() {
    assert_eq!(diceroll(1), 0);
    for _ in 0..1000 {
        assert!(diceroll(SCALE) < SCALE);
    }
}

#[test]
fn zero_transmission_proposes_no_infections() {
    let mut statuses = vec![InfectionStatus::Susceptible; 50];
    statuses[0] = InfectionStatus::Infected(0);
    let m = model(statuses, 0, SCALE / 2, 5);
    for _ in 0..20 {
        let changes = m.queue_changes();
        assert!(changes.iter().all(|c| !matches!(c, Change::BecomeInfected(_))));
    }
}

#[test]
fn certain_recovery_proposes_recovery_for_every_infected() {
    let m = model(vec![InfectionStatus::Infected(0); 10], 0, SCALE, 1);
    let changes = m.queue_changes();
    assert_eq!(changes.len(), 10);
    let mut seen = vec![false; 10];
    for c in &changes {
        match c {
            Change::BecomeRecovered(pid) => {
                assert!(!seen[*pid]);
                seen[*pid] = true;
            },
            other => panic!("expected a recovery, got {:?}", other),
        }
    }
    assert!(seen.iter().all(|s| *s));
}

#[test]
fn zero_recovery_keeps_every_infected_infected() {
    let m = model(vec![InfectionStatus::Infected(2); 8], 0, 0, 1);
    let changes = m.queue_changes();
    assert_eq!(changes.len(), 8);
    assert!(changes.iter().all(|c| matches!(c, Change::RemainInfected(_))));
}

#[test]
fn frozen_population_never_moves() {
    let mut m = model(
        vec![
            InfectionStatus::Susceptible,
            InfectionStatus::Infected(1),
            InfectionStatus::Recovered,
            InfectionStatus::Susceptible,
        ],
        0,
        0,
        3,
    );
    assert_eq!(m.run(25), Ok(()));
    assert_eq!(m.num_susceptible(), 2);
    assert_eq!(m.num_infected(), 1);
    assert_eq!(m.num_recovered(), 1);
    assert_eq!(m.people[0].status, InfectionStatus::Susceptible);
    // Day counts still advance for the infected person: 1 + 25 steps.
    assert_eq!(m.people[1].status, InfectionStatus::Infected(26));
    assert_eq!(m.people[2].status, InfectionStatus::Recovered);
}

#[test]
fn zero_transmission_infected_count_never_grows() {
    let mut statuses = vec![InfectionStatus::Susceptible; 30];
    for s in statuses.iter_mut().take(10) {
        *s = InfectionStatus::Infected(0);
    }
    let mut m = model(statuses, 0, SCALE / 4, 2);
    let mut last = m.num_infected();
    for _ in 0..20 {
        assert_eq!(m.step(), Ok(()));
        let now = m.num_infected();
        assert!(now <= last);
        last = now;
    }
}

#[test]
fn statuses_never_regress_over_a_run() {
    let mut statuses = vec![InfectionStatus::Susceptible; 40];
    statuses[0] = InfectionStatus::Infected(0);
    statuses[1] = InfectionStatus::Recovered;
    let mut m = model(statuses, SCALE / 2, SCALE / 5, 4);
    for _ in 0..15 {
        let before: Vec<InfectionStatus> = m.people.iter().map(|p| p.status).collect();
        assert_eq!(m.step(), Ok(()));
        for (b, a) in before.iter().zip(m.people.iter()) {
            match b {
                InfectionStatus::Susceptible => {},
                InfectionStatus::Infected(_) => {
                    assert!(!matches!(a.status, InfectionStatus::Susceptible));
                },
                InfectionStatus::Recovered => {
                    assert_eq!(a.status, InfectionStatus::Recovered);
                },
            }
        }
    }
}

#[test]
fn certain_transmission_infects_the_whole_population() {
    // With one of two people infected and 40 contacts per step, the fixed
    // point (1/2)^40 underflows to 0, so the step infection probability is
    // exactly the transmission probability — here certainty.
    let mut m = model(vec![InfectionStatus::Infected(0), InfectionStatus::Susceptible], SCALE, 0, 40);
    assert_eq!(m.step(), Ok(()));
    assert_eq!(m.num_infected(), 2);
    assert_eq!(m.people[1].status, InfectionStatus::Infected(0));
}

#[test]
fn counts_stay_closed_during_an_epidemic() {
    let mut statuses = vec![InfectionStatus::Susceptible; 200];
    statuses[0] = InfectionStatus::Infected(0);
    statuses[1] = InfectionStatus::Infected(2);
    let mut m = model(statuses, SCALE / 2, SCALE / 10, 8);
    for _ in 0..25 {
        assert_eq!(m.step(), Ok(()));
        assert_eq!(m.num_susceptible() + m.num_infected() + m.num_recovered(), 200);
        assert_eq!(m.num_people(), 200);
    }
}

#[test]
fn reference_scenario_one_step() {
    let mut statuses = vec![InfectionStatus::Susceptible; 100];
    statuses[0] = InfectionStatus::Infected(0);
    let mut m = model(statuses, 100_000, SCALE, 5);
    assert_eq!(m.run(1), Ok(()));
    // Certain recovery: the seed agent has recovered.
    assert_eq!(m.people[0].status, InfectionStatus::Recovered);
    assert_eq!(m.num_recovered(), 1);
    // Anyone newly infected came from the susceptible pool this step.
    for p in m.people.iter().skip(1) {
        match p.status {
            InfectionStatus::Susceptible => {},
            InfectionStatus::Infected(d) => assert_eq!(d, 0),
            InfectionStatus::Recovered => panic!("nobody but the seed can have recovered"),
        }
    }
    assert_eq!(m.num_susceptible() + m.num_infected() + m.num_recovered(), 100);
}
