use sir_sim::SCALE;
use sir_sim::agent::{InfectionStatus, Person};
use sir_sim::change::{Change, shuffled_identities};
use sir_sim::model::Model;

fn model_with_mobility(
    statuses: Vec<InfectionStatus>,
    mobility: u64,
    t: u64,
    r: u64,
) -> Model {
    Model {
        people: statuses
            .into_iter()
            .map(|status| Person { status, mobility })
            .collect(),
        transmission_probability: t,
        recovery_probability: r,
        num_contacts_per_step: 1,
    }
}

#[test]
fn shuffle_is_a_permutation() {
    for n in 0..20 {
        let order = shuffled_identities(n);
        assert_eq!(order.len(), n);
        let mut seen = vec![false; n];
        for id in order {
            assert!(id < n);
            assert!(!seen[id]);
            seen[id] = true;
        }
    }
}

#[test]
fn shuffle_is_fair_over_many_trials() {
    // Chi-square goodness of fit over the 6 permutations of 3 identities:
    // 6000 trials, 1000 expected each; the statistic is chi-square with 5
    // degrees of freedom, so values above 40 have probability ~ 1e-7.
    let trials = 6000;
    let mut counts = [0i64; 6];
    for _ in 0..trials {
        let p = shuffled_identities(3);
        let idx = match (p[0], p[1], p[2]) {
            (0, 1, 2) => 0,
            (0, 2, 1) => 1,
            (1, 0, 2) => 2,
            (1, 2, 0) => 3,
            (2, 0, 1) => 4,
            (2, 1, 0) => 5,
            other => panic!("not a permutation: {:?}", other),
        };
        counts[idx] += 1;
    }
    let expected = trials / 6;
    let chi_square_scaled: i64 = counts
        .iter()
        .map(|&c| (c - expected) * (c - expected))
        .sum::<i64>()
        / expected;
    assert!(
        chi_square_scaled < 40,
        "shuffle looks biased: counts {:?}, chi-square {}",
        counts,
        chi_square_scaled
    );
}

#[test]
fn contact_probability_scales_by_both_mobilities() {
    assert_eq!(
        Model::contact_transmission_probability(SCALE / 2, SCALE / 2, SCALE / 2),
        125_000
    );
    assert_eq!(Model::contact_transmission_probability(SCALE, SCALE, SCALE), SCALE);
    assert_eq!(Model::contact_transmission_probability(SCALE, SCALE, 0), 0);
    assert_eq!(Model::contact_transmission_probability(0, SCALE, SCALE), 0);
}

#[test]
fn pairwise_zero_transmission_proposes_no_infections() {
    let mut statuses = vec![InfectionStatus::Susceptible; 20];
    statuses[0] = InfectionStatus::Infected(0);
    let m = model_with_mobility(statuses, SCALE, 0, SCALE / 2);
    for _ in 0..10 {
        let changes = m.queue_changes_pairwise();
        assert!(changes.iter().all(|c| !matches!(c, Change::BecomeInfected(_))));
    }
}

#[test]
fn pairwise_every_infected_gets_exactly_one_change() {
    let statuses = vec![
        InfectionStatus::Infected(0),
        InfectionStatus::Recovered,
        InfectionStatus::Infected(3),
        InfectionStatus::Susceptible,
    ];
    let m = model_with_mobility(statuses, SCALE, 0, SCALE / 2);
    let changes = m.queue_changes_pairwise();
    let mut targets: Vec<usize> = changes
        .iter()
        .map(|c| match c {
            Change::RemainInfected(pid) | Change::BecomeRecovered(pid) => *pid,
            Change::BecomeInfected(pid) => panic!("no infection can fire at t = 0: {}", pid),
        })
        .collect();
    targets.sort();
    assert_eq!(targets, vec![0, 2]);
}

#[test]
fn pairwise_certain_transmission_with_full_mobility_infects() {
    // Full mobility and certain transmission make every infected-susceptible
    // contact fire.
    let mut m = model_with_mobility(
        vec![InfectionStatus::Infected(0), InfectionStatus::Susceptible],
        SCALE,
        SCALE,
        0,
    );
    assert_eq!(m.step_pairwise(), Ok(()));
    assert_eq!(m.num_infected(), 2);
    assert_eq!(m.people[1].status, InfectionStatus::Infected(0));
    assert_eq!(m.people[0].status, InfectionStatus::Infected(1));
}

#[test]
fn pairwise_certain_recovery_recovers_everyone() {
    let mut m = model_with_mobility(vec![InfectionStatus::Infected(5); 6], SCALE, 0, SCALE);
    assert_eq!(m.step_pairwise(), Ok(()));
    assert_eq!(m.num_recovered(), 6);
}

#[test]
fn pairwise_frozen_population_never_moves() {
    let mut m = model_with_mobility(
        vec![
            InfectionStatus::Susceptible,
            InfectionStatus::Infected(1),
            InfectionStatus::Recovered,
        ],
        SCALE,
        0,
        0,
    );
    for _ in 0..10 {
        assert_eq!(m.step_pairwise(), Ok(()));
    }
    assert_eq!(m.num_susceptible(), 1);
    assert_eq!(m.num_infected(), 1);
    assert_eq!(m.num_recovered(), 1);
    assert_eq!(m.people[0].status, InfectionStatus::Susceptible);
    assert_eq!(m.people[1].status, InfectionStatus::Infected(11));
    assert_eq!(m.people[2].status, InfectionStatus::Recovered);
}

#[test]
fn pairwise_statuses_never_regress() {
    let mut statuses = vec![InfectionStatus::Susceptible; 15];
    statuses[0] = InfectionStatus::Infected(0);
    let mut m = model_with_mobility(statuses, SCALE / 2, SCALE / 2, SCALE / 5);
    for _ in 0..10 {
        let before: Vec<InfectionStatus> = m.people.iter().map(|p| p.status).collect();
        assert_eq!(m.step_pairwise(), Ok(()));
        for (b, a) in before.iter().zip(m.people.iter()) {
            match b {
                InfectionStatus::Susceptible => {},
                InfectionStatus::Infected(_) => {
                    assert!(!matches!(a.status, InfectionStatus::Susceptible));
                },
                InfectionStatus::Recovered => {
                    assert_eq!(a.status, InfectionStatus::Recovered);
                },
            }
        }
        let people = m.num_people();
        assert_eq!(m.num_susceptible() + m.num_infected() + m.num_recovered(), people);
    }
}
