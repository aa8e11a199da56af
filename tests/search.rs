use seating::chart::{PreferenceTable, SeatingChart};
use seating::engine::{select_parents, ConfigError, Simulator};
use seating::fitness::{fitness, SeatingFitness};

fn pair_table() -> PreferenceTable {
    // 0 and 1 like each other and dislike 2 and 3; 2 and 3 are indifferent
    PreferenceTable {
        rows: vec![
            vec![0, 10, -5, -5],
            vec![10, 0, -5, -5],
            vec![0, 0, 0, 0],
            vec![0, 0, 0, 0],
        ],
    }
}

fn chart(seats: Vec<usize>, group_size: usize) -> SeatingChart {
    SeatingChart { seats, group_size }
}

fn is_perm(seats: &[usize], n: usize) -> bool {
    let mut seen = vec![false; n];
    if seats.len() != n {
        return false;
    }
    for &s in seats {
        if s >= n || seen[s] {
            return false;
        }
        seen[s] = true;
    }
    true
}

fn rotations(n: usize, count: usize, group_size: usize) -> Vec<SeatingChart> {
    (0..count)
        .map(|r| {
            let mut seats: Vec<usize> = (0..n).collect();
            seats.rotate_left(r % n);
            if r % 2 == 1 {
                seats.reverse();
            }
            chart(seats, group_size)
        })
        .collect()
}

#[test]
fn perfect_pairing_scores_higher() {
    let t = pair_table();
    let good = fitness(&chart(vec![0, 1, 2, 3], 2), &t);
    let bad = fitness(&chart(vec![0, 2, 1, 3], 2), &t);
    assert_eq!(good.value, 20);
    assert_eq!(bad.value, -10);
    assert!(good > bad);
}

#[test]
fn fitness_is_deterministic() {
    let t = pair_table();
    let c = chart(vec![2, 0, 3, 1], 2);
    assert_eq!(fitness(&c, &t), fitness(&c, &t));
}

#[test]
fn single_group_scores_every_pair() {
    let t = PreferenceTable {
        rows: vec![vec![0, 1, 2], vec![3, 0, 4], vec![5, 6, 0]],
    };
    // group size equal to the number of people, and larger than it
    assert_eq!(fitness(&chart(vec![0, 1, 2], 3), &t).value, 21);
    assert_eq!(fitness(&chart(vec![2, 0, 1], 7), &t).value, 21);
    assert_eq!(fitness(&chart(vec![0, 1, 2, 3], 4), &pair_table()).value, 0);
}

#[test]
fn short_last_group_counts() {
    let t = PreferenceTable {
        rows: vec![vec![0, 1, 2], vec![3, 0, 4], vec![5, 6, 0]],
    };
    // groups [0, 1] and [2]
    assert_eq!(fitness(&chart(vec![0, 1, 2], 2), &t).value, 4);
    // groups [1, 2] and [0]
    assert_eq!(fitness(&chart(vec![1, 2, 0], 2), &t).value, 10);
}

#[test]
fn swapping_within_a_group_keeps_the_score() {
    let t = PreferenceTable {
        rows: vec![
            vec![0, 1, 2, 3],
            vec![4, 0, 5, 6],
            vec![7, 8, 0, 9],
            vec![1, 2, 3, 0],
        ],
    };
    let c = chart(vec![0, 1, 2, 3], 2);
    let d = c.mutate_at(0, 1);
    assert_eq!(d.seats, vec![1, 0, 2, 3]);
    assert_eq!(fitness(&c, &t), fitness(&d, &t));
    // across groups the score changes by the swapped people's terms
    let e = c.mutate_at(1, 2);
    assert_eq!(fitness(&c, &t).value, 5 + 12);
    assert_eq!(fitness(&e, &t).value, 2 + 7 + 6 + 2);
}

#[test]
fn zero_and_abs_diff() {
    assert_eq!(SeatingFitness::zero().value, 0);
    let a = SeatingFitness { value: 3 };
    let b = SeatingFitness { value: -4 };
    assert_eq!(a.abs_diff(&b).value, 7);
    assert_eq!(b.abs_diff(&a).value, 7);
    assert_eq!(a.abs_diff(&a).value, 0);
}

#[test]
fn crossover_alternates_groups() {
    let a = chart(vec![0, 1, 2, 3], 2);
    let b = chart(vec![3, 2, 1, 0], 2);
    // stream 0 1 3 2 2 3 1 0
    let c = a.crossover(&b);
    assert_eq!(c.seats, vec![0, 1, 3, 2]);
    assert_eq!(c.group_size, 2);

    let a = chart(vec![0, 1, 2, 3, 4, 5], 2);
    let b = chart(vec![5, 4, 3, 2, 1, 0], 2);
    // stream 0 1 5 4 2 3 3 2 4 5 1 0
    assert_eq!(a.crossover(&b).seats, vec![0, 1, 5, 4, 2, 3]);

    let a = chart(vec![4, 0, 3, 1, 2], 2);
    let b = chart(vec![0, 2, 1, 4, 3], 2);
    // stream 4 0 0 2 3 1 1 4 2 3
    let c = a.crossover(&b);
    assert_eq!(c.seats, vec![4, 0, 2, 3, 1]);
    assert!(is_perm(&c.seats, 5));
}

#[test]
fn crossover_with_itself_is_identity() {
    let a = chart(vec![3, 1, 4, 0, 2], 2);
    assert_eq!(a.crossover(&a).seats, a.seats);
}

#[test]
fn mutate_at_swaps_two_positions() {
    let c = chart(vec![0, 1, 2, 3], 2);
    let d = c.mutate_at(0, 3);
    assert_eq!(d.seats, vec![3, 1, 2, 0]);
    assert_eq!(d.group_size, 2);
    assert_eq!(c.seats, vec![0, 1, 2, 3]);
}

#[test]
fn mutate_at_same_position_is_noop() {
    let c = chart(vec![2, 0, 3, 1], 2);
    assert_eq!(c.mutate_at(2, 2).seats, c.seats);
}

#[test]
fn mutate_keeps_a_permutation() {
    let c = chart(vec![2, 0, 3, 1, 4], 2);
    for _ in 0..50 {
        let d = c.mutate();
        assert!(is_perm(&d.seats, 5));
        assert_eq!(d.group_size, 2);
        let diffs = (0..5).filter(|&i| d.seats[i] != c.seats[i]).count();
        assert!(diffs == 0 || diffs == 2);
    }
}

#[test]
fn tournament_selection() {
    let scores = vec![1, 5, 3];
    let draws = vec![(0, 1), (2, 0), (4, 5), (2, 2)];
    assert_eq!(select_parents(&scores, &draws), Some(vec![1, 2, 1, 2]));
    // ties go to the first draw
    assert_eq!(select_parents(&vec![7, 7], &vec![(1, 0)]), Some(vec![1]));
}

#[test]
fn selecting_from_nothing_fails() {
    assert_eq!(select_parents(&vec![], &vec![(0, 0)]), None);
}

#[test]
fn config_errors() {
    let t = pair_table;
    let pop = || rotations(4, 6, 2);
    let err = |r: Result<Simulator, ConfigError>| r.err();
    assert_eq!(err(Simulator::new(vec![], t(), 1, 1)), Some(ConfigError::EmptyPopulation));
    assert_eq!(
        err(Simulator::new(pop(), PreferenceTable { rows: vec![] }, 1, 1)),
        Some(ConfigError::NoPeople)
    );
    let ragged = PreferenceTable {
        rows: vec![vec![0, 1, 2, 3], vec![0, 1, 2], vec![0; 4], vec![0; 4]],
    };
    assert_eq!(err(Simulator::new(pop(), ragged, 1, 1)), Some(ConfigError::InvalidTable));
    let huge = PreferenceTable {
        rows: vec![vec![0, isize::MAX, 0, 0], vec![0; 4], vec![0; 4], vec![0; 4]],
    };
    assert_eq!(err(Simulator::new(pop(), huge, 1, 1)), Some(ConfigError::InvalidTable));
    let mut zero = pop();
    zero[3].group_size = 0;
    assert_eq!(err(Simulator::new(zero, t(), 1, 1)), Some(ConfigError::ZeroGroupSize));
    let mut dup = pop();
    dup[2].seats = vec![0, 1, 1, 3];
    assert_eq!(err(Simulator::new(dup, t(), 1, 1)), Some(ConfigError::NotAPermutation));
    let mut out = pop();
    out[1].seats = vec![0, 1, 2, 4];
    assert_eq!(err(Simulator::new(out, t(), 1, 1)), Some(ConfigError::NotAPermutation));
    assert_eq!(err(Simulator::new(pop(), t(), 0, 1)), Some(ConfigError::InvalidSelectionCount));
    assert_eq!(err(Simulator::new(pop(), t(), 7, 1)), Some(ConfigError::InvalidSelectionCount));
    assert_eq!(err(Simulator::new(pop(), t(), 6, 0)), Some(ConfigError::ZeroGenerations));
    assert!(Simulator::new(pop(), t(), 6, 1).is_ok());
}

#[test]
fn new_starts_from_first_chart() {
    let pop = vec![chart(vec![0, 2, 1, 3], 2), chart(vec![0, 1, 2, 3], 2)];
    let sim = Simulator::new(pop, pair_table(), 2, 3).ok().unwrap();
    assert_eq!(sim.best().seats, vec![0, 2, 1, 3]);
    assert_eq!(sim.best_fitness().value, -10);
    assert_eq!(sim.generation, 0);
    assert!(!sim.is_done());
}

#[test]
fn one_step_with_given_draws() {
    let pop = vec![chart(vec![0, 2, 1, 3], 2), chart(vec![1, 0, 3, 2], 2)];
    let mut sim = Simulator::new(pop, pair_table(), 2, 3).ok().unwrap();
    // both slots select the second chart (score 20)
    sim.step_with(&vec![(0, 1), (1, 1)], &vec![(0, 0), (0, 2)]);
    assert_eq!(sim.generation, 1);
    assert_eq!(sim.best().seats, vec![1, 0, 3, 2]);
    assert_eq!(sim.best_fitness().value, 20);
    assert_eq!(sim.population[0].seats, vec![1, 0, 3, 2]);
    assert_eq!(sim.population[1].seats, vec![3, 0, 1, 2]);
}

#[test]
fn best_score_never_decreases() {
    let mut sim = Simulator::new(rotations(6, 10, 3), pair_table6(), 4, 40).ok().unwrap();
    let mut last = sim.best_fitness().value;
    while !sim.is_done() {
        sim.step();
        let now = sim.best_fitness().value;
        assert!(now >= last);
        assert_eq!(fitness(sim.best(), &sim.table).value, now);
        last = now;
    }
    assert_eq!(sim.generation, 40);
}

fn pair_table6() -> PreferenceTable {
    let mut rows = vec![vec![0isize; 6]; 6];
    rows[0][1] = 3;
    rows[1][0] = 3;
    rows[4][5] = 2;
    rows[2][3] = -4;
    PreferenceTable { rows }
}

#[test]
fn search_pairs_the_friends() {
    let mut sim = Simulator::new(rotations(4, 20, 2), pair_table(), 10, 500).ok().unwrap();
    sim.run();
    assert_eq!(sim.generation, 500);
    let best = &sim.best().seats;
    let pos0 = best.iter().position(|&x| x == 0).unwrap();
    let pos1 = best.iter().position(|&x| x == 1).unwrap();
    assert_eq!(pos0 / 2, pos1 / 2);
    assert_eq!(sim.best_fitness().value, 20);
}

#[test]
fn single_parent_selection_still_breeds() {
    let mut sim = Simulator::new(rotations(5, 8, 2), pair_table5(), 1, 30).ok().unwrap();
    sim.run();
    assert_eq!(sim.population.len(), 8);
    for c in &sim.population {
        assert!(is_perm(&c.seats, 5));
        assert_eq!(c.group_size, 2);
    }
}

fn pair_table5() -> PreferenceTable {
    let mut rows = vec![vec![1isize; 5]; 5];
    rows[0][1] = 4;
    PreferenceTable { rows }
}

