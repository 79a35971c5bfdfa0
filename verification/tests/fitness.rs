use team_rounds::fitness::{calculate_round_fitness, Fitness, Spread};
use team_rounds::history::MeetingHistory;

fn measured(new_encounters: i64, pairs: u64, sum: u128, sum_sq: u128) -> Fitness {
    Fitness { new_encounters, spread: Spread::Measured { pairs, sum, sum_sq } }
}

fn history_with(n: u32, teams: &[Vec<u32>]) -> MeetingHistory {
    let mut history = MeetingHistory::create(n);
    for team in teams {
        history.record_team(team);
    }
    history
}

fn cells(history: &MeetingHistory) -> Vec<Vec<u32>> {
    let n = history.member_count();
    (0..n).map(|i| (0..n).map(|j| history.meetings(i, j)).collect()).collect()
}

fn deviation(spread: Spread) -> f64 {
    match spread {
        Spread::Unbounded => f64::INFINITY,
        Spread::Measured { pairs, sum, sum_sq } => {
            let numerator = (pairs as u128 * sum_sq - sum * sum) as f64;
            numerator.sqrt() / pairs as f64
        }
    }
}

fn deviation_by_hand(history: &MeetingHistory, teams: &[Vec<u32>]) -> f64 {
    let n = history.member_count() as usize;
    let mut table = cells(history);
    for team in teams {
        for first in 0..team.len() {
            for second in (first + 1)..team.len() {
                table[team[first] as usize][team[second] as usize] += 1;
                table[team[second] as usize][team[first] as usize] += 1;
            }
        }
    }
    let mut counts: Vec<u32> = Vec::new();
    for r in 0..n {
        for c in (r + 1)..n {
            counts.push(table[r][c]);
        }
    }
    let sum: u32 = counts.iter().sum();
    let mean = sum as f64 / counts.len() as f64;
    let variance =
        counts.iter().map(|value| (mean - *value as f64) * (mean - *value as f64)).sum::<f64>()
            / counts.len() as f64;
    variance.sqrt()
}

#[test]
fn a_first_round_of_two_pairs() {
    let history = MeetingHistory::create(4);
    let fitness = calculate_round_fitness(&vec![vec![0, 1], vec![2, 3]], &history);
    assert_eq!(
        fitness,
        measured(-2, 6, 2, 2)
    );
}

#[test]
fn pairs_that_have_met_are_no_new_encounters() {
    let history = history_with(4, &[vec![0, 1], vec![0, 1], vec![2, 3]]);
    let again = calculate_round_fitness(&vec![vec![1, 0], vec![3, 2]], &history);
    assert_eq!(
        again,
        measured(0, 6, 5, 13)
    );
    let mixed = calculate_round_fitness(&vec![vec![0, 2], vec![3, 1]], &history);
    assert_eq!(
        mixed,
        measured(-2, 6, 5, 7)
    );
}

#[test]
fn teams_of_unequal_size_and_of_one() {
    let history = history_with(5, &[vec![0, 1, 2]]);
    let fitness = calculate_round_fitness(&vec![vec![4], vec![0, 1, 3], vec![2]], &history);
    // after: (0,1) = 2, (0,2) = 1, (1,2) = 1, (0,3) = 1, (1,3) = 1
    assert_eq!(
        fitness,
        measured(-2, 10, 6, 8)
    );
}

#[test]
fn without_a_pair_the_score_is_the_worst() {
    let worst = Fitness { new_encounters: 0, spread: Spread::Unbounded };
    assert_eq!(Fitness::worst(), worst);
    let alone = MeetingHistory::create(1);
    assert_eq!(calculate_round_fitness(&vec![vec![0]], &alone), worst);
    let nobody = MeetingHistory::create(0);
    assert_eq!(calculate_round_fitness(&vec![], &nobody), worst);
    assert_eq!(calculate_round_fitness(&vec![vec![], vec![]], &nobody), worst);
}

#[test]
fn scoring_twice_gives_the_same_score() {
    let history = history_with(6, &[vec![0, 1, 2], vec![3, 4, 5], vec![0, 3]]);
    let teams = vec![vec![5, 0], vec![1, 3], vec![4, 2]];
    let first = calculate_round_fitness(&teams, &history);
    let second = calculate_round_fitness(&teams, &history);
    assert_eq!(first, second);
}

#[test]
fn scoring_leaves_the_history_and_the_teams_alone() {
    let history = history_with(4, &[vec![0, 1], vec![2, 3], vec![1, 2]]);
    let before = cells(&history);
    let teams = vec![vec![0, 2], vec![1, 3]];
    let kept = teams.clone();
    let _ = calculate_round_fitness(&teams, &history);
    assert_eq!(cells(&history), before);
    assert_eq!(teams, kept);
}

#[test]
fn the_spread_is_the_standard_deviation_of_all_counts() {
    let history = history_with(6, &[vec![0, 1, 2], vec![3, 4, 5], vec![0, 3], vec![0, 1]]);
    let rounds = [
        vec![vec![0, 1, 2], vec![3, 4, 5]],
        vec![vec![0, 4], vec![1, 5], vec![2, 3]],
        vec![vec![0, 1, 2, 3, 4, 5]],
        vec![vec![0], vec![1], vec![2], vec![3], vec![4], vec![5]],
    ];
    for teams in rounds.iter() {
        let fitness = calculate_round_fitness(teams, &history);
        let expected = deviation_by_hand(&history, teams);
        assert!((deviation(fitness.spread) - expected).abs() < 1e-9);
    }
    let flat = calculate_round_fitness(&vec![vec![0, 1, 2, 3]], &MeetingHistory::create(4));
    assert_eq!(flat.spread, Spread::Measured { pairs: 6, sum: 6, sum_sq: 6 });
    assert_eq!(deviation(flat.spread), 0.0);
}

#[test]
fn more_new_encounters_win() {
    let many = measured(-3, 6, 9, 90);
    let few = measured(-2, 6, 6, 6);
    assert!(many.improves_on(&few));
    assert!(!few.improves_on(&many));
}

#[test]
fn with_as_many_new_encounters_the_lower_spread_wins() {
    // 6 * 7 - 25 = 17 against 6 * 13 - 25 = 53
    let even = measured(-2, 6, 5, 7);
    let uneven = measured(-2, 6, 5, 13);
    assert!(even.improves_on(&uneven));
    assert!(!uneven.improves_on(&even));
    // 6 * 8 - 36 = 12 against 6 * 7 - 25 = 17: the sums differ too
    let other = measured(-2, 6, 6, 8);
    assert!(other.improves_on(&even));
    assert!(!even.improves_on(&other));
}

#[test]
fn an_equal_score_is_no_improvement() {
    let one = measured(-2, 6, 5, 7);
    assert!(!one.improves_on(&one));
    // 6 * 6 - 16 = 20 and 6 * 11 - 46 ... the same numerator by another way: 3 * 12 - 16 = 20
    let same = measured(-2, 6, 2, 4);
    let twin = measured(-2, 6, 4, 6);
    assert!(!same.improves_on(&twin));
    assert!(!twin.improves_on(&same));
}

#[test]
fn any_measured_spread_beats_the_worst_score_and_nothing_else_does() {
    let worst = Fitness::worst();
    let plain = measured(0, 1, 7, 49);
    assert!(plain.improves_on(&worst));
    assert!(!worst.improves_on(&plain));
    assert!(!worst.improves_on(&worst));
    let better = Fitness { new_encounters: -1, spread: Spread::Unbounded };
    assert!(better.improves_on(&worst));
}

#[test]
fn huge_counts_are_compared_exactly() {
    let pairs = u64::MAX;
    let low = Fitness {
        new_encounters: 0,
        spread: Spread::Measured { pairs, sum: u128::MAX, sum_sq: u128::MAX - 1 },
    };
    let high = Fitness {
        new_encounters: 0,
        spread: Spread::Measured { pairs, sum: u128::MAX, sum_sq: u128::MAX },
    };
    assert!(low.improves_on(&high));
    assert!(!high.improves_on(&low));
    let small_sum = Fitness {
        new_encounters: 0,
        spread: Spread::Measured { pairs, sum: u128::MAX - 1, sum_sq: u128::MAX },
    };
    assert!(high.improves_on(&small_sum));
    assert!(!small_sum.improves_on(&high));
}

#[test]
fn spreads_over_different_numbers_of_pairs_go_by_the_deviation() {
    // one pair with count 0: deviation 0
    let still = measured(0, 1, 0, 0);
    // three pairs with counts 0, 0, 3: variance 9 / 3 - 1 = 2
    let rough = measured(0, 3, 3, 9);
    // six pairs with counts 0, 0, 0, 0, 0, 6: variance 36 / 6 - 1 = 5
    let rougher = measured(0, 6, 6, 36);
    // twelve pairs, six of them 0 and six of them 2: variance 24 / 12 - 1 = 1
    let milder = measured(0, 12, 12, 24);
    assert!(still.improves_on(&rough));
    assert!(!rough.improves_on(&still));
    assert!(rough.improves_on(&rougher));
    assert!(!rougher.improves_on(&rough));
    assert!(milder.improves_on(&rough));
    assert!(!rough.improves_on(&milder));
    // two pairs with counts 1 and 3, four pairs with counts 1, 1, 3, 3: variance 1 both
    let two = measured(0, 2, 4, 10);
    let four = measured(0, 4, 8, 20);
    assert!(!two.improves_on(&four));
    assert!(!four.improves_on(&two));
    assert!(!two.improves_on(&milder));
    assert!(!milder.improves_on(&two));
}

#[test]
fn measurements_over_no_pair_do_not_improve_on_each_other() {
    let one = measured(0, 0, 1, 9);
    let other = measured(0, 0, 5, 2);
    assert!(!one.improves_on(&other));
    assert!(!other.improves_on(&one));
}
