use team_rounds::filler::select_best_member;
use team_rounds::fitness::{calculate_round_fitness, Spread};
use team_rounds::history::MeetingHistory;
use team_rounds::leaders::ranked_leaders;
use team_rounds::planner::gen_team;
use team_rounds::trial::run_trial;

/// A small generator of numbers that looks random and repeats on every run.
struct Dice(u64);

impl Dice {
    fn roll(&mut self, sides: u32) -> u32 {
        self.0 = self.0.wrapping_mul(6364136223846793005).wrapping_add(1442695040888963407);
        ((self.0 >> 33) % sides as u64) as u32
    }

    fn order(&mut self, n: u32) -> Vec<u32> {
        let mut order: Vec<u32> = (0..n).collect();
        for i in (1..order.len()).rev() {
            order.swap(i, self.roll(i as u32 + 1) as usize);
        }
        order
    }

    fn history(&mut self, n: u32, teams: u32) -> MeetingHistory {
        let mut history = MeetingHistory::create(n);
        for _ in 0..teams {
            let size = self.roll(n + 1) as usize;
            let team: Vec<u32> = self.order(n).into_iter().take(size).collect();
            history.record_team(&team);
        }
        history
    }
}

fn table(history: &MeetingHistory) -> Vec<Vec<u32>> {
    let n = history.member_count();
    (0..n).map(|i| (0..n).map(|j| history.meetings(i, j)).collect()).collect()
}

fn fill_by_hand(team: &mut Vec<u32>, pool: &mut Vec<u32>, capacity: usize, table: &[Vec<u32>]) {
    while team.len() < capacity && !pool.is_empty() {
        let mut scores: Vec<(u32, u32, u32)> = Vec::new();
        for &candidate in pool.iter() {
            let mut sum = 0u32;
            let mut met = false;
            for &member in team.iter() {
                let count = table[candidate as usize][member as usize];
                if count > 0 {
                    met = true;
                }
                sum += count;
            }
            scores.push((if met { 1 } else { 0 }, sum.pow(2), candidate));
        }
        let best = *scores.iter().min_by_key(|&(flag, square, _)| (flag, square)).unwrap();
        team.push(best.2);
        pool.retain(|member| *member != best.2);
    }
}

fn trial_by_hand(
    order: &[u32],
    leaders: &[u32],
    sizes: &[u32],
    table: &[Vec<u32>],
) -> Option<Vec<Vec<u32>>> {
    let mut pool = order.to_vec();
    let mut teams: Vec<Vec<u32>> = vec![Vec::new(); sizes.len()];
    for at in 0..sizes.len() {
        let position = pool.iter().position(|&member| member == leaders[at])?;
        teams[at].push(pool.remove(position));
    }
    for at in 0..sizes.len() {
        fill_by_hand(&mut teams[at], &mut pool, sizes[at] as usize, table);
    }
    Some(teams)
}

fn score_by_hand(teams: &[Vec<u32>], table: &[Vec<u32>]) -> (i64, u64, u128, u128) {
    let mut after = table.to_vec();
    let mut fresh = 0;
    for team in teams {
        for first in 0..team.len() {
            for second in (first + 1)..team.len() {
                let (a, b) = (team[first] as usize, team[second] as usize);
                if table[a][b] == 0 {
                    fresh += 1;
                }
                after[a][b] += 1;
                after[b][a] += 1;
            }
        }
    }
    let mut pairs = 0;
    let mut sum = 0;
    let mut sum_sq = 0;
    for r in 0..after.len() {
        for c in (r + 1)..after.len() {
            pairs += 1;
            sum += after[r][c] as u128;
            sum_sq += (after[r][c] as u128) * (after[r][c] as u128);
        }
    }
    (-fresh, pairs, sum, sum_sq)
}

fn leaders_by_hand(table: &[Vec<u32>], count: usize) -> Vec<u32> {
    let mut sums: Vec<(usize, u32)> =
        table.iter().map(|row| row.iter().sum()).enumerate().collect();
    sums.sort_by_key(|&(_, sum)| sum);
    sums.iter().take(count).map(|&(index, _)| index as u32).collect()
}

#[test]
fn filling_agrees_with_ranking_all_candidates() {
    let mut dice = Dice(7);
    for round in 0..300 {
        let n = 2 + dice.roll(9);
        let history = dice.history(n, round % 7);
        let order = dice.order(n);
        let split = 1 + dice.roll(n - 1) as usize;
        let capacity = dice.roll(n + 2);
        let mut team = order[..split].to_vec();
        let mut pool = order[split..].to_vec();
        let mut team_by_hand = team.clone();
        let mut pool_by_hand = pool.clone();
        select_best_member(&mut team, &mut pool, 0, &vec![capacity], &history);
        fill_by_hand(&mut team_by_hand, &mut pool_by_hand, capacity as usize, &table(&history));
        assert_eq!(team, team_by_hand);
        assert_eq!(pool, pool_by_hand);
    }
}

#[test]
fn trials_agree_with_seating_and_filling_step_by_step() {
    let mut dice = Dice(11);
    for round in 0..300 {
        let n = 1 + dice.roll(10);
        let k = 1 + dice.roll(n);
        let sizes = gen_team(n, k).unwrap();
        let history = dice.history(n, round % 5);
        let order = dice.order(n);
        let leaders: Vec<u32> = dice.order(n).into_iter().take(k as usize).collect();
        let teams = run_trial(&order, &leaders, &sizes, &history);
        assert_eq!(teams, trial_by_hand(&order, &leaders, &sizes, &table(&history)));
    }
}

#[test]
fn scores_agree_with_applying_the_teams_to_a_copy() {
    let mut dice = Dice(13);
    for round in 0..300 {
        let n = 2 + dice.roll(9);
        let k = 1 + dice.roll(n);
        let sizes = gen_team(n, k).unwrap();
        let history = dice.history(n, round % 6);
        let order = dice.order(n);
        let leaders: Vec<u32> = dice.order(n).into_iter().take(k as usize).collect();
        let teams = run_trial(&order, &leaders, &sizes, &history).unwrap();
        let fitness = calculate_round_fitness(&teams, &history);
        let (fresh, pairs, sum, sum_sq) = score_by_hand(&teams, &table(&history));
        assert_eq!(fitness.new_encounters, fresh);
        assert_eq!(fitness.spread, Spread::Measured { pairs, sum, sum_sq });
    }
}

#[test]
fn ranked_leaders_agree_with_a_stable_sort_by_total() {
    let mut dice = Dice(17);
    for round in 0..300 {
        let n = 1 + dice.roll(10);
        let count = dice.roll(n + 1);
        let history = dice.history(n, round % 8);
        assert_eq!(
            ranked_leaders(&history, count),
            leaders_by_hand(&table(&history), count as usize)
        );
    }
}

#[test]
fn better_scores_have_lower_deviations() {
    let mut dice = Dice(19);
    let mut compared = 0;
    for round in 0..300 {
        let n = 3 + dice.roll(6);
        let k = 1 + dice.roll(n);
        let sizes = gen_team(n, k).unwrap();
        let history = dice.history(n, 1 + round % 6);
        let mut scores = Vec::new();
        for _ in 0..2 {
            let order = dice.order(n);
            let leaders: Vec<u32> = dice.order(n).into_iter().take(k as usize).collect();
            let teams = run_trial(&order, &leaders, &sizes, &history).unwrap();
            scores.push(calculate_round_fitness(&teams, &history));
        }
        if scores[0].new_encounters != scores[1].new_encounters {
            continue;
        }
        let numerators: Vec<i128> = scores
            .iter()
            .map(|score| match score.spread {
                Spread::Measured { pairs, sum, sum_sq } => {
                    (pairs as u128 * sum_sq) as i128 - (sum * sum) as i128
                }
                Spread::Unbounded => panic!("no pair"),
            })
            .collect();
        assert_eq!(scores[0].improves_on(&scores[1]), numerators[0] < numerators[1]);
        assert_eq!(scores[1].improves_on(&scores[0]), numerators[1] < numerators[0]);
        compared += 1;
    }
    assert!(compared > 50);
}
