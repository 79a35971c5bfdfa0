use team_rounds::history::{count_zeros, MeetingHistory};

fn cells(history: &MeetingHistory) -> Vec<Vec<u32>> {
    let n = history.member_count();
    (0..n).map(|i| (0..n).map(|j| history.meetings(i, j)).collect()).collect()
}

fn unmet_by_hand(history: &MeetingHistory) -> u64 {
    let n = history.member_count();
    let mut pairs = 0;
    for i in 0..n {
        for j in (i + 1)..n {
            if history.meetings(i, j) == 0 {
                pairs += 1;
            }
        }
    }
    pairs
}

#[test]
fn a_new_history_is_all_zero() {
    let history = MeetingHistory::create(3);
    assert_eq!(history.member_count(), 3);
    assert_eq!(cells(&history), vec![vec![0, 0, 0], vec![0, 0, 0], vec![0, 0, 0]]);
    assert_eq!(count_zeros(&history), 9);
    assert_eq!(history.unmet_pair_count(), 3);
}

#[test]
fn an_empty_history_has_nothing_to_count() {
    let history = MeetingHistory::create(0);
    assert_eq!(history.member_count(), 0);
    assert_eq!(count_zeros(&history), 0);
    assert_eq!(history.unmet_pair_count(), 0);
}

#[test]
fn recording_a_team_counts_every_pair_on_both_sides() {
    let mut history = MeetingHistory::create(4);
    history.record_team(&vec![2, 0, 3]);
    assert_eq!(
        cells(&history),
        vec![vec![0, 0, 1, 1], vec![0, 0, 0, 0], vec![1, 0, 0, 1], vec![1, 0, 1, 0]]
    );
}

#[test]
fn recording_a_team_of_one_or_none_changes_nothing() {
    let mut history = MeetingHistory::create(3);
    history.record_team(&vec![1]);
    history.record_team(&vec![]);
    assert_eq!(cells(&history), vec![vec![0, 0, 0], vec![0, 0, 0], vec![0, 0, 0]]);
}

#[test]
fn the_history_stays_symmetric_and_never_goes_down() {
    let mut history = MeetingHistory::create(5);
    let teams = [vec![0, 1, 2], vec![3, 4], vec![4, 0], vec![1, 3, 2, 0], vec![2, 4, 1]];
    let mut before = cells(&history);
    for round in 0..20 {
        history.record_team(&teams[round % teams.len()]);
        let after = cells(&history);
        for i in 0..5 {
            assert_eq!(after[i][i], 0);
            for j in 0..5 {
                assert_eq!(after[i][j], after[j][i]);
                assert!(after[i][j] >= before[i][j]);
            }
        }
        before = after;
    }
}

#[test]
fn meetings_outside_the_population_are_zero() {
    let mut history = MeetingHistory::create(2);
    history.record_team(&vec![0, 1]);
    assert_eq!(history.meetings(0, 1), 1);
    assert_eq!(history.meetings(0, 2), 0);
    assert_eq!(history.meetings(2, 0), 0);
    assert_eq!(history.meetings(7, 9), 0);
}

#[test]
fn total_meetings_is_the_sum_of_the_row() {
    let mut history = MeetingHistory::create(4);
    history.record_team(&vec![0, 1, 2]);
    history.record_team(&vec![0, 3]);
    history.record_team(&vec![0, 1]);
    assert_eq!(history.total_meetings_of(0), 4);
    assert_eq!(history.total_meetings_of(1), 3);
    assert_eq!(history.total_meetings_of(2), 2);
    assert_eq!(history.total_meetings_of(3), 1);
    assert_eq!(history.total_meetings_of(4), 0);
    assert_eq!(history.total_meetings_of(u32::MAX), 0);
}

#[test]
fn zero_cells_give_the_unmet_pairs() {
    let mut history = MeetingHistory::create(4);
    history.record_team(&vec![0, 1]);
    history.record_team(&vec![2, 3]);
    assert_eq!(count_zeros(&history), 12);
    assert_eq!((count_zeros(&history) - 4) / 2, 4);
    assert_eq!(history.unmet_pair_count(), 4);
    assert_eq!(history.unmet_pair_count(), unmet_by_hand(&history));
}

#[test]
fn the_unmet_pairs_are_the_pairs_whose_count_is_zero() {
    let mut history = MeetingHistory::create(6);
    let teams = [vec![0, 1, 2], vec![3, 4, 5], vec![0, 3], vec![1, 4], vec![2, 5], vec![0, 4, 5]];
    assert_eq!(history.unmet_pair_count(), 15);
    for team in teams.iter() {
        history.record_team(team);
        assert_eq!(history.unmet_pair_count(), unmet_by_hand(&history));
        assert_eq!((count_zeros(&history) - 6) / 2, unmet_by_hand(&history));
    }
    assert_eq!(history.unmet_pair_count(), 4);
}

#[test]
fn a_snapshot_does_not_follow_the_history() {
    let mut history = MeetingHistory::create(3);
    history.record_team(&vec![0, 1]);
    let snapshot = history.snapshot();
    history.record_team(&vec![1, 2]);
    assert_eq!(cells(&snapshot), vec![vec![0, 1, 0], vec![1, 0, 0], vec![0, 0, 0]]);
    assert_eq!(cells(&history), vec![vec![0, 1, 0], vec![1, 0, 1], vec![0, 1, 0]]);
}
