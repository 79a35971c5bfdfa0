use team_rounds::history::MeetingHistory;
use team_rounds::leaders::{leaders_from, ranked_leaders, select_min_member};

fn history_with(n: u32, teams: &[Vec<u32>]) -> MeetingHistory {
    let mut history = MeetingHistory::create(n);
    for team in teams {
        history.record_team(team);
    }
    history
}

#[test]
fn with_no_history_the_lowest_indices_lead() {
    let history = MeetingHistory::create(5);
    assert_eq!(ranked_leaders(&history, 2), vec![0, 1]);
    assert_eq!(ranked_leaders(&history, 5), vec![0, 1, 2, 3, 4]);
    assert_eq!(ranked_leaders(&history, 0), Vec::<u32>::new());
}

#[test]
fn the_fewest_meetings_lead_and_equals_keep_their_order() {
    // totals: 0 -> 3, 1 -> 2, 2 -> 2, 3 -> 1, 4 -> 0
    let history = history_with(5, &[vec![0, 1, 2], vec![0, 3]]);
    assert_eq!(history.total_meetings_of(0), 3);
    assert_eq!(history.total_meetings_of(4), 0);
    assert_eq!(ranked_leaders(&history, 1), vec![4]);
    assert_eq!(ranked_leaders(&history, 2), vec![4, 3]);
    assert_eq!(ranked_leaders(&history, 3), vec![4, 3, 1]);
    assert_eq!(ranked_leaders(&history, 5), vec![4, 3, 1, 2, 0]);
}

#[test]
fn leaders_from_takes_the_front_of_the_order() {
    assert_eq!(leaders_from(&vec![3, 1, 2, 0], 2), vec![3, 1]);
    assert_eq!(leaders_from(&vec![3, 1, 2, 0], 4), vec![3, 1, 2, 0]);
    assert_eq!(leaders_from(&vec![3, 1, 2, 0], 0), Vec::<u32>::new());
}

#[test]
fn uneven_teams_get_the_ranked_leaders_every_time() {
    let history = history_with(5, &[vec![0, 1, 2], vec![0, 3]]);
    for _ in 0..20 {
        assert_eq!(select_min_member(&history, 2), vec![4, 3]);
        assert_eq!(select_min_member(&history, 3), vec![4, 3, 1]);
    }
}

#[test]
fn even_teams_get_distinct_members_in_a_random_order() {
    let history = history_with(6, &[vec![0, 1, 2], vec![0, 3]]);
    let mut seen_other_than_ranked = false;
    for _ in 0..200 {
        let leaders = select_min_member(&history, 3);
        assert_eq!(leaders.len(), 3);
        for (at, leader) in leaders.iter().enumerate() {
            assert!(*leader < 6);
            assert!(!leaders[..at].contains(leader));
        }
        if leaders != vec![4, 5, 3] {
            seen_other_than_ranked = true;
        }
    }
    assert!(seen_other_than_ranked);
}

#[test]
fn one_team_for_everybody_is_an_even_split() {
    let history = MeetingHistory::create(4);
    let mut seen = [false; 4];
    for _ in 0..400 {
        let leaders = select_min_member(&history, 1);
        assert_eq!(leaders.len(), 1);
        seen[leaders[0] as usize] = true;
    }
    assert_eq!(seen, [true; 4]);
}
