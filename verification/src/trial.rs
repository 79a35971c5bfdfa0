//! One trial: the leaders take their teams, and the teams are filled in
//! turn from the members that are left.

use crate::filler::{fill, lemma_fill_moves_members, select_best_member};
use crate::history::{on_team, MeetingHistory};
use crate::leaders::is_leader_choice;
use crate::partition::{
    is_arrangement, is_partition, lemma_arrangement_after_fill, lemma_arrangement_after_seat,
    placed, team_views,
};
use crate::planner::total_upto;
use crate::random::is_lineup;
use vstd::prelude::*;

verus! {

/// `at` is where `value` stands first in the pool.
pub open spec fn is_first_index(pool: Seq<u32>, value: u32, at: int) -> bool {
    &&& 0 <= at < pool.len()
    &&& pool[at] == value
    &&& forall|q: int| 0 <= q < at ==> pool[q] != value
}

/// Where `value` stands first in the pool.
pub open spec fn first_index(pool: Seq<u32>, value: u32) -> int {
    choose|at: int| is_first_index(pool, value, at)
}

/// The pool once the first `count` leaders have left it, one after the
/// other; nothing if one of them was not there to leave.
pub open spec fn seated(order: Seq<u32>, leaders: Seq<u32>, count: int) -> Option<Seq<u32>>
    decreases count,
{
    if count <= 0 {
        Some(order)
    } else {
        match seated(order, leaders, count - 1) {
            Some(pool) => if pool.contains(leaders[count - 1]) {
                Some(pool.remove(first_index(pool, leaders[count - 1])))
            } else {
                None
            },
            None => None,
        }
    }
}

/// The teams and the pool once the teams from `from` on have been filled in
/// turn, each to its size, from the one shrinking pool.
pub open spec fn filled_from(
    cells: Seq<Seq<nat>>,
    teams: Seq<Seq<u32>>,
    pool: Seq<u32>,
    sizes: Seq<u32>,
    from: int,
) -> (Seq<Seq<u32>>, Seq<u32>)
    decreases teams.len() - from,
{
    if from < 0 || from >= teams.len() {
        (teams, pool)
    } else {
        let step = fill(cells, teams[from], pool, sizes[from] as nat);
        filled_from(cells, teams.update(from, step.0), step.1, sizes, from + 1)
    }
}

/// The teams before filling: each holds its leader.
pub open spec fn led_by(leaders: Seq<u32>, count: nat) -> Seq<Seq<u32>> {
    Seq::new(count, |t: int| seq![leaders[t]])
}

/// The teams that a trial ends with: there is one team for each size, the
/// leaders leave the order for their teams, and the teams are filled in
/// turn. Nothing if a leader could not be found in the order.
pub open spec fn trial(
    cells: Seq<Seq<nat>>,
    order: Seq<u32>,
    leaders: Seq<u32>,
    sizes: Seq<u32>,
) -> Option<Seq<Seq<u32>>> {
    match seated(order, leaders, sizes.len() as int) {
        Some(pool) => Some(filled_from(cells, led_by(leaders, sizes.len()), pool, sizes, 0).0),
        None => None,
    }
}

/// Sizes for a population of `n`: no team is empty, and the sizes add up to
/// the population.
pub open spec fn is_plan(sizes: Seq<u32>, n: nat) -> bool {
    &&& forall|t: int| 0 <= t < sizes.len() ==> #[trigger] sizes[t] >= 1
    &&& total_upto(sizes, sizes.len() as int) == n
}

/// A trial with a lineup, leaders chosen from it and a plan for it.
pub open spec fn is_sound_trial(
    order: Seq<u32>,
    leaders: Seq<u32>,
    sizes: Seq<u32>,
    n: nat,
) -> bool {
    &&& is_lineup(order, n)
    &&& sizes.len() <= leaders.len()
    &&& is_leader_choice(leaders.take(sizes.len() as int), sizes.len(), n)
    &&& is_plan(sizes, n)
}

proof fn lemma_seated_stays_none(order: Seq<u32>, leaders: Seq<u32>, count: int, later: int)
    requires
        0 <= count <= later,
        seated(order, leaders, count) is None,
    ensures
        seated(order, leaders, later) is None,
    decreases later - count,
{
    if count < later {
        lemma_seated_stays_none(order, leaders, count, later - 1);
    }
}

/// The sizes from `from` on add up to at least one for each team.
proof fn lemma_total_tail(sizes: Seq<u32>, from: int, upto: int)
    requires
        0 <= from <= upto <= sizes.len(),
        forall|t: int| 0 <= t < sizes.len() ==> #[trigger] sizes[t] >= 1,
    ensures
        total_upto(sizes, upto) - total_upto(sizes, from) >= upto - from,
    decreases upto - from,
{
    if from < upto {
        lemma_total_tail(sizes, from, upto - 1);
    }
}

/// A plan has no more teams than the population has members.
pub proof fn lemma_plan_fits(sizes: Seq<u32>, n: nat)
    requires
        is_plan(sizes, n),
    ensures
        sizes.len() <= n,
{
    lemma_total_tail(sizes, 0, sizes.len() as int);
}

/// A value that the pool holds has a first position in it.
proof fn lemma_first_index(pool: Seq<u32>, value: u32)
    requires
        pool.contains(value),
    ensures
        is_first_index(pool, value, first_index(pool, value)),
{
    let _ = lemma_find_first(pool, value, 0);
}

proof fn lemma_find_first(pool: Seq<u32>, value: u32, from: int) -> (at: int)
    requires
        0 <= from,
        pool.contains(value),
        forall|q: int| 0 <= q < from && q < pool.len() ==> pool[q] != value,
    ensures
        is_first_index(pool, value, at),
    decreases pool.len() - from,
{
    let somewhere = choose|k: int| 0 <= k < pool.len() && pool[k] == value;
    assert(from <= somewhere);
    if pool[from] == value {
        from
    } else {
        lemma_find_first(pool, value, from + 1)
    }
}

/// In a sound trial every leader finds its seat: after `count` leaders have
/// left the order, they and the pool are an arrangement of the population.
proof fn lemma_seating(order: Seq<u32>, leaders: Seq<u32>, sizes: Seq<u32>, n: nat, count: int)
    requires
        is_sound_trial(order, leaders, sizes, n),
        n <= u32::MAX,
        0 <= count <= sizes.len(),
    ensures
        seated(order, leaders, count) matches Some(pool) && is_arrangement(
            led_by(leaders, count as nat),
            pool,
            n,
        ) && pool.len() == n - count,
    decreases count,
{
    if count <= 0 {
        let teams = led_by(leaders, 0);
        assert forall|m: int| 0 <= m < n implies #[trigger] placed(teams, m) || on_team(
            order,
            m,
        ) by {
            assert(order.contains(m as u32));
            let k = choose|k: int| 0 <= k < order.len() && order[k] == m as u32;
            assert(order[k] == m);
        }
    } else {
        lemma_seating(order, leaders, sizes, n, count - 1);
        let pool = seated(order, leaders, count - 1)->0;
        let teams = led_by(leaders, (count - 1) as nat);
        let leader = leaders[count - 1];
        let chosen = leaders.take(sizes.len() as int);
        assert(chosen[count - 1] == leader);
        // The leader is a member, so it is on a team or in the pool; no
        // earlier team has it, as no leader is chosen twice.
        assert(placed(teams, leader as int) || on_team(pool, leader as int));
        if placed(teams, leader as int) {
            let (t, p) = choose|t: int, p: int|
                0 <= t < teams.len() && 0 <= p < teams[t].len() && #[trigger] teams[t][p]
                    == leader as int;
            assert(chosen[t] == leaders[t]);
            assert(false);
        }
        let q = choose|q: int| 0 <= q < pool.len() && #[trigger] pool[q] == leader as int;
        assert(pool.contains(pool[q]));
        lemma_first_index(pool, leader);
        let at = first_index(pool, leader);
        lemma_arrangement_after_seat(teams, pool, n, at);
        assert(led_by(leaders, count as nat) =~= teams.push(seq![pool[at]]));
    }
}

/// Filling the teams of an arrangement in turn, each to its planned size,
/// uses up the pool and ends in a partition.
proof fn lemma_filling(
    cells: Seq<Seq<nat>>,
    teams: Seq<Seq<u32>>,
    pool: Seq<u32>,
    sizes: Seq<u32>,
    leaders: Seq<u32>,
    n: nat,
    from: int,
)
    requires
        is_plan(sizes, n),
        teams.len() == sizes.len(),
        0 <= from <= sizes.len(),
        is_arrangement(teams, pool, n),
        pool.len() == n - total_upto(sizes, from) - (sizes.len() - from),
        forall|t: int|
            0 <= t < from ==> (#[trigger] teams[t]).len() == sizes[t] && teams[t][0] == leaders[t],
        forall|t: int| from <= t < sizes.len() ==> #[trigger] teams[t] == seq![leaders[t]],
    ensures
        ({
            let done = filled_from(cells, teams, pool, sizes, from).0;
            &&& is_partition(done, n)
            &&& done.len() == sizes.len()
            &&& forall|t: int|
                0 <= t < sizes.len() ==> (#[trigger] done[t]).len() == sizes[t] && done[t][0]
                    == leaders[t]
        }),
    decreases sizes.len() - from,
{
    if from >= sizes.len() {
        assert forall|m: int| 0 <= m < n implies #[trigger] placed(teams, m) by {
            assert(placed(teams, m) || on_team(pool, m));
        }
    } else {
        let capacity = sizes[from] as nat;
        let step = fill(cells, teams[from], pool, capacity);
        lemma_total_tail(sizes, from + 1, sizes.len() as int);
        assert forall|p: int, q: int|
            0 <= p < teams[from].len() && 0 <= q < pool.len() implies #[trigger] teams[from][p]
            != #[trigger] pool[q] by {}
        lemma_fill_moves_members(cells, teams[from], pool, capacity);
        lemma_arrangement_after_fill(teams, pool, n, from, step.0, step.1);
        let grown = teams.update(from, step.0);
        assert(step.0[0] == teams[from][0]);
        lemma_filling(cells, grown, step.1, sizes, leaders, n, from + 1);
    }
}

/// A trial with an order of the whole population, leaders chosen from it and
/// sizes planned for it is never given up, and it ends in a partition: the
/// teams are pairwise disjoint, their union is the population, every team
/// has its planned size and starts with its leader.
pub proof fn lemma_sound_trial_partitions(
    cells: Seq<Seq<nat>>,
    order: Seq<u32>,
    leaders: Seq<u32>,
    sizes: Seq<u32>,
    n: nat,
)
    requires
        is_sound_trial(order, leaders, sizes, n),
        n <= u32::MAX,
    ensures
        trial(cells, order, leaders, sizes) matches Some(teams) && is_partition(teams, n)
            && teams.len() == sizes.len() && forall|t: int|
            0 <= t < sizes.len() ==> (#[trigger] teams[t]).len() == sizes[t] && teams[t][0]
                == leaders[t],
{
    let count = sizes.len();
    lemma_seating(order, leaders, sizes, n, count as int);
    let pool = seated(order, leaders, count as int)->0;
    lemma_filling(cells, led_by(leaders, count), pool, sizes, leaders, n, 0);
}

/// Where a value stands first in a list, if it is there at all.
fn position_of(pool: &Vec<u32>, value: u32) -> (at: Option<usize>)
    ensures
        match at {
            Some(i) => is_first_index(pool@, value, i as int) && i == first_index(pool@, value),
            None => !pool@.contains(value),
        },
{
    let mut i: usize = 0;
    while i < pool.len()
        invariant
            i <= pool@.len(),
            forall|q: int| 0 <= q < i ==> pool@[q] != value,
        decreases pool@.len() - i,
    {
        if pool[i] == value {
            return Some(i);
        }
        i += 1;
    }
    None
}

/// Runs one trial on a given order of the members and given leaders.
///
/// For each size there is a team. The leaders leave the order for their
/// teams, one after the other; if one of them cannot be found, the trial is
/// given up. Then the teams are filled in turn, each to its size, all from
/// the same shrinking pool.
///
/// With an order of the whole population, leaders chosen from it and sizes
/// planned for it, the trial is never given up and ends in a partition in
/// which every team has its planned size and starts with its leader.
pub fn run_trial(
    order: &Vec<u32>,
    leaders: &Vec<u32>,
    sizes: &Vec<u32>,
    snapshot: &MeetingHistory,
) -> (outcome: Option<Vec<Vec<u32>>>)
    requires
        snapshot.wf(),
        sizes@.len() <= leaders@.len(),
        sizes@.len() <= u32::MAX,
    ensures
        match outcome {
            Some(teams) => trial(snapshot@, order@, leaders@, sizes@) == Some(team_views(teams@)),
            None => trial(snapshot@, order@, leaders@, sizes@) is None,
        },
        is_sound_trial(order@, leaders@, sizes@, snapshot@.len()) ==> (outcome matches Some(teams)
            && is_partition(team_views(teams@), snapshot@.len()) && teams@.len() == sizes@.len()
            && forall|t: int|
            0 <= t < sizes@.len() ==> (#[trigger] teams@[t])@.len() == sizes@[t] && teams@[t]@[0]
                == leaders@[t]),
{
    let ghost cells = snapshot@;
    let count = sizes.len();
    let mut pool = order.clone();
    let mut teams: Vec<Vec<u32>> = Vec::new();
    proof {
        assert(team_views(teams@) =~= led_by(leaders@, 0));
    }
    let mut l: usize = 0;
    while l < count
        invariant
            snapshot.wf(),
            cells == snapshot@,
            count == sizes@.len(),
            count <= leaders@.len(),
            l <= count,
            seated(order@, leaders@, l as int) == Some(pool@),
            teams@.len() == l,
            team_views(teams@) == led_by(leaders@, l as nat),
        decreases count - l,
    {
        let ghost views = team_views(teams@);
        let ghost before = pool@;
        match position_of(&pool, leaders[l]) {
            Some(pos) => {
                let leader_id = pool.remove(pos);
                let mut team: Vec<u32> = Vec::new();
                team.push(leader_id);
                teams.push(team);
                proof {
                    assert(team_views(teams@) =~= views.push(seq![before[pos as int]]));
                }
            },
            None => {
                proof {
                    lemma_seated_stays_none(order@, leaders@, l as int + 1, count as int);
                    if is_sound_trial(order@, leaders@, sizes@, cells.len()) {
                        lemma_sound_trial_partitions(cells, order@, leaders@, sizes@, cells.len());
                    }
                }
                return None;
            },
        }
        l += 1;
    }
    let ghost led = team_views(teams@);
    let ghost left = pool@;
    let mut j: usize = 0;
    while j < count
        invariant
            snapshot.wf(),
            cells == snapshot@,
            count == sizes@.len(),
            count <= u32::MAX,
            j <= count,
            teams@.len() == count,
            filled_from(cells, team_views(teams@), pool@, sizes@, j as int) == filled_from(
                cells,
                led,
                left,
                sizes@,
                0,
            ),
        decreases count - j,
    {
        let ghost views = team_views(teams@);
        let ghost before = pool@;
        select_best_member(&mut teams[j], &mut pool, j as u32, sizes, snapshot);
        proof {
            let step = fill(cells, views[j as int], before, sizes@[j as int] as nat);
            assert(team_views(teams@) =~= views.update(j as int, step.0));
        }
        j += 1;
    }
    proof {
        if is_sound_trial(order@, leaders@, sizes@, cells.len()) {
            lemma_sound_trial_partitions(cells, order@, leaders@, sizes@, cells.len());
            let views = team_views(teams@);
            assert forall|t: int| 0 <= t < sizes@.len() implies (#[trigger] teams@[t])@.len()
                == sizes@[t] && teams@[t]@[0] == leaders@[t] by {
                assert(views[t] == teams@[t]@);
            }
        }
    }
    Some(teams)
}

} // verus!
