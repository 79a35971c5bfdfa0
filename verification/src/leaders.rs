//! Choosing the member that each team of a trial starts from.

use crate::history::{total_meetings, MeetingHistory};
use crate::random::{is_lineup, shuffled_members};
use vstd::prelude::*;

verus! {

/// The order in which members are considered as leaders: fewer meetings in
/// all come first, and among equals the lower index.
pub open spec fn ranks_before(cells: Seq<Seq<nat>>, a: int, b: int) -> bool {
    total_meetings(cells, a) < total_meetings(cells, b) || (total_meetings(cells, a)
        == total_meetings(cells, b) && a < b)
}

/// Leaders for `count` teams: that many members, nobody twice.
pub open spec fn is_leader_choice(leaders: Seq<u32>, count: nat, n: nat) -> bool {
    &&& leaders.len() == count
    &&& leaders.no_duplicates()
    &&& forall|r: int| 0 <= r < leaders.len() ==> #[trigger] leaders[r] < n
}

/// The leaders are the `count` members that rank first, in ranking order:
/// each ranks before the next, and whoever ranks before a leader is an
/// earlier leader.
pub open spec fn is_ranked_selection(cells: Seq<Seq<nat>>, leaders: Seq<u32>, count: nat) -> bool {
    &&& leaders.len() == count
    &&& forall|r: int| 0 <= r < count ==> #[trigger] leaders[r] < cells.len()
    &&& forall|r: int, s: int|
        0 <= r < s < count ==> ranks_before(
            cells,
            #[trigger] leaders[r] as int,
            #[trigger] leaders[s] as int,
        )
    &&& forall|m: int, r: int|
        0 <= m < cells.len() && 0 <= r < count && #[trigger] ranks_before(
            cells,
            m,
            leaders[r] as int,
        ) ==> exists|s: int| 0 <= s < r && #[trigger] leaders[s] == m
}

/// Only one selection is the ranked one.
pub proof fn lemma_ranked_selection_unique(
    cells: Seq<Seq<nat>>,
    first: Seq<u32>,
    second: Seq<u32>,
    count: nat,
)
    requires
        is_ranked_selection(cells, first, count),
        is_ranked_selection(cells, second, count),
    ensures
        first == second,
{
    assert forall|r: int| 0 <= r < count implies first[r] == second[r] by {
        lemma_same_upto(cells, first, second, count, r);
    }
}

proof fn lemma_same_upto(
    cells: Seq<Seq<nat>>,
    first: Seq<u32>,
    second: Seq<u32>,
    count: nat,
    r: int,
)
    requires
        is_ranked_selection(cells, first, count),
        is_ranked_selection(cells, second, count),
        0 <= r < count,
    ensures
        first[r] == second[r],
    decreases r,
{
    assert forall|s: int| 0 <= s < r implies first[s] == second[s] by {
        lemma_same_upto(cells, first, second, count, s);
    }
    // Were one of the two ranked before the other, it would be an earlier
    // leader of the other selection, and so of its own.
    let a = first[r] as int;
    let b = second[r] as int;
    if ranks_before(cells, a, b) {
        let s = choose|s: int| 0 <= s < r && #[trigger] second[s] == a;
        assert(ranks_before(cells, first[s] as int, first[r] as int));
    } else if ranks_before(cells, b, a) {
        let s = choose|s: int| 0 <= s < r && #[trigger] first[s] == b;
        assert(ranks_before(cells, second[s] as int, second[r] as int));
    }
}

/// All members in ranking order.
fn ranking(history: &MeetingHistory) -> (ranked: Vec<u32>)
    requires
        history.wf(),
    ensures
        is_lineup(ranked@, history@.len()),
        forall|q: int, s: int|
            0 <= q < s < ranked@.len() ==> ranks_before(
                history@,
                #[trigger] ranked@[q] as int,
                #[trigger] ranked@[s] as int,
            ),
{
    let n = history.member_count();
    let mut totals: Vec<u64> = Vec::new();
    let mut ranked: Vec<u32> = Vec::new();
    let mut member: u32 = 0;
    while member < n
        invariant
            history.wf(),
            n == history@.len(),
            member <= n,
            totals@.len() == member,
            forall|m: int| 0 <= m < member ==> #[trigger] totals@[m] == total_meetings(history@, m),
            ranked@.len() == member,
            ranked@.no_duplicates(),
            forall|q: int| 0 <= q < ranked@.len() ==> #[trigger] ranked@[q] < member,
            forall|m: u32| m < member ==> #[trigger] ranked@.contains(m),
            forall|q: int, s: int|
                0 <= q < s < ranked@.len() ==> ranks_before(
                    history@,
                    #[trigger] ranked@[q] as int,
                    #[trigger] ranked@[s] as int,
                ),
        decreases n - member,
    {
        let total = history.total_meetings_of(member);
        totals.push(total);
        let mut at: usize = 0;
        while at < ranked.len() && totals[ranked[at] as usize] <= total
            invariant
                at <= ranked@.len(),
                ranked@.len() == member,
                totals@.len() == member + 1,
                total == total_meetings(history@, member as int),
                forall|m: int|
                    0 <= m <= member ==> #[trigger] totals@[m] == total_meetings(history@, m),
                forall|q: int| 0 <= q < ranked@.len() ==> #[trigger] ranked@[q] < member,
                forall|q: int|
                    0 <= q < at ==> total_meetings(history@, #[trigger] ranked@[q] as int) <= total,
            decreases ranked@.len() - at,
        {
            at += 1;
        }
        let ghost before = ranked@;
        ranked.insert(at, member);
        proof {
            let after = ranked@;
            assert forall|m: u32| m < member + 1 implies #[trigger] after.contains(m) by {
                if m == member {
                    assert(after[at as int] == m);
                } else {
                    assert(before.contains(m));
                    let k = choose|k: int| 0 <= k < before.len() && before[k] == m;
                    if k < at {
                        assert(after[k] == m);
                    } else {
                        assert(after[k + 1] == m);
                    }
                }
            }
        }
        member += 1;
    }
    ranked
}

/// The `count` members with the fewest meetings in all, fewest first; among
/// members with equally many the lower index comes first.
pub fn ranked_leaders(history: &MeetingHistory, count: u32) -> (leaders: Vec<u32>)
    requires
        history.wf(),
        count <= history@.len(),
    ensures
        is_ranked_selection(history@, leaders@, count as nat),
        is_leader_choice(leaders@, count as nat, history@.len()),
{
    let mut ranked = ranking(history);
    let ghost all = ranked@;
    ranked.truncate(count as usize);
    proof {
        let leaders = ranked@;
        assert forall|r: int| 0 <= r < count implies leaders[r] == all[r] by {}
        assert forall|m: int, r: int|
            0 <= m < history@.len() && 0 <= r < count && #[trigger] ranks_before(
                history@,
                m,
                leaders[r] as int,
            ) implies exists|s: int| 0 <= s < r && #[trigger] leaders[s] == m by {
            assert(all.contains(m as u32));
        }
    }
    ranked
}

/// The first `count` members of an order.
pub fn leaders_from(order: &Vec<u32>, count: u32) -> (leaders: Vec<u32>)
    requires
        count <= order@.len(),
    ensures
        leaders@ == order@.take(count as int),
{
    let mut leaders: Vec<u32> = Vec::new();
    let mut r: usize = 0;
    while r < count as usize
        invariant
            count <= order@.len(),
            r <= count,
            leaders@ == order@.take(r as int),
        decreases count - r,
    {
        leaders.push(order[r]);
        r += 1;
    }
    leaders
}

/// Chooses one leader for each of `num_of_team` teams.
///
/// Where the members do not divide evenly among the teams, the leaders are
/// the members with the fewest meetings in all. Where they do, the leaders
/// are the first members of a random order of the population.
pub fn select_min_member(table_of_member: &MeetingHistory, num_of_team: u32) -> (leaders: Vec<
    u32,
>)
    requires
        table_of_member.wf(),
        1 <= num_of_team <= table_of_member@.len(),
    ensures
        is_leader_choice(leaders@, num_of_team as nat, table_of_member@.len()),
        table_of_member@.len() % (num_of_team as nat) != 0 ==> is_ranked_selection(
            table_of_member@,
            leaders@,
            num_of_team as nat,
        ),
{
    let n = table_of_member.member_count();
    if n % num_of_team != 0 {
        ranked_leaders(table_of_member, num_of_team)
    } else {
        let order = shuffled_members(n);
        leaders_from(&order, num_of_team)
    }
}

} // verus!
