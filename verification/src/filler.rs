//! Greedy completion of a team from the pool of members still available.

use crate::history::{met, MeetingHistory};
use vstd::prelude::*;

verus! {

/// Meetings between `candidate` and the first `upto` members of `team`.
pub open spec fn affinity_upto(
    cells: Seq<Seq<nat>>,
    team: Seq<u32>,
    candidate: int,
    upto: int,
) -> nat
    decreases upto,
{
    if upto <= 0 {
        0
    } else {
        affinity_upto(cells, team, candidate, upto - 1) + met(
            cells,
            candidate,
            team[upto - 1] as int,
        )
    }
}

/// Meetings between `candidate` and all current members of `team`.
pub open spec fn affinity(cells: Seq<Seq<nat>>, team: Seq<u32>, candidate: int) -> nat {
    affinity_upto(cells, team, candidate, team.len() as int)
}

/// Whether `candidate` has met anybody on the team before.
pub open spec fn has_met(cells: Seq<Seq<nat>>, team: Seq<u32>, candidate: int) -> bool {
    exists|p: int| 0 <= p < team.len() && met(cells, candidate, #[trigger] team[p] as int) > 0
}

/// The key by which candidates are ranked, lower first: whether the
/// candidate has met anybody on the team, then the square of its meetings
/// with the team.
pub open spec fn fill_key(cells: Seq<Seq<nat>>, team: Seq<u32>, candidate: int) -> (nat, nat) {
    (
        if has_met(cells, team, candidate) {
            1nat
        } else {
            0nat
        },
        affinity(cells, team, candidate) * affinity(cells, team, candidate),
    )
}

/// Lexicographic order on keys.
pub open spec fn key_before(a: (nat, nat), b: (nat, nat)) -> bool {
    a.0 < b.0 || (a.0 == b.0 && a.1 < b.1)
}

/// `at` is the position of the first candidate in the pool with the least
/// key: it beats everyone before it, and nobody after it beats it.
pub open spec fn is_pick(cells: Seq<Seq<nat>>, team: Seq<u32>, pool: Seq<u32>, at: int) -> bool {
    &&& 0 <= at < pool.len()
    &&& forall|q: int|
        0 <= q < at ==> key_before(
            fill_key(cells, team, pool[at] as int),
            #[trigger] fill_key(cells, team, pool[q] as int),
        )
    &&& forall|q: int|
        at <= q < pool.len() ==> !key_before(
            #[trigger] fill_key(cells, team, pool[q] as int),
            fill_key(cells, team, pool[at] as int),
        )
}

/// The position in the pool of the member that joins the team next.
pub open spec fn pick(cells: Seq<Seq<nat>>, team: Seq<u32>, pool: Seq<u32>) -> int {
    choose|at: int| is_pick(cells, team, pool, at)
}

/// The test that keeps everything but `value`.
pub open spec fn other_than(value: u32) -> spec_fn(u32) -> bool {
    |element: u32| element != value
}

/// The pool without any occurrence of `value`, order kept.
pub open spec fn without(pool: Seq<u32>, value: u32) -> Seq<u32> {
    pool.filter(other_than(value))
}

/// Among the first `upto` candidates there is a pick.
proof fn lemma_pick_among(cells: Seq<Seq<nat>>, team: Seq<u32>, pool: Seq<u32>, upto: int) -> (at:
    int)
    requires
        1 <= upto <= pool.len(),
    ensures
        is_pick(cells, team, pool.take(upto), at),
    decreases upto,
{
    if upto == 1 {
        0
    } else {
        let before = lemma_pick_among(cells, team, pool, upto - 1);
        let shorter = pool.take(upto - 1);
        let longer = pool.take(upto);
        assert forall|q: int| 0 <= q < upto - 1 implies shorter[q] == longer[q] by {}
        if key_before(
            fill_key(cells, team, pool[upto - 1] as int),
            fill_key(cells, team, pool[before] as int),
        ) {
            upto - 1
        } else {
            before
        }
    }
}

/// A pool that is not empty has exactly one pick.
pub proof fn lemma_pick_unique(cells: Seq<Seq<nat>>, team: Seq<u32>, pool: Seq<u32>)
    requires
        pool.len() > 0,
    ensures
        is_pick(cells, team, pool, pick(cells, team, pool)),
        forall|at: int| is_pick(cells, team, pool, at) ==> at == pick(cells, team, pool),
{
    let _ = lemma_pick_among(cells, team, pool, pool.len() as int);
    assert(pool.take(pool.len() as int) =~= pool);
    let chosen = pick(cells, team, pool);
    assert forall|at: int| is_pick(cells, team, pool, at) implies at == chosen by {
        // Of two picks the later would beat the earlier, which nobody after
        // it does.
        if at < chosen {
            assert(key_before(
                fill_key(cells, team, pool[chosen] as int),
                fill_key(cells, team, pool[at] as int),
            ));
            assert(!key_before(
                fill_key(cells, team, pool[chosen] as int),
                fill_key(cells, team, pool[at] as int),
            ));
        } else if chosen < at {
            assert(key_before(
                fill_key(cells, team, pool[at] as int),
                fill_key(cells, team, pool[chosen] as int),
            ));
            assert(!key_before(
                fill_key(cells, team, pool[at] as int),
                fill_key(cells, team, pool[chosen] as int),
            ));
        }
    }
}

/// A candidate who has met nobody on the team beats every candidate who has:
/// while such a candidate is in the pool, the member picked has met nobody on
/// the team.
pub proof fn lemma_pick_prefers_strangers(
    cells: Seq<Seq<nat>>,
    team: Seq<u32>,
    pool: Seq<u32>,
    stranger: int,
)
    requires
        0 <= stranger < pool.len(),
        !has_met(cells, team, pool[stranger] as int),
    ensures
        !has_met(cells, team, pool[pick(cells, team, pool)] as int),
{
    lemma_pick_unique(cells, team, pool);
    let chosen = pick(cells, team, pool);
    if stranger < chosen {
        assert(key_before(
            fill_key(cells, team, pool[chosen] as int),
            fill_key(cells, team, pool[stranger] as int),
        ));
    } else {
        assert(!key_before(
            fill_key(cells, team, pool[stranger] as int),
            fill_key(cells, team, pool[chosen] as int),
        ));
    }
}

/// Taking a value out of a pool that holds it leaves a shorter pool.
pub proof fn lemma_without_shrinks(pool: Seq<u32>, at: int)
    requires
        0 <= at < pool.len(),
    ensures
        without(pool, pool[at]).len() < pool.len(),
    decreases pool.len(),
{
    let keep = other_than(pool[at]);
    let front = pool.drop_last();
    assert(front.push(pool.last()) =~= pool);
    front.lemma_filter_push(pool.last(), keep);
    if at < pool.len() - 1 {
        lemma_without_shrinks(front, at);
    }
}

/// Taking out a value that the pool does not hold changes nothing.
pub proof fn lemma_without_absent(pool: Seq<u32>, value: u32)
    requires
        forall|q: int| 0 <= q < pool.len() ==> pool[q] != value,
    ensures
        without(pool, value) == pool,
    decreases pool.len(),
{
    reveal(Seq::filter);
    if pool.len() > 0 {
        let front = pool.drop_last();
        lemma_without_absent(front, value);
    }
}

/// In a pool with no member listed twice, taking out the member at `at`
/// removes that one position.
pub proof fn lemma_without_removes(pool: Seq<u32>, at: int)
    requires
        pool.no_duplicates(),
        0 <= at < pool.len(),
    ensures
        without(pool, pool[at]) == pool.remove(at),
    decreases pool.len(),
{
    let keep = other_than(pool[at]);
    let front = pool.drop_last();
    assert(front.push(pool.last()) =~= pool);
    front.lemma_filter_push(pool.last(), keep);
    if at == pool.len() - 1 {
        lemma_without_absent(front, pool[at]);
    } else {
        lemma_without_removes(front, at);
    }
}

/// The team and the pool after the team has been filled: as long as the team
/// is below `capacity` and the pool is not empty, the pick moves from the
/// pool to the end of the team.
pub open spec fn fill(cells: Seq<Seq<nat>>, team: Seq<u32>, pool: Seq<u32>, capacity: nat) -> (
    Seq<u32>,
    Seq<u32>,
)
    decreases pool.len(),
{
    if team.len() >= capacity || pool.len() == 0 {
        (team, pool)
    } else {
        proof {
            lemma_pick_unique(cells, team, pool);
            lemma_without_shrinks(pool, pick(cells, team, pool));
        }
        let chosen = pool[pick(cells, team, pool)];
        fill(cells, team.push(chosen), without(pool, chosen), capacity)
    }
}

/// What filling does to a team and a pool that share no member, when the
/// pool lists no member twice: the team keeps its members and order and
/// grows by as many members as fit and are there; each of them comes from
/// the pool, none is taken twice, and the pool keeps exactly the others.
pub proof fn lemma_fill_moves_members(
    cells: Seq<Seq<nat>>,
    team: Seq<u32>,
    pool: Seq<u32>,
    capacity: nat,
)
    requires
        pool.no_duplicates(),
        forall|p: int, q: int|
            0 <= p < team.len() && 0 <= q < pool.len() ==> #[trigger] team[p] != #[trigger] pool[q],
    ensures
        ({
            let (filled, rest) = fill(cells, team, pool, capacity);
            &&& filled.len() + rest.len() == team.len() + pool.len()
            &&& team.len() <= filled.len()
            &&& filled.len() == if team.len() >= capacity {
                team.len()
            } else if team.len() + pool.len() <= capacity {
                team.len() + pool.len()
            } else {
                capacity
            }
            &&& forall|p: int| 0 <= p < team.len() ==> #[trigger] filled[p] == team[p]
            &&& forall|p: int|
                team.len() <= p < filled.len() ==> pool.contains(#[trigger] filled[p])
            &&& forall|p: int, q: int|
                team.len() <= p < q < filled.len() ==> #[trigger] filled[p] != #[trigger] filled[q]
            &&& rest.no_duplicates()
            &&& forall|q: int| 0 <= q < rest.len() ==> pool.contains(#[trigger] rest[q])
            &&& forall|p: int, q: int|
                0 <= p < filled.len() && 0 <= q < rest.len() ==> #[trigger] filled[p]
                    != #[trigger] rest[q]
            &&& forall|q: int|
                0 <= q < pool.len() ==> rest.contains(#[trigger] pool[q]) || exists|p: int|
                    team.len() <= p < filled.len() && #[trigger] filled[p] == pool[q]
        }),
    decreases pool.len(),
{
    if team.len() < capacity && pool.len() > 0 {
        lemma_pick_unique(cells, team, pool);
        let at = pick(cells, team, pool);
        let chosen = pool[at];
        lemma_without_removes(pool, at);
        let grown = team.push(chosen);
        let left = pool.remove(at);
        lemma_fill_moves_members(cells, grown, left, capacity);
        let (filled, rest) = fill(cells, team, pool, capacity);
        assert(filled[team.len() as int] == grown[team.len() as int]);
        assert forall|q: int| 0 <= q < pool.len() implies rest.contains(#[trigger] pool[q])
            || exists|p: int| team.len() <= p < filled.len() && #[trigger] filled[p] == pool[q] by {
            if q != at {
                let w = if q < at {
                    q
                } else {
                    q - 1
                };
                assert(left[w] == pool[q]);
                if !rest.contains(left[w]) {
                    let p = choose|p: int|
                        grown.len() <= p < filled.len() && #[trigger] filled[p] == left[w];
                    assert(team.len() <= p < filled.len() && filled[p] == pool[q]);
                }
            }
        }
    }
}

/// Ranks one candidate against the team: whether it has met anybody on it,
/// and the square of its meetings with it.
fn score(team: &Vec<u32>, candidate: u32, history: &MeetingHistory) -> (key: (bool, u128))
    requires
        history.wf(),
        team@.len() <= u32::MAX,
    ensures
        key.0 == has_met(history@, team@, candidate as int),
        key.1 == fill_key(history@, team@, candidate as int).1,
{
    let mut sum: u64 = 0;
    let mut met_anyone = false;
    let mut i: usize = 0;
    while i < team.len()
        invariant
            history.wf(),
            team@.len() <= u32::MAX,
            i <= team@.len(),
            sum == affinity_upto(history@, team@, candidate as int, i as int),
            sum <= i * u32::MAX,
            met_anyone <==> exists|p: int|
                0 <= p < i && met(history@, candidate as int, #[trigger] team@[p] as int) > 0,
        decreases team@.len() - i,
    {
        let meetings = history.meetings(candidate, team[i]);
        if meetings > 0 {
            met_anyone = true;
        }
        sum += meetings as u64;
        i += 1;
    }
    assert(sum * sum <= u64::MAX * u64::MAX) by (nonlinear_arith)
        requires
            0 <= sum <= u64::MAX,
    ;
    (met_anyone, (sum as u128) * (sum as u128))
}

/// Finds the pick: the first candidate in the pool with the least key.
fn best_candidate(team: &Vec<u32>, pool: &Vec<u32>, history: &MeetingHistory) -> (at: usize)
    requires
        history.wf(),
        team@.len() <= u32::MAX,
        pool@.len() > 0,
    ensures
        is_pick(history@, team@, pool@, at as int),
{
    let mut at: usize = 0;
    let mut least = score(team, pool[0], history);
    let mut i: usize = 1;
    while i < pool.len()
        invariant
            history.wf(),
            team@.len() <= u32::MAX,
            1 <= i <= pool@.len(),
            at < i,
            least.0 == has_met(history@, team@, pool@[at as int] as int),
            least.1 == fill_key(history@, team@, pool@[at as int] as int).1,
            forall|q: int|
                0 <= q < at ==> key_before(
                    fill_key(history@, team@, pool@[at as int] as int),
                    #[trigger] fill_key(history@, team@, pool@[q] as int),
                ),
            forall|q: int|
                at <= q < i ==> !key_before(
                    #[trigger] fill_key(history@, team@, pool@[q] as int),
                    fill_key(history@, team@, pool@[at as int] as int),
                ),
        decreases pool@.len() - i,
    {
        let key = score(team, pool[i], history);
        if (!key.0 && least.0) || (key.0 == least.0 && key.1 < least.1) {
            at = i;
            least = key;
        }
        i += 1;
    }
    at
}

/// Takes every occurrence of a value out of a list, keeping the order of
/// the rest.
pub fn remove_value(vec: &mut Vec<u32>, value_to_remove: &u32)
    ensures
        final(vec)@ == without(old(vec)@, *value_to_remove),
{
    let ghost keep = other_than(*value_to_remove);
    let mut kept: Vec<u32> = Vec::new();
    let mut i: usize = 0;
    while i < vec.len()
        invariant
            vec@ == old(vec)@,
            keep == other_than(*value_to_remove),
            i <= vec@.len(),
            kept@ == vec@.take(i as int).filter(keep),
        decreases vec@.len() - i,
    {
        proof {
            assert(vec@.take(i as int).push(vec@[i as int]) =~= vec@.take(i as int + 1));
            vec@.take(i as int).lemma_filter_push(vec@[i as int], keep);
        }
        if vec[i] != *value_to_remove {
            kept.push(vec[i]);
        }
        i += 1;
    }
    proof {
        assert(vec@.take(vec@.len() as int) =~= vec@);
    }
    *vec = kept;
}

/// Fills a team from the pool until it has reached its capacity or the pool
/// is empty.
///
/// The member that joins next is the first in the pool with the least key:
/// one who has met nobody on the team comes before one who has, and among
/// equals the smaller square of past meetings with the team wins. The pool
/// loses every member that joined.
pub fn select_best_member(
    status_of_team: &mut Vec<u32>,
    available_members: &mut Vec<u32>,
    team_number: u32,
    member_per_team: &Vec<u32>,
    table_of_member: &MeetingHistory,
)
    requires
        table_of_member.wf(),
        team_number < member_per_team@.len(),
    ensures
        (final(status_of_team)@, final(available_members)@) == fill(
            table_of_member@,
            old(status_of_team)@,
            old(available_members)@,
            member_per_team@[team_number as int] as nat,
        ),
{
    let capacity = member_per_team[team_number as usize] as usize;
    while status_of_team.len() < capacity && available_members.len() > 0
        invariant
            table_of_member.wf(),
            capacity == member_per_team@[team_number as int],
            fill(table_of_member@, status_of_team@, available_members@, capacity as nat) == fill(
                table_of_member@,
                old(status_of_team)@,
                old(available_members)@,
                capacity as nat,
            ),
        decreases available_members@.len(),
    {
        let at = best_candidate(status_of_team, available_members, table_of_member);
        let chosen_member_id = available_members[at];
        proof {
            lemma_pick_unique(table_of_member@, status_of_team@, available_members@);
            lemma_without_shrinks(available_members@, at as int);
        }
        status_of_team.push(chosen_member_id);
        remove_value(available_members, &chosen_member_id);
    }
}

} // verus!
