//! Partitions: every member of the population on exactly one team.

use crate::history::{after_team, on_team, teammates};
use vstd::prelude::*;

verus! {

/// The teams as sequences of members.
pub open spec fn team_views(teams: Seq<Vec<u32>>) -> Seq<Seq<u32>> {
    Seq::new(teams.len(), |t: int| teams[t]@)
}

/// Whether `member` is on one of the teams.
pub open spec fn placed(teams: Seq<Seq<u32>>, member: int) -> bool {
    exists|t: int, p: int|
        0 <= t < teams.len() && 0 <= p < teams[t].len() && #[trigger] teams[t][p] == member
}

/// The teams are pairwise disjoint and their union is exactly `0..n`:
/// whoever is placed is a member, nobody is placed twice, and nobody is
/// left out.
pub open spec fn is_partition(teams: Seq<Seq<u32>>, n: nat) -> bool {
    &&& forall|t: int, p: int|
        0 <= t < teams.len() && 0 <= p < teams[t].len() ==> #[trigger] teams[t][p] < n
    &&& forall|t: int, p: int, u: int, q: int|
        0 <= t < teams.len() && 0 <= p < teams[t].len() && 0 <= u < teams.len() && 0 <= q
            < teams[u].len() && (t != u || p != q) ==> #[trigger] teams[t][p]
            != #[trigger] teams[u][q]
    &&& forall|m: int| 0 <= m < n ==> #[trigger] placed(teams, m)
}

/// Teams under construction and the pool of members not yet placed: every
/// member `0..n` is in exactly one place, and nobody else is anywhere.
pub open spec fn is_arrangement(teams: Seq<Seq<u32>>, pool: Seq<u32>, n: nat) -> bool {
    &&& pool.no_duplicates()
    &&& forall|q: int| 0 <= q < pool.len() ==> #[trigger] pool[q] < n
    &&& forall|t: int, p: int|
        0 <= t < teams.len() && 0 <= p < teams[t].len() ==> #[trigger] teams[t][p] < n
    &&& forall|t: int, p: int, u: int, q: int|
        0 <= t < teams.len() && 0 <= p < teams[t].len() && 0 <= u < teams.len() && 0 <= q
            < teams[u].len() && (t != u || p != q) ==> #[trigger] teams[t][p]
            != #[trigger] teams[u][q]
    &&& forall|t: int, p: int, q: int|
        0 <= t < teams.len() && 0 <= p < teams[t].len() && 0 <= q < pool.len()
            ==> #[trigger] teams[t][p] != #[trigger] pool[q]
    &&& forall|m: int| 0 <= m < n ==> #[trigger] placed(teams, m) || on_team(pool, m)
}

/// A member that leaves the pool to start a new team keeps the arrangement.
pub proof fn lemma_arrangement_after_seat(teams: Seq<Seq<u32>>, pool: Seq<u32>, n: nat, at: int)
    requires
        is_arrangement(teams, pool, n),
        0 <= at < pool.len(),
    ensures
        is_arrangement(teams.push(seq![pool[at]]), pool.remove(at), n),
{
    let grown = teams.push(seq![pool[at]]);
    let rest = pool.remove(at);
    let last = teams.len() as int;
    assert forall|m: int| 0 <= m < n implies #[trigger] placed(grown, m) || on_team(rest, m) by {
        if placed(teams, m) {
            let (t, p) = choose|t: int, p: int|
                0 <= t < teams.len() && 0 <= p < teams[t].len() && #[trigger] teams[t][p] == m;
            assert(grown[t][p] == m);
        } else {
            let k = choose|k: int| 0 <= k < pool.len() && #[trigger] pool[k] == m;
            if k == at {
                assert(grown[last][0] == m);
            } else if k < at {
                assert(rest[k] == m);
            } else {
                assert(rest[k - 1] == m);
            }
        }
    }
}

/// A team that grows by members of the pool, each taken once, while the
/// pool keeps exactly the others, keeps the arrangement.
pub proof fn lemma_arrangement_after_fill(
    teams: Seq<Seq<u32>>,
    pool: Seq<u32>,
    n: nat,
    index: int,
    filled: Seq<u32>,
    rest: Seq<u32>,
)
    requires
        is_arrangement(teams, pool, n),
        0 <= index < teams.len(),
        teams[index].len() <= filled.len(),
        forall|p: int| 0 <= p < teams[index].len() ==> #[trigger] filled[p] == teams[index][p],
        forall|p: int|
            teams[index].len() <= p < filled.len() ==> pool.contains(#[trigger] filled[p]),
        forall|p: int, q: int|
            teams[index].len() <= p < q < filled.len() ==> #[trigger] filled[p]
                != #[trigger] filled[q],
        rest.no_duplicates(),
        forall|q: int| 0 <= q < rest.len() ==> pool.contains(#[trigger] rest[q]),
        forall|p: int, q: int|
            0 <= p < filled.len() && 0 <= q < rest.len() ==> #[trigger] filled[p]
                != #[trigger] rest[q],
        forall|q: int|
            0 <= q < pool.len() ==> rest.contains(#[trigger] pool[q]) || exists|p: int|
                teams[index].len() <= p < filled.len() && #[trigger] filled[p] == pool[q],
    ensures
        is_arrangement(teams.update(index, filled), rest, n),
{
    let grown = teams.update(index, filled);
    assert forall|m: int| 0 <= m < n implies #[trigger] placed(grown, m) || on_team(rest, m) by {
        if placed(teams, m) {
            let (t, p) = choose|t: int, p: int|
                0 <= t < teams.len() && 0 <= p < teams[t].len() && #[trigger] teams[t][p] == m;
            assert(grown[t][p] == m);
        } else {
            let k = choose|k: int| 0 <= k < pool.len() && #[trigger] pool[k] == m;
            if !rest.contains(pool[k]) {
                let p = choose|p: int|
                    teams[index].len() <= p < filled.len() && #[trigger] filled[p] == pool[k];
                assert(grown[index][p] == m);
            }
        }
    }
}

/// Two different members that share a team.
pub open spec fn paired(teams: Seq<Seq<u32>>, a: int, b: int) -> bool {
    exists|t: int| 0 <= t < teams.len() && teammates(#[trigger] teams[t], a, b)
}

/// The matrix after one more meeting of every two members that share a team.
pub open spec fn after_round(cells: Seq<Seq<nat>>, teams: Seq<Seq<u32>>) -> Seq<Seq<nat>> {
    Seq::new(
        cells.len(),
        |i: int|
            Seq::new(
                cells[i].len(),
                |j: int|
                    if paired(teams, i, j) {
                        cells[i][j] + 1
                    } else {
                        cells[i][j]
                    },
            ),
    )
}

/// Recording the teams of a partition one after the other gives the matrix
/// of the round: the first `count + 1` teams recorded are the first `count`
/// and then team `count`.
pub proof fn lemma_after_round_step(
    cells: Seq<Seq<nat>>,
    teams: Seq<Seq<u32>>,
    n: nat,
    count: int,
)
    requires
        is_partition(teams, n),
        0 <= count < teams.len(),
    ensures
        after_round(cells, teams.take(count + 1)) == after_team(
            after_round(cells, teams.take(count)),
            teams[count],
        ),
        after_round(cells, teams.take(0)) == cells,
        forall|i: int, j: int|
            teammates(teams[count], i, j) ==> !#[trigger] paired(teams.take(count), i, j),
{
    let before = teams.take(count);
    let now = teams.take(count + 1);
    assert forall|i: int, j: int| paired(now, i, j) <==> (paired(before, i, j) || teammates(
        teams[count],
        i,
        j,
    )) by {
        if teammates(teams[count], i, j) {
            assert(teammates(now[count], i, j));
        }
    }
    assert(after_round(cells, now) =~~= after_team(after_round(cells, before), teams[count]));
    assert forall|i: int, j: int| !paired(teams.take(0), i, j) by {}
    assert(after_round(cells, teams.take(0)) =~~= cells);
}

} // verus!
