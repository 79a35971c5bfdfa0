//! Scoring a partition against the history of a round.

use crate::history::{on_team, MeetingHistory};
use crate::partition::{after_round, is_partition, paired, placed, team_views};
use crate::wide::{product, scaled, sum_below};
use vstd::prelude::*;

verus! {

/// How evenly the meeting counts of all pairs are spread.
#[derive(Clone, Copy, Debug, PartialEq, Eq, Structural)]
pub enum Spread {
    /// No pair exists: worse than any measured spread.
    Unbounded,
    /// The number of pairs, the sum of their counts and the sum of the
    /// squares of their counts. The standard deviation of the counts is the
    /// square root of `pairs * sum_sq - sum * sum`, divided by `pairs`.
    Measured { pairs: u64, sum: u128, sum_sq: u128 },
}

/// The score of a partition; lower is better in both parts.
#[derive(Clone, Copy, Debug, PartialEq, Eq, Structural)]
pub struct Fitness {
    /// The number of pairs that meet for the first time, negated.
    pub new_encounters: i64,
    /// The spread of all meeting counts once the partition is applied.
    pub spread: Spread,
}

/// The variance of the counts, times the square of the number of pairs.
pub open spec fn variance_numerator(pairs: int, sum: int, sum_sq: int) -> int {
    pairs * sum_sq - sum * sum
}

/// Whether the standard deviation behind `a` is below the one behind `b`.
/// An unbounded spread is above every measured one and below none.
pub open spec fn spread_below(a: Spread, b: Spread) -> bool {
    match (a, b) {
        (
            Spread::Measured { pairs: pa, sum: sa, sum_sq: qa },
            Spread::Measured { pairs: pb, sum: sb, sum_sq: qb },
        ) => variance_numerator(pa as int, sa as int, qa as int) * (pb * pb) < variance_numerator(
            pb as int,
            sb as int,
            qb as int,
        ) * (pa * pa),
        (Spread::Measured { .. }, Spread::Unbounded) => true,
        (Spread::Unbounded, _) => false,
    }
}

/// Whether `a` is strictly better than `b`: more new encounters, or as many
/// and a lower spread.
pub open spec fn better(a: Fitness, b: Fitness) -> bool {
    a.new_encounters < b.new_encounters || (a.new_encounters == b.new_encounters && spread_below(
        a.spread,
        b.spread,
    ))
}

/// The score that any score with a pair beats.
pub open spec fn worst() -> Fitness {
    Fitness { new_encounters: 0, spread: Spread::Unbounded }
}

/// Sum of `f(row, j)` over the columns `from <= j < to`.
pub open spec fn row_sum(f: spec_fn(int, int) -> int, row: int, from: int, to: int) -> int
    decreases to - from,
{
    if to <= from {
        0
    } else {
        row_sum(f, row, from, to - 1) + f(row, to - 1)
    }
}

/// Sum of `f(i, j)` over the index pairs `i < j` with `i < rows` and
/// `j < width`.
pub open spec fn pair_sum(f: spec_fn(int, int) -> int, rows: int, width: int) -> int
    decreases rows,
{
    if rows <= 0 {
        0
    } else {
        pair_sum(f, rows - 1, width) + row_sum(f, rows - 1, rows, width)
    }
}

/// The number of pairs among `n` members.
pub open spec fn pair_count(n: int) -> int {
    n * (n - 1) / 2
}

/// One for a pair that shares a team without having met, zero otherwise.
pub open spec fn first_meeting(cells: Seq<Seq<nat>>, teams: Seq<Seq<u32>>) -> spec_fn(
    int,
    int,
) -> int {
    |i: int, j: int|
        if paired(teams, i, j) && cells[i][j] == 0 {
            1int
        } else {
            0int
        }
}

/// The meeting count of a pair once the partition is applied.
pub open spec fn count_after(cells: Seq<Seq<nat>>, teams: Seq<Seq<u32>>) -> spec_fn(
    int,
    int,
) -> int {
    |i: int, j: int| after_round(cells, teams)[i][j] as int
}

/// The square of the meeting count of a pair once the partition is applied.
pub open spec fn square_after(cells: Seq<Seq<nat>>, teams: Seq<Seq<u32>>) -> spec_fn(
    int,
    int,
) -> int {
    |i: int, j: int| (after_round(cells, teams)[i][j] * after_round(cells, teams)[i][j]) as int
}

/// The score of a partition against a history: the pairs that share a team
/// for the first time, negated, and the spread of the counts of all pairs
/// once every pair that shares a team has met once more. With fewer than
/// two members there is no pair, and the score is the worst.
pub open spec fn fitness_of(cells: Seq<Seq<nat>>, teams: Seq<Seq<u32>>) -> Fitness {
    let n = cells.len() as int;
    if n < 2 {
        worst()
    } else {
        Fitness {
            new_encounters: (-pair_sum(first_meeting(cells, teams), n, n)) as i64,
            spread: Spread::Measured {
                pairs: pair_count(n) as u64,
                sum: pair_sum(count_after(cells, teams), n, n) as u128,
                sum_sq: pair_sum(square_after(cells, teams), n, n) as u128,
            },
        }
    }
}

/// The number of index pairs `i < j < n` with `i < rows`.
spec fn pairs_upto(rows: int, n: int) -> int
    decreases rows,
{
    if rows <= 0 {
        0
    } else {
        pairs_upto(rows - 1, n) + (n - rows)
    }
}

proof fn lemma_pairs_upto(rows: int, n: int)
    requires
        0 <= rows <= n,
    ensures
        2 * pairs_upto(rows, n) == rows * (2 * n - rows - 1),
        0 <= pairs_upto(rows, n) <= pairs_upto(n, n),
        pairs_upto(n, n) == pair_count(n),
    decreases n - rows,
{
    lemma_pairs_closed(rows, n);
    if rows < n {
        lemma_pairs_upto(rows + 1, n);
    }
}

proof fn lemma_pairs_closed(rows: int, n: int)
    requires
        0 <= rows <= n,
    ensures
        2 * pairs_upto(rows, n) == rows * (2 * n - rows - 1),
        0 <= pairs_upto(rows, n),
    decreases rows,
{
    if rows > 0 {
        lemma_pairs_closed(rows - 1, n);
        assert(rows * (2 * n - rows - 1) == (rows - 1) * (2 * n - (rows - 1) - 1) + 2 * (n - rows))
            by (nonlinear_arith);
    } else {
        assert(rows * (2 * n - rows - 1) == 0) by (nonlinear_arith)
            requires
                rows == 0,
        ;
    }
}

impl Fitness {
    /// The score to start a search from: every measured score beats it.
    pub fn worst() -> (fitness: Fitness)
        ensures
            fitness == worst(),
    {
        Fitness { new_encounters: 0, spread: Spread::Unbounded }
    }

    /// Whether this score is strictly better than `best`.
    pub fn improves_on(&self, best: &Fitness) -> (improves: bool)
        ensures
            improves == better(*self, *best),
    {
        if self.new_encounters != best.new_encounters {
            return self.new_encounters < best.new_encounters;
        }
        match (self.spread, best.spread) {
            (
                Spread::Measured { pairs: pa, sum: sa, sum_sq: qa },
                Spread::Measured { pairs: pb, sum: sb, sum_sq: qb },
            ) => {
                proof {
                    assert(pa * pa <= 0xffff_ffff_ffff_ffff * 0xffff_ffff_ffff_ffff && pb * pb
                        <= 0xffff_ffff_ffff_ffff * 0xffff_ffff_ffff_ffff) by (nonlinear_arith)
                        requires
                            0 <= pa <= 0xffff_ffff_ffff_ffff,
                            0 <= pb <= 0xffff_ffff_ffff_ffff,
                    ;
                }
                let square_a: u128 = (pa as u128) * (pa as u128);
                let square_b: u128 = (pb as u128) * (pb as u128);
                proof {
                    // (pa * qa - sa * sa) * pb * pb < (pb * qb - sb * sb) * pa * pa,
                    // with what is subtracted taken to the other side
                    assert(variance_numerator(pa as int, sa as int, qa as int) * (pb * pb) == (pa
                        * qa) * square_b - (sa * sa) * square_b) by (nonlinear_arith)
                        requires
                            square_b == pb * pb,
                    ;
                    assert(variance_numerator(pb as int, sb as int, qb as int) * (pa * pa) == (pb
                        * qb) * square_a - (sb * sb) * square_a) by (nonlinear_arith)
                        requires
                            square_a == pa * pa,
                    ;
                }
                sum_below(
                    scaled(product(pa as u128, qa), square_b),
                    scaled(product(sb, sb), square_a),
                    scaled(product(pb as u128, qb), square_a),
                    scaled(product(sa, sa), square_b),
                )
            },
            (Spread::Measured { .. }, Spread::Unbounded) => true,
            (Spread::Unbounded, _) => false,
        }
    }
}

/// For every member, the team that it is on.
fn team_index(teams: &Vec<Vec<u32>>, n: u32) -> (index: Vec<usize>)
    requires
        is_partition(team_views(teams@), n as nat),
    ensures
        index@.len() == n,
        forall|m: int|
            0 <= m < n ==> (#[trigger] index@[m]) < teams@.len() && on_team(
                teams@[index@[m] as int]@,
                m,
            ),
{
    let ghost views = team_views(teams@);
    let mut index: Vec<usize> = Vec::new();
    let mut m: u32 = 0;
    while m < n
        invariant
            m <= n,
            index@.len() == m,
        decreases n - m,
    {
        index.push(0);
        m += 1;
    }
    let mut t: usize = 0;
    while t < teams.len()
        invariant
            views == team_views(teams@),
            is_partition(views, n as nat),
            t <= teams@.len(),
            index@.len() == n,
            forall|u: int, q: int|
                0 <= u < t && 0 <= q < views[u].len() ==> index@[(#[trigger] views[u][q]) as int]
                    == u,
        decreases teams@.len() - t,
    {
        let team = &teams[t];
        let mut p: usize = 0;
        while p < team.len()
            invariant
                views == team_views(teams@),
                is_partition(views, n as nat),
                t < teams@.len(),
                team@ == views[t as int],
                p <= team@.len(),
                index@.len() == n,
                forall|u: int, q: int|
                    0 <= u < t && 0 <= q < views[u].len() ==> index@[(
                    #[trigger] views[u][q]) as int] == u,
                forall|q: int| 0 <= q < p ==> index@[(#[trigger] views[t as int][q]) as int] == t,
            decreases team@.len() - p,
        {
            let member = team[p];
            index.set(member as usize, t);
            p += 1;
        }
        t += 1;
    }
    assert forall|m: int| 0 <= m < n implies (#[trigger] index@[m]) < teams@.len() && on_team(
        teams@[index@[m] as int]@,
        m,
    ) by {
        assert(placed(views, m));
        let (u, q) = choose|u: int, q: int|
            0 <= u < views.len() && 0 <= q < views[u].len() && #[trigger] views[u][q] == m;
        assert(index@[views[u][q] as int] == u);
    }
    index
}

/// In a partition two different members share a team exactly when they are
/// on the same team.
proof fn lemma_paired_by_team(teams: Seq<Seq<u32>>, n: nat, a: int, b: int, t: int, u: int)
    requires
        is_partition(teams, n),
        a != b,
        0 <= t < teams.len(),
        0 <= u < teams.len(),
        on_team(teams[t], a),
        on_team(teams[u], b),
    ensures
        paired(teams, a, b) <==> t == u,
{
}

/// Scores a partition against the history that the round started from.
///
/// The first part is the number of pairs that share a team without having
/// met before, negated. The second is the spread of the meeting counts of
/// all pairs as they would stand after the partition. Neither the history
/// nor the partition is changed.
pub fn calculate_round_fitness(
    round_teams: &Vec<Vec<u32>>,
    table_of_member_snapshot: &MeetingHistory,
) -> (fitness: Fitness)
    requires
        table_of_member_snapshot.wf(),
        is_partition(team_views(round_teams@), table_of_member_snapshot@.len()),
    ensures
        fitness == fitness_of(table_of_member_snapshot@, team_views(round_teams@)),
        fitness.new_encounters <= 0,
{
    let n = table_of_member_snapshot.member_count();
    if n < 2 {
        return Fitness::worst();
    }
    let ghost cells = table_of_member_snapshot@;
    let ghost views = team_views(round_teams@);
    let ghost first = first_meeting(cells, views);
    let ghost count = count_after(cells, views);
    let ghost square = square_after(cells, views);
    let index = team_index(round_teams, n);
    let mut fresh: u64 = 0;
    let mut sum: u128 = 0;
    let mut sum_sq: u128 = 0;
    proof {
        lemma_pairs_upto(0, n as int);
        assert(pair_count(n as int) <= 0x7fff_ffff_ffff_ffff) by (nonlinear_arith)
            requires
                0 <= n <= 0xffff_ffff,
        ;
    }
    let mut i: u32 = 0;
    while i < n
        invariant
            table_of_member_snapshot.wf(),
            cells == table_of_member_snapshot@,
            views == team_views(round_teams@),
            is_partition(views, n as nat),
            n == cells.len(),
            first == first_meeting(cells, views),
            count == count_after(cells, views),
            square == square_after(cells, views),
            index@.len() == n,
            forall|m: int|
                0 <= m < n ==> (#[trigger] index@[m]) < round_teams@.len() && on_team(
                    round_teams@[index@[m] as int]@,
                    m,
                ),
            i <= n,
            pair_count(n as int) <= 0x7fff_ffff_ffff_ffff,
            fresh == pair_sum(first, i as int, n as int),
            sum == pair_sum(count, i as int, n as int),
            sum_sq == pair_sum(square, i as int, n as int),
            fresh <= pairs_upto(i as int, n as int),
            sum <= pairs_upto(i as int, n as int) * 0x1_0000_0000,
            sum_sq <= pairs_upto(i as int, n as int) * 0x1_0000_0000_0000_0000,
        decreases n - i,
    {
        let ghost fresh_before = fresh;
        let ghost sum_before = sum;
        let ghost sq_before = sum_sq;
        let ghost done = pairs_upto(i as int, n as int);
        proof {
            lemma_pairs_upto(i as int + 1, n as int);
        }
        let mut j: u32 = i + 1;
        while j < n
            invariant
                table_of_member_snapshot.wf(),
                cells == table_of_member_snapshot@,
                views == team_views(round_teams@),
                is_partition(views, n as nat),
                n == cells.len(),
                first == first_meeting(cells, views),
                count == count_after(cells, views),
                square == square_after(cells, views),
                index@.len() == n,
                forall|m: int|
                    0 <= m < n ==> (#[trigger] index@[m]) < round_teams@.len() && on_team(
                        round_teams@[index@[m] as int]@,
                        m,
                    ),
                i < n,
                i < j <= n,
                done == pairs_upto(i as int, n as int),
                0 <= done,
                done + (n - i - 1) <= pair_count(n as int),
                pair_count(n as int) <= 0x7fff_ffff_ffff_ffff,
                fresh == fresh_before + row_sum(first, i as int, i as int + 1, j as int),
                sum == sum_before + row_sum(count, i as int, i as int + 1, j as int),
                sum_sq == sq_before + row_sum(square, i as int, i as int + 1, j as int),
                fresh <= done + (j - i - 1),
                sum <= (done + (j - i - 1)) * 0x1_0000_0000,
                sum_sq <= (done + (j - i - 1)) * 0x1_0000_0000_0000_0000,
            decreases n - j,
        {
            let before = table_of_member_snapshot.meetings(i, j);
            let together = index[i as usize] == index[j as usize];
            proof {
                lemma_paired_by_team(
                    views,
                    n as nat,
                    i as int,
                    j as int,
                    index@[i as int] as int,
                    index@[j as int] as int,
                );
            }
            let after: u64 = if together {
                before as u64 + 1
            } else {
                before as u64
            };
            proof {
                assert(first(i as int, j as int) == if together && before == 0 {
                    1int
                } else {
                    0int
                });
                assert(after * after <= 0x1_0000_0000 * 0x1_0000_0000) by (nonlinear_arith)
                    requires
                        0 <= after <= 0x1_0000_0000,
                ;
            }
            if together && before == 0 {
                fresh += 1;
            }
            sum += after as u128;
            sum_sq += (after as u128) * (after as u128);
            j += 1;
        }
        i += 1;
    }
    Fitness {
        new_encounters: -(fresh as i64),
        spread: Spread::Measured { pairs: (n as u64) * (n as u64 - 1) / 2, sum, sum_sq },
    }
}

/// Scoring is a function of the partition and the history alone: two scores
/// of one partition against one history are the same score.
pub proof fn lemma_scoring_repeats(
    cells: Seq<Seq<nat>>,
    teams: Seq<Seq<u32>>,
    first: Fitness,
    second: Fitness,
)
    requires
        first == fitness_of(cells, teams),
        second == fitness_of(cells, teams),
    ensures
        first == second,
{
}

} // verus!
