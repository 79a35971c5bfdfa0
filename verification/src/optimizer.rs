//! The search: many trials per round, the best one recorded in the history.

use crate::fitness::{better, calculate_round_fitness, fitness_of, worst, Fitness};
use crate::history::{
    is_meeting_matrix, is_team, met, teammates, unmet_pairs, MeetingHistory,
};
use crate::leaders::{is_ranked_selection, select_min_member};
use crate::partition::{after_round, is_partition, lemma_after_round_step, paired, team_views};
use crate::planner::{gen_team, planned_sizes, InvalidConfiguration};
use crate::random::shuffled_members;
use crate::trial::{is_plan, is_sound_trial, run_trial, trial};
use vstd::prelude::*;

verus! {

/// The number of trials that a round runs unless told otherwise.
pub const TRIALS_PER_ROUND: u32 = 10000;

/// What a round ended with.
#[derive(Debug)]
pub enum RoundOutcome {
    /// The best partition found, with its score; the history has it.
    Committed { teams: Vec<Vec<u32>>, fitness: Fitness },
    /// No trial gave a partition that could win; the history is as it was.
    Infeasible,
}

/// A round as it is reported: its outcome, and the history after it.
#[derive(Debug)]
pub struct RoundReport {
    pub outcome: RoundOutcome,
    pub history: MeetingHistory,
}

/// A whole run as it is reported.
#[derive(Debug)]
pub struct RunReport {
    /// The rounds, in the order in which they were run.
    pub rounds: Vec<RoundReport>,
    /// The pairs of members that have still never met.
    pub unmet_pairs: u64,
    /// The pairing density, as numerator and denominator.
    pub density: (u64, u64),
}

/// The teams can come out of a trial of the round: there are an order of the
/// population and leaders, chosen as the leader policy has it, with which
/// the trial ends in these teams.
pub open spec fn is_trial_outcome(
    cells: Seq<Seq<nat>>,
    teams: Seq<Seq<u32>>,
    sizes: Seq<u32>,
) -> bool {
    exists|order: Seq<u32>, leaders: Seq<u32>|
        #[trigger] trial(cells, order, leaders, sizes) == Some(teams) && is_sound_trial(
            order,
            leaders,
            sizes,
            cells.len(),
        ) && leaders.len() == sizes.len() && (cells.len() % sizes.len() != 0
            ==> is_ranked_selection(cells, leaders, sizes.len()))
}

/// How a round relates the history before it, the history after it and its
/// outcome. Without a trial, or without a pair to score, the round fails and
/// the history stays. Otherwise the teams are a partition that a trial can
/// end in, each team has its planned size, the score is the score of the
/// teams against the history before, and the history after has one more
/// meeting for every two members that share a team.
pub open spec fn is_round(
    before: Seq<Seq<nat>>,
    after: Seq<Seq<nat>>,
    outcome: RoundOutcome,
    sizes: Seq<u32>,
    trials: u32,
) -> bool {
    match outcome {
        RoundOutcome::Infeasible => after == before && (trials == 0 || before.len() < 2),
        RoundOutcome::Committed { teams, fitness } => {
            let views = team_views(teams@);
            &&& trials > 0
            &&& before.len() >= 2
            &&& is_trial_outcome(before, views, sizes)
            &&& is_partition(views, before.len())
            &&& views.len() == sizes.len()
            &&& forall|t: int| 0 <= t < views.len() ==> (#[trigger] views[t]).len() == sizes[t]
            &&& fitness == fitness_of(before, views)
            &&& after == after_round(before, views)
        },
    }
}

/// A round keeps the history a meeting matrix of the same population, and
/// takes no count down.
pub proof fn lemma_round_keeps_history(
    before: Seq<Seq<nat>>,
    after: Seq<Seq<nat>>,
    outcome: RoundOutcome,
    sizes: Seq<u32>,
    trials: u32,
)
    requires
        is_meeting_matrix(before),
        is_round(before, after, outcome, sizes, trials),
    ensures
        is_meeting_matrix(after),
        after.len() == before.len(),
        forall|i: int, j: int|
            0 <= i < before.len() && 0 <= j < before.len() ==> before[i][j]
                <= #[trigger] after[i][j],
{
}

/// The history that round `index` of a run starts from.
pub open spec fn history_before(
    start: Seq<Seq<nat>>,
    rounds: Seq<RoundReport>,
    index: int,
) -> Seq<Seq<nat>> {
    if index <= 0 {
        start
    } else {
        rounds[index - 1].history@
    }
}

/// The reports are those of a run from `start`: every round starts from the
/// history that the round before it ended with.
pub open spec fn is_run(
    start: Seq<Seq<nat>>,
    rounds: Seq<RoundReport>,
    sizes: Seq<u32>,
    trials: u32,
) -> bool {
    forall|index: int|
        0 <= index < rounds.len() ==> (#[trigger] rounds[index]).history.wf() && is_round(
            history_before(start, rounds, index),
            rounds[index].history@,
            rounds[index].outcome,
            sizes,
            trials,
        )
}

/// The pairing density `((members / teams) - 1) * rounds / (members - 1)`,
/// the division taken exactly, as numerator and denominator:
/// `(members - teams) * rounds` over `teams * (members - 1)`.
pub fn pairing_density(members: u32, teams: u32, rounds: u32) -> (ratio: (u64, u64))
    requires
        1 <= teams <= members,
    ensures
        ratio.0 == (members - teams) * rounds,
        ratio.1 == teams * (members - 1),
{
    assert((members - teams) * rounds <= 0xffff_ffff * 0xffff_ffff && teams * (members - 1)
        <= 0xffff_ffff * 0xffff_ffff) by (nonlinear_arith)
        requires
            1 <= teams <= members <= 0xffff_ffff,
            0 <= rounds <= 0xffff_ffff,
    ;
    (((members - teams) as u64) * (rounds as u64), (teams as u64) * ((members - 1) as u64))
}

/// The best trial of a round so far: its teams, if any trial has won yet,
/// and the score to beat.
#[derive(Debug)]
pub struct Best {
    pub teams: Option<Vec<Vec<u32>>>,
    pub fitness: Fitness,
}

/// The teams of the best trial, as sequences of members.
pub open spec fn best_teams(best: Best) -> Option<Seq<Seq<u32>>> {
    match best.teams {
        Some(teams) => Some(team_views(teams@)),
        None => None,
    }
}

impl Best {
    /// Where a search starts: no teams, and the worst score to beat.
    pub fn start() -> (best: Best)
        ensures
            best.teams is None,
            best.fitness == worst(),
    {
        Best { teams: None, fitness: Fitness::worst() }
    }

    /// Offers the teams of a trial with their score. They take the place of
    /// the best so far when the score is strictly better, and are dropped
    /// otherwise.
    pub fn offer(&mut self, teams: Vec<Vec<u32>>, fitness: Fitness)
        ensures
            better(fitness, old(self).fitness) ==> final(self).fitness == fitness && best_teams(
                *final(self),
            ) == Some(team_views(teams@)),
            !better(fitness, old(self).fitness) ==> final(self).fitness == old(self).fitness
                && best_teams(*final(self)) == best_teams(*old(self)),
    {
        if fitness.improves_on(&self.fitness) {
            self.fitness = fitness;
            self.teams = Some(teams);
        }
    }
}

/// Records every team of a partition in the history.
pub fn commit_partition(history: &mut MeetingHistory, teams: &Vec<Vec<u32>>)
    requires
        old(history).wf(),
        is_partition(team_views(teams@), old(history)@.len()),
        forall|a: int, b: int|
            paired(team_views(teams@), a, b) ==> #[trigger] met(old(history)@, a, b) < u32::MAX,
    ensures
        final(history).wf(),
        final(history)@ == after_round(old(history)@, team_views(teams@)),
        final(history)@.len() == old(history)@.len(),
{
    let ghost before = history@;
    let ghost views = team_views(teams@);
    let ghost n = history@.len();
    proof {
        if views.len() > 0 {
            lemma_after_round_step(before, views, n, 0);
        } else {
            assert forall|i: int, j: int| !paired(views.take(0), i, j) by {}
            assert(after_round(before, views.take(0)) =~~= before);
        }
    }
    let mut t: usize = 0;
    while t < teams.len()
        invariant
            history.wf(),
            before == old(history)@,
            views == team_views(teams@),
            n == before.len(),
            is_partition(views, n),
            forall|u: int| 0 <= u < views.len() ==> is_team(#[trigger] views[u], n),
            forall|a: int, b: int| paired(views, a, b) ==> #[trigger] met(before, a, b) < u32::MAX,
            t <= teams@.len(),
            history@ == after_round(before, views.take(t as int)),
        decreases teams@.len() - t,
    {
        proof {
            lemma_after_round_step(before, views, n, t as int);
            assert forall|a: int, b: int| teammates(views[t as int], a, b) implies #[trigger] met(
                history@,
                a,
                b,
            ) < u32::MAX by {
                // The two share no earlier team, so their count is what it
                // was before the round; and they are members, so it is a
                // cell of the matrix.
                assert(!paired(views.take(t as int), a, b));
                assert(met(before, a, b) < u32::MAX);
                let p = choose|p: int|
                    0 <= p < views[t as int].len() && #[trigger] views[t as int][p] == a;
                let q = choose|q: int|
                    0 <= q < views[t as int].len() && #[trigger] views[t as int][q] == b;
                assert(0 <= a < n && 0 <= b < n);
            }
        }
        history.record_team(&teams[t]);
        t += 1;
    }
    proof {
        assert(views.take(views.len() as int) =~= views);
    }
}

/// Runs one round: many trials against the history as it stands, and the
/// best of them recorded in the history.
///
/// Each trial takes a fresh random order of the members, lets the leader
/// policy choose the leaders, runs the trial and scores what it ends in. A
/// trial that is given up is passed over. A score has to be strictly better
/// than the best so far to take its place, and the search starts from the
/// worst score, which no score without a pair improves on.
pub fn run_round(
    table_of_member: &mut MeetingHistory,
    member_per_team: &Vec<u32>,
    num_iterations_per_round: u32,
) -> (outcome: RoundOutcome)
    requires
        old(table_of_member).wf(),
        is_plan(member_per_team@, old(table_of_member)@.len()),
        1 <= member_per_team@.len() <= u32::MAX,
        forall|i: int, j: int|
            0 <= i < old(table_of_member)@.len() && 0 <= j < old(table_of_member)@.len()
                ==> #[trigger] old(table_of_member)@[i][j] < u32::MAX,
    ensures
        final(table_of_member).wf(),
        final(table_of_member)@.len() == old(table_of_member)@.len(),
        is_round(
            old(table_of_member)@,
            final(table_of_member)@,
            outcome,
            member_per_team@,
            num_iterations_per_round,
        ),
        forall|i: int, j: int|
            0 <= i < old(table_of_member)@.len() && 0 <= j < old(table_of_member)@.len() ==> old(
                table_of_member,
            )@[i][j] <= #[trigger] final(table_of_member)@[i][j] <= old(table_of_member)@[i][j] + 1,
{
    let snapshot = table_of_member.snapshot();
    let n = snapshot.member_count();
    let num_of_team = member_per_team.len() as u32;
    let ghost cells = snapshot@;
    let ghost sizes = member_per_team@;
    proof {
        crate::trial::lemma_plan_fits(sizes, n as nat);
    }
    let mut best = Best::start();
    let mut iteration: u32 = 0;
    while iteration < num_iterations_per_round
        invariant
            snapshot.wf(),
            cells == snapshot@,
            n == cells.len(),
            sizes == member_per_team@,
            is_plan(sizes, n as nat),
            num_of_team == sizes.len(),
            1 <= num_of_team <= n,
            iteration <= num_iterations_per_round,
            best.teams is None ==> best.fitness == worst(),
            iteration > 0 && n >= 2 ==> best.teams is Some,
            best.teams matches Some(teams) ==> {
                &&& n >= 2
                &&& iteration > 0
                &&& is_trial_outcome(cells, team_views(teams@), sizes)
                &&& is_partition(team_views(teams@), n as nat)
                &&& teams@.len() == sizes.len()
                &&& forall|t: int|
                    0 <= t < sizes.len() ==> (#[trigger] teams@[t])@.len() == sizes[t]
                &&& best.fitness == fitness_of(cells, team_views(teams@))
            },
        decreases num_iterations_per_round - iteration,
    {
        let available_members = shuffled_members(n);
        let leader_of_team = select_min_member(&snapshot, num_of_team);
        match run_trial(&available_members, &leader_of_team, member_per_team, &snapshot) {
            Some(current_iteration_round_teams) => {
                let current_fitness = calculate_round_fitness(
                    &current_iteration_round_teams,
                    &snapshot,
                );
                let ghost before = best;
                let ghost offered = current_iteration_round_teams@;
                best.offer(current_iteration_round_teams, current_fitness);
                proof {
                    if better(current_fitness, before.fitness) {
                        assert forall|t: int| 0 <= t < sizes.len() implies (
                        #[trigger] best.teams->0@[t])@.len() == sizes[t] by {
                            assert(team_views(best.teams->0@)[t] == team_views(offered)[t]);
                        }
                    } else {
                        if before.teams is Some {
                            assert(team_views(best.teams->0@) == team_views(before.teams->0@));
                            assert forall|t: int| 0 <= t < sizes.len() implies (
                            #[trigger] best.teams->0@[t])@.len() == sizes[t] by {
                                assert(team_views(best.teams->0@)[t] == team_views(
                                    before.teams->0@,
                                )[t]);
                            }
                        }
                    }
                }
            },
            None => {},
        }
        iteration += 1;
    }
    let Best { teams: best_round_teams, fitness: best_round_fitness } = best;
    match best_round_teams {
        Some(final_round_teams) => {
            commit_partition(table_of_member, &final_round_teams);
            RoundOutcome::Committed { teams: final_round_teams, fitness: best_round_fitness }
        },
        None => RoundOutcome::Infeasible,
    }
}

/// Runs `num_of_task_runs` rounds on the history, one after the other, each
/// with `num_iterations_per_round` trials, for `num_of_team` teams.
///
/// Fails, before any round, when the team count is zero or exceeds the
/// number of members. A round that fails leaves the history as it was, and
/// the run goes on with the next round.
pub fn cal_alg(
    num_of_team: u32,
    num_of_task_runs: u32,
    num_iterations_per_round: u32,
    table_of_member: &mut MeetingHistory,
) -> (run: Result<RunReport, InvalidConfiguration>)
    requires
        old(table_of_member).wf(),
        forall|i: int, j: int|
            0 <= i < old(table_of_member)@.len() && 0 <= j < old(table_of_member)@.len()
                ==> #[trigger] old(table_of_member)@[i][j] + num_of_task_runs <= u32::MAX,
    ensures
        final(table_of_member).wf(),
        final(table_of_member)@.len() == old(table_of_member)@.len(),
        run is Err <==> num_of_team == 0 || num_of_team > old(table_of_member)@.len(),
        run is Err ==> final(table_of_member)@ == old(table_of_member)@,
        run matches Ok(report) ==> {
            &&& report.rounds@.len() == num_of_task_runs
            &&& is_run(
                old(table_of_member)@,
                report.rounds@,
                planned_sizes(old(table_of_member)@.len(), num_of_team as nat),
                num_iterations_per_round,
            )
            &&& final(table_of_member)@ == history_before(
                old(table_of_member)@,
                report.rounds@,
                num_of_task_runs as int,
            )
            &&& report.unmet_pairs == unmet_pairs(final(table_of_member)@)
            &&& report.density.0 == (old(table_of_member)@.len() - num_of_team) * num_of_task_runs
            &&& report.density.1 == num_of_team * (old(table_of_member)@.len() - 1)
        },
        forall|i: int, j: int|
            0 <= i < old(table_of_member)@.len() && 0 <= j < old(table_of_member)@.len() ==> old(
                table_of_member,
            )@[i][j] <= #[trigger] final(table_of_member)@[i][j] <= old(table_of_member)@[i][j]
                + num_of_task_runs,
{
    let n = table_of_member.member_count();
    let member_per_team = match gen_team(n, num_of_team) {
        Ok(sizes) => sizes,
        Err(error) => {
            return Err(error);
        },
    };
    let ghost start = table_of_member@;
    let ghost sizes = member_per_team@;
    let mut rounds: Vec<RoundReport> = Vec::new();
    let mut i: u32 = 0;
    while i < num_of_task_runs
        invariant
            table_of_member.wf(),
            start == old(table_of_member)@,
            n == start.len(),
            table_of_member@.len() == n,
            sizes == member_per_team@,
            sizes == planned_sizes(n as nat, num_of_team as nat),
            is_plan(sizes, n as nat),
            1 <= num_of_team <= n,
            sizes.len() == num_of_team,
            i <= num_of_task_runs,
            rounds@.len() == i,
            is_run(start, rounds@, sizes, num_iterations_per_round),
            table_of_member@ == history_before(start, rounds@, i as int),
            forall|a: int, b: int|
                0 <= a < n && 0 <= b < n ==> start[a][b] <= #[trigger] table_of_member@[a][b]
                    <= start[a][b] + i,
            forall|a: int, b: int|
                0 <= a < n && 0 <= b < n ==> #[trigger] start[a][b] + num_of_task_runs <= u32::MAX,
        decreases num_of_task_runs - i,
    {
        let outcome = run_round(table_of_member, &member_per_team, num_iterations_per_round);
        let history = table_of_member.snapshot();
        rounds.push(RoundReport { outcome, history });
        i += 1;
    }
    let unmet = table_of_member.unmet_pair_count();
    let density = pairing_density(n, num_of_team, num_of_task_runs);
    Ok(RunReport { rounds, unmet_pairs: unmet, density })
}

} // verus!
