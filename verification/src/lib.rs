//! Repeated assignment of a fixed population into teams, so that over the
//! rounds every pair of members meets as evenly and as often as possible.
//!
//! A round runs many trials against the meeting history as it stands. A
//! trial takes a random order of the members, seats one leader per team and
//! fills the teams greedily, preferring members who have not met the team
//! yet. Every trial is scored, and the best one is recorded in the history,
//! which steers the rounds that follow.
//!
//! - [`planner`]: how many members each team takes.
//! - [`history`]: the matrix of meeting counts.
//! - [`leaders`]: the member that each team starts from.
//! - [`filler`]: the greedy completion of one team.
//! - [`trial`]: one trial, from an order and leaders to a partition.
//! - [`partition`]: what it means that teams split the population.
//! - [`fitness`]: the score of a partition, compared exactly.
//! - [`optimizer`]: rounds and whole runs.
//! - [`random`]: the random order of a trial.
//! - [`members`], [`prompt`], [`text`]: reading the member list and the
//!   counts that are typed in.
//! - [`wide`]: the arithmetic behind the exact comparison of scores.

pub mod filler;
pub mod fitness;
pub mod history;
pub mod leaders;
pub mod members;
pub mod optimizer;
pub mod partition;
pub mod planner;
pub mod prompt;
pub mod random;
pub mod text;
pub mod trial;
pub mod wide;
