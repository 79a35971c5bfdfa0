//! Team sizes: how many members each team takes.

use vstd::prelude::*;

verus! {

/// The team count is zero, or there are more teams than members.
#[derive(Debug, Clone, Copy, PartialEq, Eq)]
pub struct InvalidConfiguration;

/// Size of team `index` when `members` are spread over `teams` teams: the
/// quotient, and one more for the first `members % teams` teams.
pub open spec fn planned_size(members: nat, teams: nat, index: int) -> nat {
    if 0 <= index < (members % teams) as int {
        members / teams + 1
    } else {
        members / teams
    }
}

/// The sizes of all teams, in team order.
pub open spec fn planned_sizes(members: nat, teams: nat) -> Seq<u32> {
    Seq::new(teams, |index: int| planned_size(members, teams, index) as u32)
}

/// Sum of the first `upto` sizes.
pub open spec fn total_upto(sizes: Seq<u32>, upto: int) -> int
    decreases upto,
{
    if upto <= 0 {
        0
    } else {
        total_upto(sizes, upto - 1) + sizes[upto - 1]
    }
}

/// Sum of all sizes.
pub open spec fn total(sizes: Seq<u32>) -> int {
    total_upto(sizes, sizes.len() as int)
}

/// Quotient and remainder of a valid configuration: the quotient is at least
/// one, and no planned size exceeds the member count.
pub proof fn lemma_plan_bounds(members: nat, teams: nat)
    requires
        1 <= teams <= members,
    ensures
        members == teams * (members / teams) + members % teams,
        1 <= members / teams <= members,
        members % teams < teams,
        members % teams > 0 ==> members / teams + 1 <= members,
        forall|index: int|
            #![trigger planned_size(members, teams, index)]
            1 <= planned_size(members, teams, index) <= members,
{
    let base = members / teams;
    let rest = members % teams;
    assert(members == teams * base + rest && base >= 1 && base <= members && rest < teams && (rest
        > 0 ==> base + 1 <= members)) by (nonlinear_arith)
        requires
            base == members / teams,
            rest == members % teams,
            1 <= teams <= members,
    ;
}

/// The first `upto` planned sizes add up to `upto` quotients plus one for
/// each of the teams among them that takes an extra member.
pub proof fn lemma_planned_prefix_total(members: nat, teams: nat, upto: int)
    requires
        1 <= teams <= members <= u32::MAX,
        0 <= upto <= teams,
    ensures
        total_upto(planned_sizes(members, teams), upto) == upto * (members / teams) + (if upto
            < members % teams {
            upto
        } else {
            (members % teams) as int
        }),
    decreases upto,
{
    lemma_plan_bounds(members, teams);
    let base = (members / teams) as int;
    if upto > 0 {
        lemma_planned_prefix_total(members, teams, upto - 1);
        assert(upto * base == (upto - 1) * base + base) by (nonlinear_arith);
    } else {
        assert(upto * base == 0) by (nonlinear_arith)
            requires
                upto == 0,
        ;
    }
}

/// A plan has one entry per team, every entry is at least one, any two
/// entries differ by at most one, and together they account for every member.
pub proof fn lemma_planned_sizes(members: nat, teams: nat)
    requires
        1 <= teams <= members <= u32::MAX,
    ensures
        planned_sizes(members, teams).len() == teams,
        total(planned_sizes(members, teams)) == members,
        forall|i: int| 0 <= i < teams ==> #[trigger] planned_sizes(members, teams)[i] >= 1,
        forall|i: int, j: int|
            0 <= i < teams && 0 <= j < teams ==> #[trigger] planned_sizes(members, teams)[i]
                <= #[trigger] planned_sizes(members, teams)[j] + 1,
{
    lemma_plan_bounds(members, teams);
    lemma_planned_prefix_total(members, teams, teams as int);
    assert forall|i: int| 0 <= i < teams implies #[trigger] planned_sizes(members, teams)[i]
        == planned_size(members, teams, i) by {}
}

/// Plans the team sizes for `list` members in `num` teams.
///
/// Fails when `num` is zero or exceeds `list`; otherwise every team gets
/// `list / num` members and the first `list % num` teams one more.
pub fn gen_team(list: u32, num: u32) -> (plan: Result<Vec<u32>, InvalidConfiguration>)
    ensures
        plan is Err <==> num == 0 || num > list,
        plan matches Ok(sizes) ==> {
            &&& sizes@ == planned_sizes(list as nat, num as nat)
            &&& sizes@.len() == num
            &&& total(sizes@) == list
            &&& forall|i: int| 0 <= i < num ==> #[trigger] sizes@[i] >= 1
            &&& forall|i: int, j: int|
                0 <= i < num && 0 <= j < num ==> #[trigger] sizes@[i] <= #[trigger] sizes@[j] + 1
        },
{
    if num == 0 || num > list {
        return Err(InvalidConfiguration);
    }
    let base_num: u32 = list / num;
    let remain_num: u32 = list % num;
    let mut output: Vec<u32> = Vec::with_capacity(num as usize);
    let mut i: u32 = 0;
    while i < num
        invariant
            1 <= num <= list,
            base_num == list / num,
            remain_num == list % num,
            i <= num,
            output@.len() == i,
            forall|t: int|
                0 <= t < i ==> #[trigger] output@[t] == planned_size(list as nat, num as nat, t),
        decreases num - i,
    {
        proof {
            lemma_plan_bounds(list as nat, num as nat);
        }
        let mut number_of_this_team: u32 = base_num;
        if i < remain_num {
            number_of_this_team += 1;
        }
        output.push(number_of_this_team);
        i += 1;
    }
    proof {
        lemma_planned_sizes(list as nat, num as nat);
    }
    Ok(output)
}

} // verus!
