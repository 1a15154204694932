//! The model of joint plans: clashes between agents, cost and makespan, and
//! what it means for a plan to solve an environment.

use vstd::prelude::*;
use crate::algo::astar::AstarConstraint;
use crate::algo::cbs::{CbsConflict, CbsConstraint, GridEnvironment, GridPoint};
use crate::algo::route::{mission, valid_path, Mission};

verus! {

/// A joint plan: one path per agent, indexed by agent and then by time.
pub type Plan = Seq<Seq<GridPoint>>;

/// The paths that a path table holds.
pub open spec fn table_view(table: Seq<Vec<GridPoint>>) -> Plan {
    Seq::new(table.len(), |a: int| table[a]@)
}

/// Agents `a` and `b` are both present at time `t`, in the same cell.
pub open spec fn vertex_clash(plan: Plan, a: int, b: int, t: int) -> bool {
    t < plan[a].len() && t < plan[b].len() && plan[a][t] == plan[b][t]
}

/// Agents `a` and `b` exchange their cells between times `t` and `t + 1`.
pub open spec fn swap_clash(plan: Plan, a: int, b: int, t: int) -> bool {
    &&& t + 1 < plan[a].len()
    &&& t + 1 < plan[b].len()
    &&& plan[a][t] == plan[b][t + 1]
    &&& plan[b][t] == plan[a][t + 1]
}

/// No two agents ever share a cell or exchange cells. An agent whose path
/// has ended is no longer present.
pub open spec fn conflict_free(plan: Plan) -> bool {
    &&& forall|a: int, b: int, t: int|
        0 <= a < plan.len() && 0 <= b < plan.len() && a != b && 0 <= t ==> !#[trigger] vertex_clash(
            plan,
            a,
            b,
            t,
        )
    &&& forall|a: int, b: int, t: int|
        0 <= a < plan.len() && 0 <= b < plan.len() && a != b && 0 <= t ==> !#[trigger] swap_clash(
            plan,
            a,
            b,
            t,
        )
}

/// The sum over the agents of the number of steps of each path.
pub open spec fn sum_of_costs(plan: Plan) -> int
    decreases plan.len(),
{
    if plan.len() == 0 {
        0
    } else {
        sum_of_costs(plan.drop_last()) + (plan.last().len() - 1)
    }
}

/// The length of the longest path, zero for no paths.
pub open spec fn makespan(plan: Plan) -> int
    decreases plan.len(),
{
    if plan.len() == 0 {
        0
    } else if makespan(plan.drop_last()) >= plan.last().len() {
        makespan(plan.drop_last())
    } else {
        plan.last().len() as int
    }
}

/// A time as the low-level planner counts it; times beyond its range can
/// bind no step and become -1.
pub open spec fn as_time(t: usize) -> isize {
    if t <= isize::MAX {
        t as isize
    } else {
        -1isize
    }
}

/// The prohibition that a high-level constraint puts on its agent.
pub open spec fn lower(c: CbsConstraint) -> AstarConstraint {
    AstarConstraint {
        point1: c.point1,
        point2: c.point2,
        time1: as_time(c.time1),
        time2: as_time(c.time2),
    }
}

/// The prohibitions on one agent, in the order of the constraint list.
pub open spec fn for_agent(cs: Seq<CbsConstraint>, agent: int) -> Seq<AstarConstraint>
    decreases cs.len(),
{
    if cs.len() == 0 {
        Seq::empty()
    } else if cs.last().agent == agent {
        for_agent(cs.drop_last(), agent).push(lower(cs.last()))
    } else {
        for_agent(cs.drop_last(), agent)
    }
}

/// The single-agent problem of agent `a` under the constraints `cs`.
pub open spec fn agent_mission(env: GridEnvironment, cs: Seq<CbsConstraint>, a: int) -> Mission {
    mission(
        env.start_points@[a],
        env.goal_points@[a],
        env.obstacles@,
        for_agent(cs, a),
        env.dim_x as int,
        env.dim_y as int,
    )
}

/// `plan` gives every agent of `env` a valid path under the constraints `cs`.
pub open spec fn admits(env: GridEnvironment, cs: Seq<CbsConstraint>, plan: Plan) -> bool {
    &&& plan.len() == env.number_of_agents
    &&& forall|a: int|
        0 <= a < plan.len() ==> valid_path(agent_mission(env, cs, a), #[trigger] plan[a])
}

/// `plan` solves `env`: every agent walks from its start to its goal by
/// allowed steps, and no two agents clash.
pub open spec fn is_solution(env: GridEnvironment, plan: Plan) -> bool {
    admits(env, Seq::empty(), plan) && conflict_free(plan)
}

/// `plan` solves `env`, and no solution has a smaller sum of costs.
pub open spec fn is_optimal(env: GridEnvironment, plan: Plan) -> bool {
    &&& is_solution(env, plan)
    &&& forall|other: Plan| #[trigger]
        is_solution(env, other) ==> sum_of_costs(plan) <= sum_of_costs(other)
}

/// No solution of `env` has a sum of costs that an `isize` can hold.
pub open spec fn unsolvable(env: GridEnvironment) -> bool {
    forall|other: Plan| #[trigger] is_solution(env, other) ==> sum_of_costs(other) > isize::MAX
}

/// The constraint that keeps the first agent of a conflict out of it.
pub open spec fn left_of(c: CbsConflict) -> CbsConstraint {
    if c.time2 == c.time1 {
        CbsConstraint {
            agent: c.agent1,
            point1: c.point1,
            point2: c.point1,
            time1: c.time1,
            time2: c.time1,
        }
    } else {
        CbsConstraint {
            agent: c.agent1,
            point1: c.point1,
            point2: c.point2,
            time1: c.time1,
            time2: c.time2,
        }
    }
}

/// The constraint that keeps the second agent of a conflict out of it; for
/// a swap it closes the opposite edge.
pub open spec fn right_of(c: CbsConflict) -> CbsConstraint {
    if c.time2 == c.time1 {
        CbsConstraint {
            agent: c.agent2,
            point1: c.point1,
            point2: c.point1,
            time1: c.time1,
            time2: c.time1,
        }
    } else {
        CbsConstraint {
            agent: c.agent2,
            point1: c.point2,
            point2: c.point1,
            time1: c.time1,
            time2: c.time2,
        }
    }
}

/// The constraint list with `c` added, unless it holds `c` already.
pub open spec fn with_constraint(cs: Seq<CbsConstraint>, c: CbsConstraint) -> Seq<CbsConstraint> {
    if cs.contains(c) {
        cs
    } else {
        cs.push(c)
    }
}

/// The pair `(a, b)` comes before `(a0, b0)` in the order of the scan.
pub open spec fn pair_before(a: int, b: int, a0: int, b0: int) -> bool {
    a < a0 || (a == a0 && b < b0)
}

/// Nothing clashes before time `i`: no two agents share a cell at a time
/// below `i`, and no two exchange cells arriving at such a time.
pub open spec fn calm_before(plan: Plan, i: int) -> bool {
    &&& forall|a: int, b: int, t: int|
        0 <= a < b < plan.len() && 0 <= t < i ==> !#[trigger] vertex_clash(plan, a, b, t)
    &&& forall|a: int, b: int, t: int|
        0 <= a < b < plan.len() && 0 <= t && t + 1 < i ==> !#[trigger] swap_clash(plan, a, b, t)
}

/// No pair of agents shares a cell at time `t`.
pub open spec fn no_vertex_clash_at(plan: Plan, t: int) -> bool {
    forall|a: int, b: int| 0 <= a < b < plan.len() ==> !#[trigger] vertex_clash(plan, a, b, t)
}

/// `c` is the conflict that a scan by time finds first: at each time the
/// shared cells before the exchanges, and the pairs of agents in order.
pub open spec fn first_conflict(plan: Plan, c: CbsConflict) -> bool {
    let a1 = c.agent1 as int;
    let a2 = c.agent2 as int;
    &&& 0 <= a1 < a2 < plan.len()
    &&& if c.time1 == c.time2 {
        &&& vertex_clash(plan, a1, a2, c.time1 as int)
        &&& c.point1 == plan[a1][c.time1 as int]
        &&& c.point2 == c.point1
        &&& calm_before(plan, c.time1 as int)
        &&& forall|a: int, b: int|
            0 <= a < b < plan.len() && pair_before(a, b, a1, a2) ==> !#[trigger] vertex_clash(
                plan,
                a,
                b,
                c.time1 as int,
            )
    } else {
        &&& c.time2 == c.time1 + 1
        &&& swap_clash(plan, a1, a2, c.time1 as int)
        &&& c.point1 == plan[a1][c.time1 as int]
        &&& c.point2 == plan[a1][c.time2 as int]
        &&& calm_before(plan, c.time2 as int)
        &&& no_vertex_clash_at(plan, c.time2 as int)
        &&& forall|a: int, b: int|
            0 <= a < b < plan.len() && pair_before(a, b, a1, a2) ==> !#[trigger] swap_clash(
                plan,
                a,
                b,
                c.time1 as int,
            )
    }
}

/// No plan that `cs` admits has a sum of costs that an `isize` can hold.
pub open spec fn beyond_reach(env: GridEnvironment, cs: Seq<CbsConstraint>) -> bool {
    forall|plan: Plan| #[trigger] admits(env, cs, plan) ==> sum_of_costs(plan) > isize::MAX
}

/// One more path adds its number of steps to the sum of costs.
pub(crate) proof fn lemma_cost_sum_push(plan: Plan, path: Seq<GridPoint>)
    ensures
        sum_of_costs(plan.push(path)) == sum_of_costs(plan) + path.len() - 1,
{
    assert(plan.push(path).drop_last() =~= plan);
}

/// Paths that are each no longer than those of another plan, agent by agent
/// and for no more agents, cost no more in sum.
pub proof fn lemma_cost_sum_dominated(p: Plan, q: Plan)
    requires
        p.len() <= q.len(),
        forall|a: int| 0 <= a < p.len() ==> (#[trigger] p[a]).len() <= q[a].len(),
        forall|a: int| 0 <= a < q.len() ==> (#[trigger] q[a]).len() >= 1,
    ensures
        sum_of_costs(p) <= sum_of_costs(q),
    decreases q.len(),
{
    if q.len() == 0 {
    } else if p.len() < q.len() {
        lemma_cost_sum_dominated(p, q.drop_last());
    } else {
        assert(p.last().len() <= q[q.len() - 1].len());
        lemma_cost_sum_dominated(p.drop_last(), q.drop_last());
    }
}

/// The sum of costs is at least the cost of each path.
pub(crate) proof fn lemma_cost_sum_covers(plan: Plan, a: int)
    requires
        forall|b: int| 0 <= b < plan.len() ==> (#[trigger] plan[b]).len() >= 1,
        0 <= a < plan.len(),
    ensures
        sum_of_costs(plan) >= plan[a].len() - 1,
{
    let single = seq![plan[a]];
    let lone = Seq::new((a + 1) as nat, |b: int| if b == a { plan[a] } else { seq![plan[a][0]] });
    assert(lone.drop_last() =~= Seq::new(a as nat, |b: int| seq![plan[a][0]]));
    lemma_cost_sum_units(lone.drop_last());
    lemma_cost_sum_dominated(lone, plan);
}

/// Paths of one cell cost nothing.
proof fn lemma_cost_sum_units(plan: Plan)
    requires
        forall|b: int| 0 <= b < plan.len() ==> (#[trigger] plan[b]).len() == 1,
    ensures
        sum_of_costs(plan) == 0,
    decreases plan.len(),
{
    if plan.len() > 0 {
        lemma_cost_sum_units(plan.drop_last());
    }
}

/// A plan that stays calm for as long as its longest path is conflict-free.
pub(crate) proof fn lemma_calm_is_free(plan: Plan, horizon: int)
    requires
        calm_before(plan, horizon),
        forall|a: int| 0 <= a < plan.len() ==> (#[trigger] plan[a]).len() <= horizon,
    ensures
        conflict_free(plan),
{
    assert forall|a: int, b: int, t: int|
        0 <= a < plan.len() && 0 <= b < plan.len() && a != b && 0 <= t implies !#[trigger]
    vertex_clash(plan, a, b, t) by {
        assert(plan[a].len() <= horizon);
        if a < b {
            assert(t < horizon ==> !vertex_clash(plan, a, b, t));
        } else {
            assert(t < horizon ==> !vertex_clash(plan, b, a, t));
        }
    }
    assert forall|a: int, b: int, t: int|
        0 <= a < plan.len() && 0 <= b < plan.len() && a != b && 0 <= t implies !#[trigger]
    swap_clash(plan, a, b, t) by {
        assert(plan[a].len() <= horizon);
        if a < b {
            assert(t + 1 < horizon ==> !swap_clash(plan, a, b, t));
        } else {
            assert(t + 1 < horizon ==> !swap_clash(plan, b, a, t));
        }
    }
}

/// The longest path is at least as long as each.
pub proof fn lemma_makespan_bounds(plan: Plan, a: int)
    requires
        0 <= a < plan.len(),
    ensures
        plan[a].len() <= makespan(plan),
    decreases plan.len(),
{
    if a < plan.len() - 1 {
        lemma_makespan_bounds(plan.drop_last(), a);
    }
}

/// Some path is as long as the makespan.
pub proof fn lemma_makespan_attained(plan: Plan)
    requires
        plan.len() > 0,
    ensures
        exists|a: int| 0 <= a < plan.len() && (#[trigger] plan[a]).len() == makespan(plan),
    decreases plan.len(),
{
    if plan.len() > 1 && makespan(plan.drop_last()) >= plan.last().len() {
        lemma_makespan_attained(plan.drop_last());
        let a = choose|a: int|
            0 <= a < plan.drop_last().len() && (#[trigger] plan.drop_last()[a]).len() == makespan(
                plan.drop_last(),
            );
        assert(plan[a].len() == makespan(plan));
    } else {
        assert(plan.len() == 1 ==> makespan(plan.drop_last()) == 0);
        assert(plan[plan.len() - 1].len() == makespan(plan));
    }
}

} // verus!
