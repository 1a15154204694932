//! The reasoning behind the high-level search: why splitting on a conflict
//! loses no solution, and why the search tree is finite.

use vstd::prelude::*;
use crate::algo::cbs::{CbsConflict, CbsConstraint, CbsHNode, GridEnvironment, GridPoint};
use crate::algo::count::{
    all_below, lemma_distinct_bounded, lemma_pack_range, lemma_pack_unique, pack,
};
use crate::algo::plan::{
    admits, agent_mission, conflict_free, first_conflict, for_agent, is_solution, left_of, lower,
    right_of, sum_of_costs, swap_clash, vertex_clash, Plan,
};
use crate::algo::route::{forbids, in_bounds, step_at, valid_path, Mission};

verus! {

/// Some step of `path` is what the constraint `c` prohibits.
pub open spec fn breaks(c: CbsConstraint, path: Seq<GridPoint>) -> bool {
    exists|i: int|
        0 <= i < path.len() - 1 && #[trigger] forbids(lower(c), path[i], path[i + 1], i + 1)
}

/// One more constraint adds its prohibition to its agent and to no other.
pub(crate) proof fn lemma_for_agent_push(cs: Seq<CbsConstraint>, c: CbsConstraint, a: int)
    ensures
        for_agent(cs.push(c), a) == if c.agent == a {
            for_agent(cs, a).push(lower(c))
        } else {
            for_agent(cs, a)
        },
{
    assert(cs.push(c).drop_last() =~= cs);
}

/// Each constraint of a list is among the prohibitions on its agent.
pub(crate) proof fn lemma_for_agent_holds(cs: Seq<CbsConstraint>, k: int)
    requires
        0 <= k < cs.len(),
    ensures
        for_agent(cs, cs[k].agent as int).contains(lower(cs[k])),
    decreases cs.len(),
{
    let a = cs[k].agent as int;
    if k == cs.len() - 1 {
        assert(for_agent(cs, a)[for_agent(cs, a).len() - 1] == lower(cs[k]));
    } else {
        lemma_for_agent_holds(cs.drop_last(), k);
        let before = for_agent(cs.drop_last(), a);
        let j = choose|j: int| 0 <= j < before.len() && before[j] == lower(cs[k]);
        assert(for_agent(cs, a)[j] == lower(cs[k]));
    }
}

/// A path that is valid under a constraint list breaks none of the
/// constraints on its agent.
pub(crate) proof fn lemma_valid_keeps(
    env: GridEnvironment,
    cs: Seq<CbsConstraint>,
    a: int,
    path: Seq<GridPoint>,
    k: int,
)
    requires
        valid_path(agent_mission(env, cs, a), path),
        0 <= k < cs.len(),
        cs[k].agent == a,
    ensures
        !breaks(cs[k], path),
{
    let m = agent_mission(env, cs, a);
    lemma_for_agent_holds(cs, k);
    let j = choose|j: int| 0 <= j < m.constraints.len() && m.constraints[j] == lower(cs[k]);
    assert forall|i: int| 0 <= i < path.len() - 1 implies !#[trigger] forbids(
        lower(cs[k]),
        path[i],
        path[i + 1],
        i + 1,
    ) by {
        assert(step_at(m, path, i));
        assert(!forbids(m.constraints[j], path[i], path[i + 1], i + 1));
    }
}

/// A path stays valid under one more constraint that binds another agent or
/// that the path does not break.
pub(crate) proof fn lemma_valid_extends(
    env: GridEnvironment,
    cs: Seq<CbsConstraint>,
    c: CbsConstraint,
    a: int,
    path: Seq<GridPoint>,
)
    requires
        valid_path(agent_mission(env, cs, a), path),
        c.agent != a || !breaks(c, path),
    ensures
        valid_path(agent_mission(env, cs.push(c), a), path),
{
    let m = agent_mission(env, cs, a);
    let more = agent_mission(env, cs.push(c), a);
    lemma_for_agent_push(cs, c, a);
    assert forall|i: int| 0 <= i < path.len() - 1 implies #[trigger] step_at(more, path, i) by {
        assert(step_at(m, path, i));
        if c.agent == a {
            assert(!forbids(lower(c), path[i], path[i + 1], i + 1));
            assert forall|k: int| 0 <= k < more.constraints.len() implies !forbids(
                #[trigger] more.constraints[k],
                path[i],
                path[i + 1],
                i + 1,
            ) by {
                if k < m.constraints.len() {
                    assert(more.constraints[k] == m.constraints[k]);
                }
            }
        }
    }
}

/// A path that is valid under constraints is valid without them.
pub proof fn lemma_valid_unconstrained(
    env: GridEnvironment,
    cs: Seq<CbsConstraint>,
    a: int,
    path: Seq<GridPoint>,
)
    requires
        valid_path(agent_mission(env, cs, a), path),
    ensures
        valid_path(agent_mission(env, Seq::empty(), a), path),
{
    let m = agent_mission(env, cs, a);
    let free = agent_mission(env, Seq::empty(), a);
    assert forall|i: int| 0 <= i < path.len() - 1 implies #[trigger] step_at(free, path, i) by {
        assert(step_at(m, path, i));
    }
}

/// A valid path from a start in bounds stays in bounds.
pub proof fn lemma_valid_in_bounds(m: Mission, path: Seq<GridPoint>, i: int)
    requires
        valid_path(m, path),
        in_bounds(m.start, m.dim_x, m.dim_y),
        0 <= i < path.len(),
    ensures
        in_bounds(path[i], m.dim_x, m.dim_y),
{
    if i > 0 {
        assert(step_at(m, path, i - 1));
    }
}

/// What a split needs of a conflict: two agents of the plan, times that the
/// low-level planner can count, not both zero, and one of the two kinds.
pub open spec fn splittable(c: CbsConflict, agents: int) -> bool {
    &&& c.agent1 != c.agent2
    &&& c.agent1 < agents
    &&& c.agent2 < agents
    &&& 0 < c.time2 <= isize::MAX
    &&& c.time1 == c.time2 || c.time2 == c.time1 + 1
}

/// The two paths of a conflict break the two constraints of its split.
pub(crate) proof fn lemma_conflict_breaks(plan: Plan, c: CbsConflict)
    requires
        first_conflict(plan, c),
        splittable(c, plan.len() as int),
    ensures
        breaks(left_of(c), plan[c.agent1 as int]),
        breaks(right_of(c), plan[c.agent2 as int]),
{
    let p1 = plan[c.agent1 as int];
    let p2 = plan[c.agent2 as int];
    let i = c.time2 - 1;
    assert(forbids(lower(left_of(c)), p1[i], p1[i + 1], i + 1));
    assert(forbids(lower(right_of(c)), p2[i], p2[i + 1], i + 1));
}

/// A conflict-free plan cannot break both constraints of a split.
pub proof fn lemma_one_side_holds(plan: Plan, c: CbsConflict)
    requires
        conflict_free(plan),
        splittable(c, plan.len() as int),
    ensures
        !breaks(left_of(c), plan[c.agent1 as int]) || !breaks(right_of(c), plan[c.agent2 as int]),
{
    let a1 = c.agent1 as int;
    let a2 = c.agent2 as int;
    if breaks(left_of(c), plan[a1]) && breaks(right_of(c), plan[a2]) {
        let i = choose|i: int|
            0 <= i < plan[a1].len() - 1 && #[trigger] forbids(
                lower(left_of(c)),
                plan[a1][i],
                plan[a1][i + 1],
                i + 1,
            );
        let j = choose|j: int|
            0 <= j < plan[a2].len() - 1 && #[trigger] forbids(
                lower(right_of(c)),
                plan[a2][j],
                plan[a2][j + 1],
                j + 1,
            );
        if c.time1 == c.time2 {
            assert(vertex_clash(plan, a1, a2, c.time1 as int));
        } else {
            assert(swap_clash(plan, a1, a2, c.time1 as int));
        }
    }
}

/// Some open node admits `plan`.
pub open spec fn covered_by(open: Seq<CbsHNode>, env: GridEnvironment, plan: Plan) -> bool {
    exists|k: int| 0 <= k < open.len() && admits(env, (#[trigger] open[k])@.constraints, plan)
}

/// One of the pending constraint lists admits `plan`.
pub open spec fn awaited_by(
    pending: Seq<Seq<CbsConstraint>>,
    env: GridEnvironment,
    plan: Plan,
) -> bool {
    exists|j: int| 0 <= j < pending.len() && admits(env, #[trigger] pending[j], plan)
}

/// Every solution whose cost an `isize` can hold is admitted by an open node
/// or by a constraint list that is still to be planned.
pub open spec fn covering(
    open: Seq<CbsHNode>,
    pending: Seq<Seq<CbsConstraint>>,
    env: GridEnvironment,
) -> bool {
    forall|plan: Plan| #[trigger]
        is_solution(env, plan) && sum_of_costs(plan) <= isize::MAX ==> covered_by(open, env, plan)
            || awaited_by(pending, env, plan)
}

/// Taking a node out of the open set makes its constraints pending.
pub(crate) proof fn lemma_cover_take(open: Seq<CbsHNode>, at: int, env: GridEnvironment)
    requires
        covering(open, Seq::empty(), env),
        0 <= at < open.len(),
    ensures
        covering(open.remove(at), seq![open[at]@.constraints], env),
{
    let rest = open.remove(at);
    let pending = seq![open[at]@.constraints];
    assert forall|plan: Plan| #[trigger]
        is_solution(env, plan) && sum_of_costs(plan) <= isize::MAX implies covered_by(
        rest,
        env,
        plan,
    ) || awaited_by(pending, env, plan) by {
        assert(covered_by(open, env, plan));
        let k = choose|k: int|
            0 <= k < open.len() && admits(env, (#[trigger] open[k])@.constraints, plan);
        if k < at {
            assert(rest[k] == open[k]);
        } else if k > at {
            assert(rest[k - 1] == open[k]);
        } else {
            assert(pending[0] == open[at]@.constraints);
        }
    }
}

/// A solution that a constraint list admits is admitted by one of the two
/// lists of a split on any conflict.
pub(crate) proof fn lemma_cover_split(
    open: Seq<CbsHNode>,
    cs: Seq<CbsConstraint>,
    c: CbsConflict,
    env: GridEnvironment,
)
    requires
        covering(open, seq![cs], env),
        splittable(c, env.number_of_agents as int),
    ensures
        covering(open, seq![cs.push(left_of(c)), cs.push(right_of(c))], env),
{
    let before = seq![cs];
    let after = seq![cs.push(left_of(c)), cs.push(right_of(c))];
    assert forall|plan: Plan| #[trigger]
        is_solution(env, plan) && sum_of_costs(plan) <= isize::MAX implies covered_by(
        open,
        env,
        plan,
    ) || awaited_by(after, env, plan) by {
        if !covered_by(open, env, plan) {
            assert(awaited_by(before, env, plan));
            let j = choose|j: int| 0 <= j < before.len() && admits(env, #[trigger] before[j], plan);
            assert(before[j] == cs);
            lemma_one_side_holds(plan, c);
            if !breaks(left_of(c), plan[c.agent1 as int]) {
                assert forall|a: int| 0 <= a < plan.len() implies valid_path(
                    agent_mission(env, cs.push(left_of(c)), a),
                    #[trigger] plan[a],
                ) by {
                    lemma_valid_extends(env, cs, left_of(c), a, plan[a]);
                }
                assert(admits(env, after[0], plan));
            } else {
                assert forall|a: int| 0 <= a < plan.len() implies valid_path(
                    agent_mission(env, cs.push(right_of(c)), a),
                    #[trigger] plan[a],
                ) by {
                    lemma_valid_extends(env, cs, right_of(c), a, plan[a]);
                }
                assert(admits(env, after[1], plan));
            }
        }
    }
}

/// A node planned under the first pending list joins the open set.
pub(crate) proof fn lemma_cover_push(
    open: Seq<CbsHNode>,
    pending: Seq<Seq<CbsConstraint>>,
    node: CbsHNode,
    env: GridEnvironment,
)
    requires
        covering(open, pending, env),
        pending.len() >= 1,
        node@.constraints == pending[0],
    ensures
        covering(open.push(node), pending.drop_first(), env),
{
    let wider = open.push(node);
    let rest = pending.drop_first();
    assert forall|plan: Plan| #[trigger]
        is_solution(env, plan) && sum_of_costs(plan) <= isize::MAX implies covered_by(
        wider,
        env,
        plan,
    ) || awaited_by(rest, env, plan) by {
        if covered_by(open, env, plan) {
            let k = choose|k: int|
                0 <= k < open.len() && admits(env, (#[trigger] open[k])@.constraints, plan);
            assert(wider[k] == open[k]);
        } else {
            let j = choose|j: int|
                0 <= j < pending.len() && admits(env, #[trigger] pending[j], plan);
            if j == 0 {
                assert(wider[open.len() as int] == node);
            } else {
                assert(rest[j - 1] == pending[j]);
            }
        }
    }
}

/// A pending list that admits no plan of representable cost can be dropped.
pub(crate) proof fn lemma_cover_drop(
    open: Seq<CbsHNode>,
    pending: Seq<Seq<CbsConstraint>>,
    env: GridEnvironment,
)
    requires
        covering(open, pending, env),
        pending.len() >= 1,
        crate::algo::plan::beyond_reach(env, pending[0]),
    ensures
        covering(open, pending.drop_first(), env),
{
    let rest = pending.drop_first();
    assert forall|plan: Plan| #[trigger]
        is_solution(env, plan) && sum_of_costs(plan) <= isize::MAX implies covered_by(
        open,
        env,
        plan,
    ) || awaited_by(rest, env, plan) by {
        if !covered_by(open, env, plan) {
            let j = choose|j: int|
                0 <= j < pending.len() && admits(env, #[trigger] pending[j], plan);
            if j == 0 {
                assert(admits(env, pending[0], plan));
            } else {
                assert(rest[j - 1] == pending[j]);
            }
        }
    }
}

/// The constraint speaks of an agent and of cells of `env`, at times that
/// the low-level planner can count.
pub open spec fn bounded(c: CbsConstraint, env: GridEnvironment) -> bool {
    &&& c.agent < env.number_of_agents
    &&& in_bounds(c.point1, env.dim_x as int, env.dim_y as int)
    &&& in_bounds(c.point2, env.dim_x as int, env.dim_y as int)
    &&& c.time1 <= isize::MAX
    &&& c.time2 <= isize::MAX
}

/// The list holds no constraint twice, and only bounded ones.
pub open spec fn tidy(cs: Seq<CbsConstraint>, env: GridEnvironment) -> bool {
    &&& cs.no_duplicates()
    &&& forall|k: int| 0 <= k < cs.len() ==> bounded(#[trigger] cs[k], env)
}

/// The number of times that the low-level planner can count.
pub open spec fn times() -> int {
    isize::MAX + 1
}

/// The number of bounded constraints of `env`.
pub open spec fn universe(env: GridEnvironment) -> int {
    (((((env.number_of_agents * env.dim_x) * env.dim_y) * env.dim_x) * env.dim_y) * times())
        * times()
}

/// The number of a bounded constraint among all of them.
pub open spec fn constraint_code(c: CbsConstraint, env: GridEnvironment) -> int {
    pack(
        pack(
            pack(
                pack(
                    pack(
                        pack(c.agent as int, c.point1.x as int, env.dim_x as int),
                        c.point1.y as int,
                        env.dim_y as int,
                    ),
                    c.point2.x as int,
                    env.dim_x as int,
                ),
                c.point2.y as int,
                env.dim_y as int,
            ),
            c.time1 as int,
            times(),
        ),
        c.time2 as int,
        times(),
    )
}

/// The code of a bounded constraint lies below the size of the universe.
proof fn lemma_code_range(c: CbsConstraint, env: GridEnvironment)
    requires
        bounded(c, env),
    ensures
        0 <= constraint_code(c, env) < universe(env),
{
    let dx = env.dim_x as int;
    let dy = env.dim_y as int;
    let n = env.number_of_agents as int;
    let c1 = pack(c.agent as int, c.point1.x as int, dx);
    lemma_pack_range(c.agent as int, n, c.point1.x as int, dx);
    let c2 = pack(c1, c.point1.y as int, dy);
    lemma_pack_range(c1, n * dx, c.point1.y as int, dy);
    let c3 = pack(c2, c.point2.x as int, dx);
    lemma_pack_range(c2, (n * dx) * dy, c.point2.x as int, dx);
    let c4 = pack(c3, c.point2.y as int, dy);
    lemma_pack_range(c3, ((n * dx) * dy) * dx, c.point2.y as int, dy);
    let c5 = pack(c4, c.time1 as int, times());
    lemma_pack_range(c4, (((n * dx) * dy) * dx) * dy, c.time1 as int, times());
    lemma_pack_range(c5, ((((n * dx) * dy) * dx) * dy) * times(), c.time2 as int, times());
}

/// Bounded constraints with the same code are the same.
proof fn lemma_code_unique(c: CbsConstraint, d: CbsConstraint, env: GridEnvironment)
    requires
        bounded(c, env),
        bounded(d, env),
        constraint_code(c, env) == constraint_code(d, env),
    ensures
        c == d,
{
    let dx = env.dim_x as int;
    let dy = env.dim_y as int;
    let c1 = pack(c.agent as int, c.point1.x as int, dx);
    let c2 = pack(c1, c.point1.y as int, dy);
    let c3 = pack(c2, c.point2.x as int, dx);
    let c4 = pack(c3, c.point2.y as int, dy);
    let c5 = pack(c4, c.time1 as int, times());
    let d1 = pack(d.agent as int, d.point1.x as int, dx);
    let d2 = pack(d1, d.point1.y as int, dy);
    let d3 = pack(d2, d.point2.x as int, dx);
    let d4 = pack(d3, d.point2.y as int, dy);
    let d5 = pack(d4, d.time1 as int, times());
    lemma_pack_unique(c5, c.time2 as int, d5, d.time2 as int, times());
    lemma_pack_unique(c4, c.time1 as int, d4, d.time1 as int, times());
    lemma_pack_unique(c3, c.point2.y as int, d3, d.point2.y as int, dy);
    lemma_pack_unique(c2, c.point2.x as int, d2, d.point2.x as int, dx);
    lemma_pack_unique(c1, c.point1.y as int, d1, d.point1.y as int, dy);
    lemma_pack_unique(c.agent as int, c.point1.x as int, d.agent as int, d.point1.x as int, dx);
}

/// A tidy list is no longer than the universe is large.
pub(crate) proof fn lemma_tidy_bounded(cs: Seq<CbsConstraint>, env: GridEnvironment)
    requires
        tidy(cs, env),
    ensures
        cs.len() <= universe(env),
{
    if cs.len() > 0 {
        let codes = Seq::new(cs.len(), |k: int| constraint_code(cs[k], env));
        lemma_code_range(cs[0], env);
        assert(all_below(codes, universe(env))) by {
            assert forall|k: int| 0 <= k < codes.len() implies 0 <= #[trigger] codes[k] < universe(
                env,
            ) by {
                lemma_code_range(cs[k], env);
            }
        }
        assert(codes.no_duplicates()) by {
            assert forall|i: int, j: int|
                0 <= i < codes.len() && 0 <= j < codes.len() && i != j implies codes[i]
                != codes[j] by {
                if codes[i] == codes[j] {
                    lemma_code_unique(cs[i], cs[j], env);
                }
            }
        }
        lemma_distinct_bounded(codes, universe(env));
    } else {
        assert(0 <= universe(env)) by (nonlinear_arith)
            requires
                0 <= env.number_of_agents,
                universe(env) == (((((env.number_of_agents * env.dim_x) * env.dim_y) * env.dim_x)
                    * env.dim_y) * times()) * times(),
                times() > 0,
        ;
    }
}

/// Three to the power `n`.
pub open spec fn pow3(n: nat) -> nat
    decreases n,
{
    if n == 0 {
        1
    } else {
        3 * pow3((n - 1) as nat)
    }
}

/// The weight of a node in the measure of the search: three to the number
/// of bounded constraints that it does not hold yet.
pub open spec fn node_weight(node: CbsHNode, env: GridEnvironment) -> int {
    pow3((universe(env) - node@.constraints.len()) as nat) as int
}

/// The measure of the search: the weights of the open nodes, summed. A node
/// weighs more than its two children together.
pub open spec fn open_weight(open: Seq<CbsHNode>, env: GridEnvironment) -> int
    decreases open.len(),
{
    if open.len() == 0 {
        0
    } else {
        open_weight(open.drop_last(), env) + node_weight(open.last(), env)
    }
}

/// A new open node adds its weight.
pub(crate) proof fn lemma_weight_push(open: Seq<CbsHNode>, node: CbsHNode, env: GridEnvironment)
    ensures
        open_weight(open.push(node), env) == open_weight(open, env) + node_weight(node, env),
{
    assert(open.push(node).drop_last() =~= open);
}

/// A node that leaves the open set takes its weight along.
pub(crate) proof fn lemma_weight_remove(open: Seq<CbsHNode>, at: int, env: GridEnvironment)
    requires
        0 <= at < open.len(),
    ensures
        open_weight(open.remove(at), env) == open_weight(open, env) - node_weight(open[at], env),
        open_weight(open, env) >= 0,
    decreases open.len(),
{
    lemma_weight_positive(open, env);
    if at == open.len() - 1 {
        assert(open.remove(at) =~= open.drop_last());
    } else {
        lemma_weight_remove(open.drop_last(), at, env);
        assert(open.remove(at).drop_last() =~= open.drop_last().remove(at));
        assert(open.remove(at).last() == open.last());
    }
}

/// Weights are never negative.
pub(crate) proof fn lemma_weight_positive(open: Seq<CbsHNode>, env: GridEnvironment)
    ensures
        open_weight(open, env) >= 0,
    decreases open.len(),
{
    if open.len() > 0 {
        lemma_weight_positive(open.drop_last(), env);
    }
}

/// A node with room for one more constraint weighs three times a child.
pub(crate) proof fn lemma_weight_child(node: CbsHNode, child: CbsHNode, env: GridEnvironment)
    requires
        child@.constraints.len() == node@.constraints.len() + 1,
        child@.constraints.len() <= universe(env),
    ensures
        node_weight(node, env) == 3 * node_weight(child, env),
        node_weight(child, env) >= 1,
{
    lemma_pow3_positive((universe(env) - child@.constraints.len()) as nat);
}

/// Powers of three are positive.
pub(crate) proof fn lemma_pow3_positive(n: nat)
    ensures
        pow3(n) >= 1,
    decreases n,
{
    if n > 0 {
        lemma_pow3_positive((n - 1) as nat);
    }
}

} // verus!
