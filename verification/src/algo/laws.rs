//! Laws of the search, stated over the model and proved from the contracts:
//! what every solution looks like, that the optimal cost is unique, and that
//! it does not change when the environment is mirrored.

use vstd::prelude::*;
use crate::algo::cbs::{is_answer, CbsResult, GridEnvironment, GridPoint};
use crate::algo::plan::{
    agent_mission, conflict_free, is_optimal, is_solution, sum_of_costs, swap_clash, table_view,
    vertex_clash, Plan,
};
use crate::algo::route::{in_bounds, is_move, step_at, valid_path};
use crate::algo::tree::lemma_valid_in_bounds;

verus! {

/// Every path of a solution begins at the start of its agent and ends at its
/// goal; each of its cells lies in bounds and off the obstacles; and each
/// step is a wait or leads one cell along one axis.
pub proof fn lemma_solution_paths(env: GridEnvironment, plan: Plan, a: int, i: int)
    requires
        env.valid(),
        is_solution(env, plan),
        0 <= a < env.number_of_agents,
        0 <= i < plan[a].len(),
    ensures
        plan[a][0] == env.start_points@[a],
        plan[a][plan[a].len() - 1] == env.goal_points@[a],
        in_bounds(plan[a][i], env.dim_x as int, env.dim_y as int),
        !env.obstacles@.contains(plan[a][i]),
        i + 1 < plan[a].len() ==> {
            let from = plan[a][i];
            let to = plan[a][i + 1];
            ||| to == from
            ||| (to.y == from.y && (to.x == from.x + 1 || to.x == from.x - 1))
            ||| (to.x == from.x && (to.y == from.y + 1 || to.y == from.y - 1))
        },
{
    let m = agent_mission(env, Seq::empty(), a);
    assert(valid_path(m, plan[a]));
    if i > 0 {
        assert(step_at(m, plan[a], i - 1));
    }
    if i + 1 < plan[a].len() {
        assert(step_at(m, plan[a], i));
    }
}

/// In a solution no two agents are in one cell at one time, and no two
/// exchange their cells in one step; an agent is present for as long as its
/// path lasts.
pub proof fn lemma_solution_apart(env: GridEnvironment, plan: Plan, a: int, b: int, t: int)
    requires
        is_solution(env, plan),
        0 <= a < env.number_of_agents,
        0 <= b < env.number_of_agents,
        a != b,
        0 <= t,
    ensures
        t < plan[a].len() && t < plan[b].len() ==> plan[a][t] != plan[b][t],
        t + 1 < plan[a].len() && t + 1 < plan[b].len() ==> !(plan[a][t] == plan[b][t + 1]
            && plan[b][t] == plan[a][t + 1]),
{
    assert(!vertex_clash(plan, a, b, t));
    assert(!swap_clash(plan, a, b, t));
}

/// Two optimal solutions of one environment cost the same.
pub proof fn lemma_optimal_cost_unique(env: GridEnvironment, first: Plan, second: Plan)
    requires
        is_optimal(env, first),
        is_optimal(env, second),
    ensures
        sum_of_costs(first) == sum_of_costs(second),
{
    assert(is_solution(env, first));
    assert(is_solution(env, second));
}

/// Two searches over one environment agree: both find a plan or neither
/// does, and two plans found have the same sum of costs.
pub proof fn lemma_answers_agree(
    env: GridEnvironment,
    first: Option<CbsResult>,
    second: Option<CbsResult>,
)
    requires
        is_answer(env, first),
        is_answer(env, second),
    ensures
        first is Some <==> second is Some,
        first is Some ==> first->0.cost_sum == second->0.cost_sum,
{
    if first is Some {
        assert(is_solution(env, table_view(first->0.path_table@)));
    }
    if second is Some {
        assert(is_solution(env, table_view(second->0.path_table@)));
    }
    if first is Some && second is Some {
        lemma_optimal_cost_unique(
            env,
            table_view(first->0.path_table@),
            table_view(second->0.path_table@),
        );
    }
}

/// A reflection of a grid of the given extents: left to right, bottom to
/// top, or both.
pub struct Mirror {
    pub dim_x: int,
    pub dim_y: int,
    pub left_right: bool,
    pub bottom_top: bool,
}

/// The mirror image of a cell.
pub open spec fn flip(p: GridPoint, by: Mirror) -> GridPoint {
    GridPoint {
        x: if by.left_right {
            (by.dim_x - 1 - p.x) as isize
        } else {
            p.x
        },
        y: if by.bottom_top {
            (by.dim_y - 1 - p.y) as isize
        } else {
            p.y
        },
    }
}

/// The mirror image of a path, cell by cell.
pub open spec fn flip_path(path: Seq<GridPoint>, by: Mirror) -> Seq<GridPoint> {
    Seq::new(path.len(), |i: int| flip(path[i], by))
}

/// The mirror image of a plan, path by path.
pub open spec fn flip_plan(plan: Plan, by: Mirror) -> Plan {
    Seq::new(plan.len(), |a: int| flip_path(plan[a], by))
}

/// `other` is `env` seen in the mirror `by`: the same agents on a grid of
/// the same extents, with the mirror images of the starts, the goals and the
/// obstacles. Where the mirror image of each start is the goal of its agent,
/// this swaps the starts with the goals.
pub open spec fn mirrored(env: GridEnvironment, other: GridEnvironment, by: Mirror) -> bool {
    &&& by.dim_x == env.dim_x
    &&& by.dim_y == env.dim_y
    &&& other.number_of_agents == env.number_of_agents
    &&& other.dim_x == env.dim_x
    &&& other.dim_y == env.dim_y
    &&& other.start_points@ == flip_path(env.start_points@, by)
    &&& other.goal_points@ == flip_path(env.goal_points@, by)
    &&& forall|p: GridPoint|
        in_bounds(p, by.dim_x, by.dim_y) ==> (other.obstacles@.contains(flip(p, by))
            <==> #[trigger] env.obstacles@.contains(p))
}

/// The mirror image of a cell of the grid is a cell of the grid, and its
/// own mirror image is the cell.
proof fn lemma_flip_twice(p: GridPoint, by: Mirror)
    requires
        in_bounds(p, by.dim_x, by.dim_y),
        by.dim_x <= isize::MAX,
        by.dim_y <= isize::MAX,
    ensures
        in_bounds(flip(p, by), by.dim_x, by.dim_y),
        flip(flip(p, by), by) == p,
{
}

/// The mirror image of a valid environment is valid, and `env` is in turn
/// its mirror image.
proof fn lemma_mirror_back(env: GridEnvironment, other: GridEnvironment, by: Mirror)
    requires
        env.valid(),
        mirrored(env, other, by),
    ensures
        other.valid(),
        mirrored(other, env, by),
{
    let dx = by.dim_x;
    let dy = by.dim_y;
    assert forall|a: int| 0 <= a < other.number_of_agents implies in_bounds(
        #[trigger] other.start_points@[a],
        dx,
        dy,
    ) && !other.obstacles@.contains(other.start_points@[a]) by {
        let p = env.start_points@[a];
        lemma_flip_twice(p, by);
        assert(!env.obstacles@.contains(p));
    }
    assert forall|a: int| 0 <= a < other.number_of_agents implies in_bounds(
        #[trigger] other.goal_points@[a],
        dx,
        dy,
    ) && !other.obstacles@.contains(other.goal_points@[a]) by {
        let p = env.goal_points@[a];
        lemma_flip_twice(p, by);
        assert(!env.obstacles@.contains(p));
    }
    assert(env.start_points@ =~= flip_path(other.start_points@, by)) by {
        assert forall|a: int| 0 <= a < env.start_points@.len() implies env.start_points@[a]
            == flip_path(other.start_points@, by)[a] by {
            lemma_flip_twice(env.start_points@[a], by);
        }
    }
    assert(env.goal_points@ =~= flip_path(other.goal_points@, by)) by {
        assert forall|a: int| 0 <= a < env.goal_points@.len() implies env.goal_points@[a]
            == flip_path(other.goal_points@, by)[a] by {
            lemma_flip_twice(env.goal_points@[a], by);
        }
    }
    assert forall|p: GridPoint| in_bounds(p, dx, dy) implies (env.obstacles@.contains(flip(p, by))
        <==> #[trigger] other.obstacles@.contains(p)) by {
        lemma_flip_twice(p, by);
        let q = flip(p, by);
        assert(other.obstacles@.contains(flip(q, by)) <==> env.obstacles@.contains(q));
    }
}

/// The mirror image of a valid unconstrained path is one in the mirrored
/// environment.
proof fn lemma_flip_valid(
    env: GridEnvironment,
    other: GridEnvironment,
    by: Mirror,
    a: int,
    path: Seq<GridPoint>,
)
    requires
        env.valid(),
        mirrored(env, other, by),
        0 <= a < env.number_of_agents,
        valid_path(agent_mission(env, Seq::empty(), a), path),
    ensures
        valid_path(agent_mission(other, Seq::empty(), a), flip_path(path, by)),
{
    let m = agent_mission(env, Seq::empty(), a);
    let mm = agent_mission(other, Seq::empty(), a);
    let image = flip_path(path, by);
    assert forall|i: int| 0 <= i < image.len() - 1 implies #[trigger] step_at(mm, image, i) by {
        assert(step_at(m, path, i));
        lemma_valid_in_bounds(m, path, i);
        lemma_valid_in_bounds(m, path, i + 1);
        lemma_flip_twice(path[i], by);
        lemma_flip_twice(path[i + 1], by);
        assert(is_move(image[i], image[i + 1]));
        assert(!env.obstacles@.contains(path[i + 1]));
    }
}

/// The mirror image of a conflict-free plan in bounds is conflict-free.
proof fn lemma_flip_apart(plan: Plan, by: Mirror)
    requires
        conflict_free(plan),
        by.dim_x <= isize::MAX,
        by.dim_y <= isize::MAX,
        forall|a: int, i: int|
            0 <= a < plan.len() && 0 <= i < plan[a].len() ==> in_bounds(
                #[trigger] plan[a][i],
                by.dim_x,
                by.dim_y,
            ),
    ensures
        conflict_free(flip_plan(plan, by)),
{
    let image = flip_plan(plan, by);
    assert forall|a: int, b: int, t: int|
        0 <= a < image.len() && 0 <= b < image.len() && a != b && 0 <= t implies !#[trigger]
    vertex_clash(image, a, b, t) by {
        if t < plan[a].len() && t < plan[b].len() {
            assert(!vertex_clash(plan, a, b, t));
            lemma_flip_twice(plan[a][t], by);
            lemma_flip_twice(plan[b][t], by);
        }
    }
    assert forall|a: int, b: int, t: int|
        0 <= a < image.len() && 0 <= b < image.len() && a != b && 0 <= t implies !#[trigger]
    swap_clash(image, a, b, t) by {
        if t + 1 < plan[a].len() && t + 1 < plan[b].len() {
            assert(!swap_clash(plan, a, b, t));
            lemma_flip_twice(plan[a][t], by);
            lemma_flip_twice(plan[b][t], by);
            lemma_flip_twice(plan[a][t + 1], by);
            lemma_flip_twice(plan[b][t + 1], by);
        }
    }
}

/// A plan and its mirror image cost the same.
proof fn lemma_flip_cost(plan: Plan, by: Mirror)
    ensures
        sum_of_costs(flip_plan(plan, by)) == sum_of_costs(plan),
    decreases plan.len(),
{
    if plan.len() > 0 {
        lemma_flip_cost(plan.drop_last(), by);
        assert(flip_plan(plan, by).drop_last() =~= flip_plan(plan.drop_last(), by));
    }
}

/// The mirror image of a solution solves the mirrored environment, at the
/// same cost.
pub proof fn lemma_mirror_solution(
    env: GridEnvironment,
    other: GridEnvironment,
    by: Mirror,
    plan: Plan,
)
    requires
        env.valid(),
        mirrored(env, other, by),
        is_solution(env, plan),
    ensures
        is_solution(other, flip_plan(plan, by)),
        sum_of_costs(flip_plan(plan, by)) == sum_of_costs(plan),
{
    let image = flip_plan(plan, by);
    assert forall|a: int| 0 <= a < image.len() implies valid_path(
        agent_mission(other, Seq::empty(), a),
        #[trigger] image[a],
    ) by {
        assert(valid_path(agent_mission(env, Seq::empty(), a), plan[a]));
        lemma_flip_valid(env, other, by, a, plan[a]);
    }
    assert forall|a: int, i: int| 0 <= a < plan.len() && 0 <= i < plan[a].len() implies in_bounds(
        #[trigger] plan[a][i],
        by.dim_x,
        by.dim_y,
    ) by {
        assert(valid_path(agent_mission(env, Seq::empty(), a), plan[a]));
        lemma_valid_in_bounds(agent_mission(env, Seq::empty(), a), plan[a], i);
    }
    lemma_flip_apart(plan, by);
    lemma_flip_cost(plan, by);
}

/// Reflecting the environment changes neither whether a search finds a
/// plan nor the sum of costs of the plan it finds.
pub proof fn lemma_mirror_answers(
    env: GridEnvironment,
    other: GridEnvironment,
    by: Mirror,
    plain: Option<CbsResult>,
    image: Option<CbsResult>,
)
    requires
        env.valid(),
        mirrored(env, other, by),
        is_answer(env, plain),
        is_answer(other, image),
    ensures
        plain is Some <==> image is Some,
        plain is Some ==> plain->0.cost_sum == image->0.cost_sum,
{
    lemma_mirror_back(env, other, by);
    if plain is Some {
        let p = table_view(plain->0.path_table@);
        assert(is_solution(env, p));
        lemma_mirror_solution(env, other, by, p);
        assert(is_solution(other, flip_plan(p, by)));
    }
    if image is Some {
        let q = table_view(image->0.path_table@);
        assert(is_solution(other, q));
        lemma_mirror_solution(other, env, by, q);
        assert(is_solution(env, flip_plan(q, by)));
    }
}

/// `other` is `env` with the start and the goal of each agent swapped.
pub open spec fn turned(env: GridEnvironment, other: GridEnvironment) -> bool {
    &&& other.number_of_agents == env.number_of_agents
    &&& other.dim_x == env.dim_x
    &&& other.dim_y == env.dim_y
    &&& other.start_points@ == env.goal_points@
    &&& other.goal_points@ == env.start_points@
    &&& forall|p: GridPoint| other.obstacles@.contains(p) <==> #[trigger] env.obstacles@.contains(p)
}

/// The plan with each path walked backwards.
pub open spec fn reverse_plan(plan: Plan) -> Plan {
    Seq::new(plan.len(), |a: int| plan[a].reverse())
}

/// A plan and the plan walked backwards cost the same.
proof fn lemma_reverse_cost(plan: Plan)
    ensures
        sum_of_costs(reverse_plan(plan)) == sum_of_costs(plan),
    decreases plan.len(),
{
    if plan.len() > 0 {
        lemma_reverse_cost(plan.drop_last());
        assert(reverse_plan(plan).drop_last() =~= reverse_plan(plan.drop_last()));
    }
}

/// A solution whose paths are all of one length, walked backwards, solves
/// the environment with starts and goals swapped, at the same cost.
pub proof fn lemma_turned_solution(env: GridEnvironment, other: GridEnvironment, plan: Plan)
    requires
        env.valid(),
        turned(env, other),
        is_solution(env, plan),
        forall|a: int| 0 <= a < plan.len() ==> (#[trigger] plan[a]).len() == plan[0].len(),
    ensures
        is_solution(other, reverse_plan(plan)),
        sum_of_costs(reverse_plan(plan)) == sum_of_costs(plan),
{
    let image = reverse_plan(plan);
    let len = plan[0].len() as int;
    assert forall|a: int| 0 <= a < image.len() implies valid_path(
        agent_mission(other, Seq::empty(), a),
        #[trigger] image[a],
    ) by {
        let m = agent_mission(env, Seq::empty(), a);
        let mm = agent_mission(other, Seq::empty(), a);
        let path = plan[a];
        let back = image[a];
        assert(valid_path(m, path));
        assert forall|i: int| 0 <= i < back.len() - 1 implies #[trigger] step_at(mm, back, i) by {
            let k = path.len() - 2 - i;
            assert(step_at(m, path, k));
            assert(back[i] == path[k + 1]);
            assert(back[i + 1] == path[k]);
            lemma_valid_in_bounds(m, path, k);
            if k > 0 {
                assert(step_at(m, path, k - 1));
            }
            assert(!env.obstacles@.contains(path[k]));
        }
    }
    assert forall|a: int, b: int, t: int|
        0 <= a < image.len() && 0 <= b < image.len() && a != b && 0 <= t implies !#[trigger]
    vertex_clash(image, a, b, t) by {
        assert(plan[a].len() == len && plan[b].len() == len);
        if t < len {
            assert(!vertex_clash(plan, a, b, len - 1 - t));
        }
    }
    assert forall|a: int, b: int, t: int|
        0 <= a < image.len() && 0 <= b < image.len() && a != b && 0 <= t implies !#[trigger]
    swap_clash(image, a, b, t) by {
        assert(plan[a].len() == len && plan[b].len() == len);
        if t + 1 < len {
            assert(!swap_clash(plan, a, b, len - 2 - t));
        }
    }
    lemma_reverse_cost(plan);
}

/// For one agent, swapping start and goal changes neither whether a search
/// finds a plan nor the cost of the plan it finds.
pub proof fn lemma_turned_answers(
    env: GridEnvironment,
    other: GridEnvironment,
    there: Option<CbsResult>,
    back: Option<CbsResult>,
)
    requires
        env.valid(),
        env.number_of_agents == 1,
        turned(env, other),
        is_answer(env, there),
        is_answer(other, back),
    ensures
        there is Some <==> back is Some,
        there is Some ==> there->0.cost_sum == back->0.cost_sum,
{
    assert(other.valid());
    assert(turned(other, env));
    if there is Some {
        let p = table_view(there->0.path_table@);
        assert(is_solution(env, p));
        lemma_turned_solution(env, other, p);
    }
    if back is Some {
        let q = table_view(back->0.path_table@);
        assert(is_solution(other, q));
        lemma_turned_solution(other, env, q);
    }
}

} // verus!
