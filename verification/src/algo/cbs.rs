//! Conflict-based search: the high-level planner.

use vstd::prelude::*;
use crate::algo::astar::{grid_search, shortest_path, AstarConstraint};
use crate::algo::plan::{
    admits, agent_mission, as_time, beyond_reach, calm_before, conflict_free, first_conflict,
    for_agent, is_optimal, is_solution, left_of, lemma_calm_is_free, lemma_cost_sum_covers,
    lemma_cost_sum_dominated, lemma_cost_sum_push, lemma_makespan_bounds, makespan,
    no_vertex_clash_at, pair_before, right_of, sum_of_costs, swap_clash, table_view, unsolvable,
    vertex_clash, with_constraint, Plan,
};
use crate::algo::route::{in_bounds, valid_path};
use crate::algo::tree::{
    bounded, covered_by, covering, lemma_conflict_breaks, lemma_cover_drop, lemma_cover_push,
    lemma_cover_split, lemma_cover_take, lemma_tidy_bounded, lemma_valid_in_bounds,
    lemma_valid_keeps, lemma_valid_unconstrained, lemma_weight_child, lemma_weight_positive,
    lemma_weight_push, lemma_weight_remove, node_weight, open_weight, splittable, tidy,
};

verus! {

/// A cell of the grid, by its integer coordinates.
#[derive(Clone, Copy, PartialEq, Eq, Structural, Debug, Hash)]
pub struct GridPoint {
    pub x: isize,
    pub y: isize,
}

/// Two agents in each other's way. With `time1 == time2` both are at
/// `point1` at that time; otherwise `agent1` steps from `point1` to `point2`
/// between the two times while `agent2` steps the other way.
#[derive(Clone, Copy, Debug)]
pub struct CbsConflict {
    pub agent1: usize,
    pub agent2: usize,
    pub point1: GridPoint,
    pub point2: GridPoint,
    pub time1: usize,
    pub time2: usize,
}

/// A prohibition bound to one agent, of the same two kinds as a conflict.
#[derive(Clone, Copy, PartialEq, Eq, Structural, Debug)]
pub struct CbsConstraint {
    pub agent: usize,
    pub point1: GridPoint,
    pub point2: GridPoint,
    pub time1: usize,
    pub time2: usize,
}

/// The input of the search: the agents with their starts and goals, the
/// extents of the grid and its obstacles.
#[derive(Clone, Debug)]
pub struct GridEnvironment {
    pub number_of_agents: usize,
    pub start_points: Vec<GridPoint>,
    pub goal_points: Vec<GridPoint>,
    pub dim_x: isize,
    pub dim_y: isize,
    pub obstacles: Vec<GridPoint>,
}

/// Why a set of fields does not make an environment.
#[derive(Clone, Copy, PartialEq, Eq, Structural, Debug)]
pub enum EnvironmentError {
    /// There is no agent.
    NoAgents,
    /// The starts or the goals are not one per agent.
    LengthMismatch,
    /// A start or a goal lies outside the grid.
    OutOfBounds,
    /// A start or a goal lies on an obstacle.
    OnObstacle,
}

/// One path per agent.
pub type PathTable = Vec<Vec<GridPoint>>;

/// A node of the high-level search tree: a set of constraints and the paths
/// planned under them.
#[derive(Clone, Debug)]
pub struct CbsHNode {
    pub cost: Vec<isize>,
    pub cost_sum: isize,
    /// The constraints of all agents; none occurs twice.
    pub constraints: Vec<CbsConstraint>,
    pub path_table: PathTable,
}

/// What a high-level node holds, as mathematical values.
pub struct NodeView {
    pub cost: Seq<isize>,
    pub cost_sum: isize,
    pub constraints: Seq<CbsConstraint>,
    pub paths: Plan,
}

impl View for CbsHNode {
    type V = NodeView;

    open spec fn view(&self) -> NodeView {
        NodeView {
            cost: self.cost@,
            cost_sum: self.cost_sum,
            constraints: self.constraints@,
            paths: table_view(self.path_table@),
        }
    }
}

impl NodeView {
    /// The node holds, for each agent of `env`, a shortest path under the
    /// node's constraints, with its cost, and the sum of the costs.
    pub open spec fn planned(self, env: GridEnvironment) -> bool {
        &&& self.paths.len() == env.number_of_agents
        &&& self.cost.len() == env.number_of_agents
        &&& forall|a: int|
            0 <= a < self.paths.len() ==> shortest_path(
                agent_mission(env, self.constraints, a),
                #[trigger] self.paths[a],
            )
        &&& forall|a: int|
            0 <= a < self.cost.len() ==> #[trigger] self.cost[a] == self.paths[a].len() - 1
        &&& self.cost_sum == sum_of_costs(self.paths)
    }
}

/// The plan found, with the counters of the search.
#[derive(Debug)]
pub struct CbsResult {
    pub path_table: PathTable,
    pub conflict_cnt: usize,
    pub high_level_node_cnt: usize,
    pub low_level_node_cnt: usize,
    pub makespan: usize,
    pub cost_sum: isize,
}

/// Some point of the sequence lies outside the grid.
pub open spec fn any_outside(points: Seq<GridPoint>, dim_x: int, dim_y: int) -> bool {
    exists|a: int| 0 <= a < points.len() && !in_bounds(#[trigger] points[a], dim_x, dim_y)
}

/// Some point of the sequence is one of the obstacles.
pub open spec fn any_blocked(points: Seq<GridPoint>, obstacles: Seq<GridPoint>) -> bool {
    exists|a: int| 0 <= a < points.len() && obstacles.contains(#[trigger] points[a])
}

/// Whether some point lies outside the grid.
fn find_outside(points: &Vec<GridPoint>, dim_x: isize, dim_y: isize) -> (r: bool)
    ensures
        r == any_outside(points@, dim_x as int, dim_y as int),
{
    let mut a: usize = 0;
    while a < points.len()
        invariant
            a <= points.len(),
            forall|k: int|
                0 <= k < a ==> in_bounds(#[trigger] points@[k], dim_x as int, dim_y as int),
        decreases points.len() - a,
    {
        let p = points[a];
        if p.x < 0 || p.y < 0 || p.x >= dim_x || p.y >= dim_y {
            return true;
        }
        a += 1;
    }
    false
}

/// Whether some point is one of the obstacles.
fn find_blocked(points: &Vec<GridPoint>, obstacles: &Vec<GridPoint>) -> (r: bool)
    ensures
        r == any_blocked(points@, obstacles@),
{
    let mut a: usize = 0;
    while a < points.len()
        invariant
            a <= points.len(),
            forall|k: int| 0 <= k < a ==> !obstacles@.contains(#[trigger] points@[k]),
        decreases points.len() - a,
    {
        let p = points[a];
        let mut o: usize = 0;
        while o < obstacles.len()
            invariant
                o <= obstacles.len(),
                a < points.len(),
                p == points@[a as int],
                forall|k: int| 0 <= k < o ==> obstacles@[k] != p,
            decreases obstacles.len() - o,
        {
            if obstacles[o] == p {
                return true;
            }
            o += 1;
        }
        a += 1;
    }
    false
}

impl GridEnvironment {
    /// What is wrong with the environment, if anything: the first of no
    /// agents, starts or goals not one per agent, a start or goal out of
    /// bounds, a start or goal on an obstacle.
    pub open spec fn defect(self) -> Option<EnvironmentError> {
        if self.number_of_agents == 0 {
            Some(EnvironmentError::NoAgents)
        } else if self.start_points.len() != self.number_of_agents || self.goal_points.len()
            != self.number_of_agents {
            Some(EnvironmentError::LengthMismatch)
        } else if any_outside(self.start_points@, self.dim_x as int, self.dim_y as int)
            || any_outside(self.goal_points@, self.dim_x as int, self.dim_y as int) {
            Some(EnvironmentError::OutOfBounds)
        } else if any_blocked(self.start_points@, self.obstacles@) || any_blocked(
            self.goal_points@,
            self.obstacles@,
        ) {
            Some(EnvironmentError::OnObstacle)
        } else {
            None
        }
    }

    /// An environment without a defect is valid, and only such a one.
    pub proof fn lemma_defect_free(self)
        ensures
            self.valid() <==> self.defect() is None,
    {
        if self.defect() is None {
            assert forall|a: int| 0 <= a < self.number_of_agents implies in_bounds(
                #[trigger] self.start_points@[a],
                self.dim_x as int,
                self.dim_y as int,
            ) && !self.obstacles@.contains(self.start_points@[a]) by {}
            assert forall|a: int| 0 <= a < self.number_of_agents implies in_bounds(
                #[trigger] self.goal_points@[a],
                self.dim_x as int,
                self.dim_y as int,
            ) && !self.obstacles@.contains(self.goal_points@[a]) by {}
        }
    }

    /// Checks the environment: `Ok` exactly when it is valid, else its
    /// first defect.
    pub fn validate(&self) -> (r: Result<(), EnvironmentError>)
        ensures
            r is Ok <==> self.valid(),
            match r {
                Ok(_) => self.defect() is None,
                Err(e) => self.defect() == Some(e),
            },
    {
        proof {
            self.lemma_defect_free();
        }
        if self.number_of_agents == 0 {
            return Err(EnvironmentError::NoAgents);
        }
        if self.start_points.len() != self.number_of_agents || self.goal_points.len()
            != self.number_of_agents {
            return Err(EnvironmentError::LengthMismatch);
        }
        if find_outside(&self.start_points, self.dim_x, self.dim_y) || find_outside(
            &self.goal_points,
            self.dim_x,
            self.dim_y,
        ) {
            return Err(EnvironmentError::OutOfBounds);
        }
        if find_blocked(&self.start_points, &self.obstacles) || find_blocked(
            &self.goal_points,
            &self.obstacles,
        ) {
            return Err(EnvironmentError::OnObstacle);
        }
        Ok(())
    }

    /// Builds an environment from its fields, or says why they make none.
    pub fn new(
        number_of_agents: usize,
        start_points: Vec<GridPoint>,
        goal_points: Vec<GridPoint>,
        dim_x: isize,
        dim_y: isize,
        obstacles: Vec<GridPoint>,
    ) -> (r: Result<GridEnvironment, EnvironmentError>)
        ensures
            match r {
                Ok(env) => {
                    &&& env.valid()
                    &&& env == (GridEnvironment {
                        number_of_agents,
                        start_points,
                        goal_points,
                        dim_x,
                        dim_y,
                        obstacles,
                    })
                },
                Err(e) => (GridEnvironment {
                    number_of_agents,
                    start_points,
                    goal_points,
                    dim_x,
                    dim_y,
                    obstacles,
                }).defect() == Some(e),
            },
    {
        let env = GridEnvironment {
            number_of_agents,
            start_points,
            goal_points,
            dim_x,
            dim_y,
            obstacles,
        };
        match env.validate() {
            Ok(_) => Ok(env),
            Err(e) => Err(e),
        }
    }

    /// There is an agent; each agent has a start and a goal, in bounds and
    /// off the obstacles.
    pub open spec fn valid(self) -> bool {
        &&& self.number_of_agents >= 1
        &&& self.start_points.len() == self.number_of_agents
        &&& self.goal_points.len() == self.number_of_agents
        &&& forall|a: int|
            0 <= a < self.number_of_agents ==> {
                &&& in_bounds(
                    #[trigger] self.start_points@[a],
                    self.dim_x as int,
                    self.dim_y as int,
                )
                &&& !self.obstacles@.contains(self.start_points@[a])
            }
        &&& forall|a: int|
            0 <= a < self.number_of_agents ==> {
                &&& in_bounds(
                    #[trigger] self.goal_points@[a],
                    self.dim_x as int,
                    self.dim_y as int,
                )
                &&& !self.obstacles@.contains(self.goal_points@[a])
            }
    }
}

/// Agent `a` has a valid path in `plan` under the constraints `cs`.
pub open spec fn valid_plan_path(
    env: GridEnvironment,
    cs: Seq<CbsConstraint>,
    plan: Plan,
    a: int,
) -> bool {
    valid_path(agent_mission(env, cs, a), plan[a])
}

/// A copy of a path.
fn copy_path(path: &Vec<GridPoint>) -> (r: Vec<GridPoint>)
    ensures
        r@ == path@,
{
    let mut r: Vec<GridPoint> = Vec::new();
    let mut i: usize = 0;
    while i < path.len()
        invariant
            i <= path.len(),
            r@ == path@.take(i as int),
        decreases path.len() - i,
    {
        r.push(path[i]);
        proof {
            assert(path@.take(i + 1) =~= path@.take(i as int).push(path@[i as int]));
        }
        i += 1;
    }
    proof {
        assert(path@.take(path.len() as int) =~= path@);
    }
    r
}

/// A copy of a path table.
fn copy_table(table: &PathTable) -> (r: PathTable)
    ensures
        table_view(r@) == table_view(table@),
{
    let mut r: PathTable = Vec::new();
    let mut i: usize = 0;
    while i < table.len()
        invariant
            i <= table.len(),
            r.len() == i,
            forall|k: int| 0 <= k < i ==> (#[trigger] r@[k])@ == table@[k]@,
        decreases table.len() - i,
    {
        r.push(copy_path(&table[i]));
        i += 1;
    }
    proof {
        assert(table_view(r@) =~= table_view(table@));
    }
    r
}

/// A copy of a list of costs.
fn copy_costs(cost: &Vec<isize>) -> (r: Vec<isize>)
    ensures
        r@ == cost@,
{
    let mut r: Vec<isize> = Vec::new();
    let mut i: usize = 0;
    while i < cost.len()
        invariant
            i <= cost.len(),
            r@ == cost@.take(i as int),
        decreases cost.len() - i,
    {
        r.push(cost[i]);
        proof {
            assert(cost@.take(i + 1) =~= cost@.take(i as int).push(cost@[i as int]));
        }
        i += 1;
    }
    proof {
        assert(cost@.take(cost.len() as int) =~= cost@);
    }
    r
}

/// A copy of a constraint list.
fn copy_constraints(cs: &Vec<CbsConstraint>) -> (r: Vec<CbsConstraint>)
    ensures
        r@ == cs@,
{
    let mut r: Vec<CbsConstraint> = Vec::new();
    let mut i: usize = 0;
    while i < cs.len()
        invariant
            i <= cs.len(),
            r@ == cs@.take(i as int),
        decreases cs.len() - i,
    {
        r.push(cs[i]);
        proof {
            assert(cs@.take(i + 1) =~= cs@.take(i as int).push(cs@[i as int]));
        }
        i += 1;
    }
    proof {
        assert(cs@.take(cs.len() as int) =~= cs@);
    }
    r
}

/// The length of the longest path of a table.
pub fn longest_path(table: &PathTable) -> (r: usize)
    ensures
        r == makespan(table_view(table@)),
{
    let mut max_len: usize = 0;
    let mut i: usize = 0;
    while i < table.len()
        invariant
            i <= table.len(),
            max_len == makespan(table_view(table@).take(i as int)),
        decreases table.len() - i,
    {
        proof {
            assert(table_view(table@).take(i + 1).drop_last() =~= table_view(table@).take(
                i as int,
            ));
        }
        if table[i].len() > max_len {
            max_len = table[i].len();
        }
        i += 1;
    }
    proof {
        assert(table_view(table@).take(table.len() as int) =~= table_view(table@));
    }
    max_len
}

/// The first pair of agents, in the order of the scan, that share a cell at
/// time `t`.
fn vertex_clash_at(table: &PathTable, t: usize) -> (r: Option<(usize, usize)>)
    ensures
        match r {
            Some((a, b)) => {
                &&& a < b < table.len()
                &&& vertex_clash(table_view(table@), a as int, b as int, t as int)
                &&& forall|a0: int, b0: int|
                    0 <= a0 < b0 < table.len() && pair_before(a0, b0, a as int, b as int)
                        ==> !#[trigger] vertex_clash(table_view(table@), a0, b0, t as int)
            },
            None => no_vertex_clash_at(table_view(table@), t as int),
        },
{
    let ghost plan = table_view(table@);
    let n = table.len();
    let mut a: usize = 0;
    while a < n
        invariant
            a <= n,
            n == table.len(),
            plan == table_view(table@),
            forall|a0: int, b0: int|
                0 <= a0 < a && a0 < b0 < n ==> !#[trigger] vertex_clash(plan, a0, b0, t as int),
        decreases n - a,
    {
        if table[a].len() > t {
            let mut b: usize = a + 1;
            while b < n
                invariant
                    a < b <= n,
                    n == table.len(),
                    plan == table_view(table@),
                    table@[a as int].len() > t,
                    forall|a0: int, b0: int|
                        0 <= a0 < a && a0 < b0 < n ==> !#[trigger] vertex_clash(
                            plan,
                            a0,
                            b0,
                            t as int,
                        ),
                    forall|b0: int|
                        a < b0 < b ==> !#[trigger] vertex_clash(plan, a as int, b0, t as int),
                decreases n - b,
            {
                if table[b].len() > t && table[b][t] == table[a][t] {
                    return Some((a, b));
                }
                b += 1;
            }
        }
        a += 1;
    }
    None
}

/// The first pair of agents, in the order of the scan, that exchange their
/// cells between times `t` and `t + 1`.
fn swap_clash_at(table: &PathTable, t: usize) -> (r: Option<(usize, usize)>)
    requires
        t < usize::MAX,
    ensures
        match r {
            Some((a, b)) => {
                &&& a < b < table.len()
                &&& swap_clash(table_view(table@), a as int, b as int, t as int)
                &&& forall|a0: int, b0: int|
                    0 <= a0 < b0 < table.len() && pair_before(a0, b0, a as int, b as int)
                        ==> !#[trigger] swap_clash(table_view(table@), a0, b0, t as int)
            },
            None => forall|a0: int, b0: int|
                0 <= a0 < b0 < table.len() ==> !#[trigger] swap_clash(
                    table_view(table@),
                    a0,
                    b0,
                    t as int,
                ),
        },
{
    let ghost plan = table_view(table@);
    let n = table.len();
    let mut a: usize = 0;
    while a < n
        invariant
            a <= n,
            n == table.len(),
            t < usize::MAX,
            plan == table_view(table@),
            forall|a0: int, b0: int|
                0 <= a0 < a && a0 < b0 < n ==> !#[trigger] swap_clash(plan, a0, b0, t as int),
        decreases n - a,
    {
        if table[a].len() > t + 1 {
            let mut b: usize = a + 1;
            while b < n
                invariant
                    a < b <= n,
                    n == table.len(),
                    t < usize::MAX,
                    plan == table_view(table@),
                    table@[a as int].len() > t + 1,
                    forall|a0: int, b0: int|
                        0 <= a0 < a && a0 < b0 < n ==> !#[trigger] swap_clash(
                            plan,
                            a0,
                            b0,
                            t as int,
                        ),
                    forall|b0: int|
                        a < b0 < b ==> !#[trigger] swap_clash(plan, a as int, b0, t as int),
                decreases n - b,
            {
                if table[b].len() > t + 1 && table[a][t] == table[b][t + 1] && table[b][t]
                    == table[a][t + 1] {
                    return Some((a, b));
                }
                b += 1;
            }
        }
        a += 1;
    }
    None
}

/// A time as the low-level planner counts it.
fn to_time(t: usize) -> (r: isize)
    ensures
        r == as_time(t),
{
    if t <= isize::MAX as usize {
        t as isize
    } else {
        -1
    }
}

/// The prohibitions that a constraint list puts on one agent.
fn constraints_of(cs: &Vec<CbsConstraint>, agent: usize) -> (r: Vec<AstarConstraint>)
    ensures
        r@ == for_agent(cs@, agent as int),
{
    let mut r: Vec<AstarConstraint> = Vec::new();
    let mut k: usize = 0;
    while k < cs.len()
        invariant
            k <= cs.len(),
            r@ == for_agent(cs@.take(k as int), agent as int),
        decreases cs.len() - k,
    {
        proof {
            assert(cs@.take(k + 1).drop_last() =~= cs@.take(k as int));
        }
        let c = &cs[k];
        if c.agent == agent {
            r.push(
                AstarConstraint {
                    point1: c.point1,
                    point2: c.point2,
                    time1: to_time(c.time1),
                    time2: to_time(c.time2),
                },
            );
        }
        k += 1;
    }
    proof {
        assert(cs@.take(cs.len() as int) =~= cs@);
    }
    r
}

impl CbsHNode {
    /// Plans every agent of `env` anew under the node's constraints and, if
    /// each has a path and the sum of their costs fits an `isize`, stores the
    /// paths, the costs and their sum; the result is then the number of
    /// low-level nodes generated, held at the largest `usize`. Otherwise the
    /// node is left as it was.
    pub fn calc_path_table(&mut self, env: &GridEnvironment) -> (r: Option<usize>)
        requires
            env.valid(),
        ensures
            final(self)@.constraints == old(self)@.constraints,
            match r {
                Some(cnt) => final(self)@.planned(*env) && final(self).cost_sum <= cnt,
                None => final(self)@ == old(self)@ && beyond_reach(*env, old(self)@.constraints),
            },
    {
        let mut path_table: PathTable = Vec::new();
        let mut cost: Vec<isize> = Vec::new();
        let mut cost_sum: isize = 0;
        let mut low_level_node_cnt: usize = 0;
        let ghost cs = self.constraints@;
        let mut i: usize = 0;
        while i < env.number_of_agents
            invariant
                env.valid(),
                i <= env.number_of_agents,
                *self == *old(self),
                cs == self.constraints@,
                path_table.len() == i,
                cost.len() == i,
                forall|a: int|
                    0 <= a < i ==> shortest_path(
                        agent_mission(*env, cs, a),
                        #[trigger] table_view(path_table@)[a],
                    ),
                forall|a: int|
                    0 <= a < i ==> #[trigger] cost@[a] == table_view(path_table@)[a].len() - 1,
                cost_sum == sum_of_costs(table_view(path_table@)),
                cost_sum <= low_level_node_cnt,
            decreases env.number_of_agents - i,
        {
            let constraints = constraints_of(&self.constraints, i);
            let ghost built = table_view(path_table@);
            match grid_search(
                &env.start_points[i],
                &env.goal_points[i],
                env.obstacles.as_slice(),
                constraints.as_slice(),
                env.dim_x,
                env.dim_y,
            ) {
                None => {
                    proof {
                        assert forall|plan: Plan| #[trigger]
                            admits(*env, cs, plan) implies sum_of_costs(plan) > isize::MAX by {
                            assert(valid_plan_path(*env, cs, plan, i as int));
                            assert forall|b: int| 0 <= b < plan.len() implies (
                            #[trigger] plan[b]).len() >= 1 by {
                                assert(valid_plan_path(*env, cs, plan, b));
                            }
                            lemma_cost_sum_covers(plan, i as int);
                        }
                    }
                    return None;
                },
                Some(astar_result) => {
                    match cost_sum.checked_add(astar_result.cost) {
                        None => {
                            proof {
                                let longer = built.push(astar_result.path@);
                                lemma_cost_sum_push(built, astar_result.path@);
                                assert forall|plan: Plan| #[trigger]
                                    admits(*env, cs, plan) implies sum_of_costs(plan)
                                    > isize::MAX by {
                                    assert forall|b: int| 0 <= b < plan.len() implies (
                                    #[trigger] plan[b]).len() >= 1 by {
                                        assert(valid_plan_path(*env, cs, plan, b));
                                    }
                                    assert forall|a: int| 0 <= a < longer.len() implies (
                                    #[trigger] longer[a]).len() <= plan[a].len() by {
                                        assert(valid_plan_path(*env, cs, plan, a));
                                        if a < i {
                                            assert(longer[a] == built[a]);
                                        }
                                    }
                                    lemma_cost_sum_dominated(longer, plan);
                                }
                            }
                            return None;
                        },
                        Some(sum) => {
                            low_level_node_cnt =
                            low_level_node_cnt.saturating_add(astar_result.search_node_cnt);
                            cost_sum = sum;
                            cost.push(astar_result.cost);
                            proof {
                                lemma_cost_sum_push(built, astar_result.path@);
                            }
                            path_table.push(astar_result.path);
                            proof {
                                assert(table_view(path_table@) =~= built.push(
                                    path_table@[i as int]@,
                                ));
                            }
                        },
                    }
                },
            }
            i += 1;
        }
        self.path_table = path_table;
        self.cost = cost;
        self.cost_sum = cost_sum;
        Some(low_level_node_cnt)
    }

    /// The root of the search tree: no constraints, and a shortest path for
    /// each agent on its own.
    pub fn get_initial(env: &GridEnvironment) -> (r: Option<CbsHNode>)
        requires
            env.valid(),
        ensures
            match r {
                Some(node) => {
                    &&& node@.planned(*env)
                    &&& node@.constraints == Seq::<CbsConstraint>::empty()
                },
                None => beyond_reach(*env, Seq::empty()),
            },
    {
        let mut node = Self::dummy();
        match node.calc_path_table(env) {
            Some(_) => Some(node),
            None => None,
        }
    }

    /// The earliest conflict of the node's paths. Time by time, from zero to
    /// the end of the longest path, it looks first for two agents in one
    /// cell, then for two that exchanged their cells in the step before;
    /// within a time the pairs of agents are taken in the order of their
    /// numbers. An agent whose path has ended is in nobody's way.
    pub fn find_first_conflict(&self) -> (r: Option<CbsConflict>)
        ensures
            match r {
                Some(c) => first_conflict(self@.paths, c),
                None => conflict_free(self@.paths),
            },
    {
        let ghost plan = table_view(self.path_table@);
        let max_len = longest_path(&self.path_table);
        let mut i: usize = 0;
        while i < max_len
            invariant
                i <= max_len,
                plan == table_view(self.path_table@),
                calm_before(plan, i as int),
            decreases max_len - i,
        {
            match vertex_clash_at(&self.path_table, i) {
                Some((a, b)) => {
                    let p = self.path_table[a][i];
                    return Some(
                        CbsConflict {
                            agent1: a,
                            agent2: b,
                            point1: p,
                            point2: p,
                            time1: i,
                            time2: i,
                        },
                    );
                },
                None => {},
            }
            if i > 0 {
                match swap_clash_at(&self.path_table, i - 1) {
                    Some((a, b)) => {
                        return Some(
                            CbsConflict {
                                agent1: a,
                                agent2: b,
                                point1: self.path_table[a][i - 1],
                                point2: self.path_table[a][i],
                                time1: i - 1,
                                time2: i,
                            },
                        );
                    },
                    None => {},
                }
            }
            i += 1;
        }
        proof {
            assert forall|a: int| 0 <= a < plan.len() implies (#[trigger] plan[a]).len()
                <= max_len by {
                lemma_makespan_bounds(plan, a);
            }
            lemma_calm_is_free(plan, max_len as int);
        }
        None
    }

    /// A node with no constraints and no paths.
    pub fn dummy() -> (node: CbsHNode)
        ensures
            node@ == (NodeView {
                cost: Seq::empty(),
                cost_sum: 0,
                constraints: Seq::empty(),
                paths: Seq::empty(),
            }),
    {
        let node = CbsHNode {
            cost: Vec::new(),
            cost_sum: 0,
            constraints: Vec::new(),
            path_table: Vec::new(),
        };
        proof {
            assert(table_view(node.path_table@) =~= Seq::empty());
        }
        node
    }

    /// A node that holds what this one holds.
    pub fn replica(&self) -> (node: CbsHNode)
        ensures
            node@ == self@,
    {
        CbsHNode {
            cost: copy_costs(&self.cost),
            cost_sum: self.cost_sum,
            constraints: copy_constraints(&self.constraints),
            path_table: copy_table(&self.path_table),
        }
    }

    /// Adds a constraint, unless the node holds it already.
    pub fn add_constraint(&mut self, constraint: CbsConstraint)
        ensures
            final(self)@ == (NodeView {
                constraints: with_constraint(old(self)@.constraints, constraint),
                ..old(self)@
            }),
    {
        let mut i: usize = 0;
        while i < self.constraints.len()
            invariant
                i <= self.constraints.len(),
                *self == *old(self),
                forall|k: int| 0 <= k < i ==> self.constraints@[k] != constraint,
            decreases self.constraints.len() - i,
        {
            if self.constraints[i] == constraint {
                return ;
            }
            i += 1;
        }
        self.constraints.push(constraint);
    }

    /// The two children of this node for a conflict: copies of the node, the
    /// first with the constraint that keeps `agent1` out of the conflict, the
    /// second with the one that keeps `agent2` out of it.
    pub fn split_on_conflict(&self, conflict: CbsConflict) -> (pair: (Self, Self))
        ensures
            pair.0@ == (NodeView {
                constraints: with_constraint(self@.constraints, left_of(conflict)),
                ..self@
            }),
            pair.1@ == (NodeView {
                constraints: with_constraint(self@.constraints, right_of(conflict)),
                ..self@
            }),
    {
        let mut left = self.replica();
        let mut right = self.replica();
        if conflict.time2 == conflict.time1 {
            left.add_constraint(
                CbsConstraint {
                    agent: conflict.agent1,
                    point1: conflict.point1,
                    point2: conflict.point1,
                    time1: conflict.time1,
                    time2: conflict.time1,
                },
            );
            right.add_constraint(
                CbsConstraint {
                    agent: conflict.agent2,
                    point1: conflict.point1,
                    point2: conflict.point1,
                    time1: conflict.time1,
                    time2: conflict.time1,
                },
            );
        } else {
            left.add_constraint(
                CbsConstraint {
                    agent: conflict.agent1,
                    point1: conflict.point1,
                    point2: conflict.point2,
                    time1: conflict.time1,
                    time2: conflict.time2,
                },
            );
            right.add_constraint(
                CbsConstraint {
                    agent: conflict.agent2,
                    point1: conflict.point2,
                    point2: conflict.point1,
                    time1: conflict.time1,
                    time2: conflict.time2,
                },
            );
        }
        (left, right)
    }
}

/// Conflict-based search over one environment.
pub struct Cbs {
    env: GridEnvironment,
}

/// The node is planned for `env` and its constraint list is tidy.
pub open spec fn sound(node: CbsHNode, env: GridEnvironment) -> bool {
    node@.planned(env) && tidy(node@.constraints, env)
}

/// Every open node is sound.
pub open spec fn open_sound(open: Seq<CbsHNode>, env: GridEnvironment) -> bool {
    forall|k: int| 0 <= k < open.len() ==> sound(#[trigger] open[k], env)
}

/// The position of the node that leaves the open set next: of the nodes
/// with the least sum of costs, the one added last.
fn cheapest_index(open: &Vec<CbsHNode>) -> (at: usize)
    requires
        open.len() > 0,
    ensures
        at < open.len(),
        forall|k: int|
            0 <= k < open.len() ==> open@[at as int].cost_sum <= (#[trigger] open@[k]).cost_sum,
        forall|k: int|
            at < k < open.len() ==> open@[at as int].cost_sum < (#[trigger] open@[k]).cost_sum,
{
    let mut at: usize = 0;
    let mut k: usize = 1;
    while k < open.len()
        invariant
            at < k <= open.len(),
            forall|j: int|
                0 <= j < k ==> open@[at as int].cost_sum <= (#[trigger] open@[j]).cost_sum,
            forall|j: int|
                at < j < k ==> open@[at as int].cost_sum < (#[trigger] open@[j]).cost_sum,
        decreases open.len() - k,
    {
        if open[k].cost_sum <= open[at].cost_sum {
            at = k;
        }
        k += 1;
    }
    at
}

/// One more, held at the largest `usize`.
fn bump(count: usize) -> (r: usize)
    ensures
        r == if count < usize::MAX {
            count + 1
        } else {
            count as int
        },
{
    if count < usize::MAX {
        count + 1
    } else {
        count
    }
}

/// A sound node with a conflict can be split: the conflict is splittable
/// unless it is at time zero, and each side of the split is a bounded
/// constraint that the node does not hold yet.
proof fn lemma_split_ready(node: CbsHNode, c: CbsConflict, env: GridEnvironment)
    requires
        env.valid(),
        sound(node, env),
        first_conflict(node@.paths, c),
        c.time2 != 0,
    ensures
        splittable(c, env.number_of_agents as int),
        bounded(left_of(c), env),
        bounded(right_of(c), env),
        !node@.constraints.contains(left_of(c)),
        !node@.constraints.contains(right_of(c)),
{
    let plan = node@.paths;
    let cs = node@.constraints;
    let a1 = c.agent1 as int;
    let a2 = c.agent2 as int;
    assert(node@.cost[a1] == plan[a1].len() - 1);
    assert(node@.cost[a2] == plan[a2].len() - 1);
    assert(valid_path(agent_mission(env, cs, a1), plan[a1]));
    assert(valid_path(agent_mission(env, cs, a2), plan[a2]));
    lemma_valid_in_bounds(agent_mission(env, cs, a1), plan[a1], c.time1 as int);
    lemma_valid_in_bounds(agent_mission(env, cs, a1), plan[a1], c.time2 as int);
    lemma_valid_in_bounds(agent_mission(env, cs, a2), plan[a2], c.time1 as int);
    lemma_valid_in_bounds(agent_mission(env, cs, a2), plan[a2], c.time2 as int);
    lemma_conflict_breaks(plan, c);
    if cs.contains(left_of(c)) {
        let k = choose|k: int| 0 <= k < cs.len() && cs[k] == left_of(c);
        lemma_valid_keeps(env, cs, a1, plan[a1], k);
    }
    if cs.contains(right_of(c)) {
        let k = choose|k: int| 0 <= k < cs.len() && cs[k] == right_of(c);
        lemma_valid_keeps(env, cs, a2, plan[a2], k);
    }
}

/// Two agents that start in the same cell leave no solution.
proof fn lemma_shared_start(node: CbsHNode, c: CbsConflict, env: GridEnvironment)
    requires
        env.valid(),
        sound(node, env),
        first_conflict(node@.paths, c),
        c.time2 == 0,
    ensures
        unsolvable(env),
{
    let plan = node@.paths;
    let a1 = c.agent1 as int;
    let a2 = c.agent2 as int;
    assert(valid_path(agent_mission(env, node@.constraints, a1), plan[a1]));
    assert(valid_path(agent_mission(env, node@.constraints, a2), plan[a2]));
    assert(vertex_clash(plan, a1, a2, 0));
    assert forall|other: Plan| #[trigger] is_solution(env, other) implies sum_of_costs(other)
        > isize::MAX by {
        assert(valid_path(agent_mission(env, Seq::empty(), a1), other[a1]));
        assert(valid_path(agent_mission(env, Seq::empty(), a2), other[a2]));
        assert(vertex_clash(other, a1, a2, 0));
    }
}

/// A sound node without a conflict that costs no more than any open node
/// holds an optimal solution, if the open set and the node together admit
/// every solution.
proof fn lemma_found(open: Seq<CbsHNode>, at: int, env: GridEnvironment)
    requires
        env.valid(),
        open_sound(open, env),
        covering(open, Seq::empty(), env),
        0 <= at < open.len(),
        forall|k: int| 0 <= k < open.len() ==> open[at].cost_sum <= (#[trigger] open[k]).cost_sum,
        conflict_free(open[at]@.paths),
    ensures
        is_optimal(env, open[at]@.paths),
{
    let node = open[at];
    let plan = node@.paths;
    assert(sound(node, env));
    assert forall|a: int| 0 <= a < plan.len() implies valid_path(
        agent_mission(env, Seq::empty(), a),
        #[trigger] plan[a],
    ) by {
        assert(valid_path(agent_mission(env, node@.constraints, a), plan[a]));
        lemma_valid_unconstrained(env, node@.constraints, a, plan[a]);
    }
    assert forall|other: Plan| #[trigger] is_solution(env, other) implies sum_of_costs(plan)
        <= sum_of_costs(other) by {
        if sum_of_costs(other) <= isize::MAX {
            assert(covered_by(open, env, other));
            let k = choose|k: int|
                0 <= k < open.len() && admits(env, (#[trigger] open[k])@.constraints, other);
            let rival = open[k];
            assert(sound(rival, env));
            assert forall|a: int| 0 <= a < rival@.paths.len() implies (
            #[trigger] rival@.paths[a]).len() <= other[a].len() by {
                assert(valid_path(agent_mission(env, rival@.constraints, a), other[a]));
            }
            assert forall|a: int| 0 <= a < other.len() implies (#[trigger] other[a]).len() >= 1 by {
                assert(valid_path(agent_mission(env, rival@.constraints, a), other[a]));
            }
            lemma_cost_sum_dominated(rival@.paths, other);
        }
    }
}

/// `result` is what a search over `env` may return: an optimal solution
/// with its sum of costs and its makespan, or nothing where no solution has a
/// sum of costs that an `isize` can hold.
pub open spec fn is_answer(env: GridEnvironment, result: Option<CbsResult>) -> bool {
    match result {
        Some(r) => {
            &&& is_optimal(env, table_view(r.path_table@))
            &&& r.cost_sum == sum_of_costs(table_view(r.path_table@))
            &&& r.makespan == makespan(table_view(r.path_table@))
            &&& r.high_level_node_cnt <= 2 * r.conflict_cnt
            &&& r.conflict_cnt == 0 ==> r.low_level_node_cnt == 0
        },
        None => unsolvable(env),
    }
}

impl Cbs {
    /// The environment that the search works on.
    pub closed spec fn env(self) -> GridEnvironment {
        self.env
    }

    /// A search over `env`.
    pub fn new(env: GridEnvironment) -> (cbs: Cbs)
        requires
            env.valid(),
        ensures
            cbs.env() == env,
    {
        Cbs { env }
    }

    /// Finds a plan for all agents with the least sum of costs. Best first
    /// by the sum of costs, it takes a node from the open set; a node
    /// without a conflict is the answer; otherwise the node is split on its
    /// earliest conflict and each child whose agents all find a path joins
    /// the open set. Two agents that share a cell at time zero share their
    /// start, which no constraint can mend: the search then ends without a
    /// plan.
    ///
    /// Returns an optimal solution with its sum of costs and makespan, or
    /// `None` exactly when no solution has a sum of costs that fits an
    /// `isize`. The counters tell how many conflicts were split on, how many
    /// children joined the open set, and how many low-level nodes their
    /// planning generated; each stops at the largest `usize`.
    pub fn search(&mut self) -> (result: Option<CbsResult>)
        requires
            old(self).env().valid(),
        ensures
            final(self).env() == old(self).env(),
            is_answer(old(self).env(), result),
    {
        let mut high_level_node_cnt: usize = 0;
        let mut low_level_node_cnt: usize = 0;
        let mut conflict_cnt: usize = 0;
        let initial_node = match CbsHNode::get_initial(&self.env) {
            Some(node) => node,
            None => {
                return None;
            },
        };
        let mut open_set: Vec<CbsHNode> = Vec::new();
        open_set.push(initial_node);
        proof {
            assert(open_set@[0]@.constraints =~= Seq::<CbsConstraint>::empty());
            assert(sound(open_set@[0], self.env));
            assert forall|plan: Plan| #[trigger]
                is_solution(self.env, plan) && sum_of_costs(plan) <= isize::MAX implies covered_by(
                open_set@,
                self.env,
                plan,
            ) by {
                assert(admits(self.env, open_set@[0]@.constraints, plan));
            }
        }
        while open_set.len() > 0
            invariant
                *self == *old(self),
                self.env.valid(),
                open_sound(open_set@, self.env),
                covering(open_set@, Seq::empty(), self.env),
                high_level_node_cnt <= 2 * conflict_cnt,
                conflict_cnt == 0 ==> low_level_node_cnt == 0,
            decreases open_weight(open_set@, self.env),
        {
            let ghost open_before = open_set@;
            let at = cheapest_index(&open_set);
            let n = open_set.remove(at);
            proof {
                assert(sound(open_before[at as int], self.env));
                lemma_cover_take(open_before, at as int, self.env);
                lemma_weight_remove(open_before, at as int, self.env);
                lemma_weight_positive(open_set@, self.env);
            }
            match n.find_first_conflict() {
                None => {
                    proof {
                        lemma_found(open_before, at as int, self.env);
                    }
                    let makespan = longest_path(&n.path_table);
                    return Some(
                        CbsResult {
                            path_table: n.path_table,
                            makespan,
                            high_level_node_cnt,
                            low_level_node_cnt,
                            conflict_cnt,
                            cost_sum: n.cost_sum,
                        },
                    );
                },
                Some(conflict) => {
                    if conflict.time2 == 0 {
                        proof {
                            lemma_shared_start(n, conflict, self.env);
                        }
                        return None;
                    }
                    conflict_cnt = bump(conflict_cnt);
                    let (mut left, mut right) = n.split_on_conflict(conflict);
                    let ghost left_cs = n@.constraints.push(left_of(conflict));
                    let ghost right_cs = n@.constraints.push(right_of(conflict));
                    proof {
                        lemma_split_ready(n, conflict, self.env);
                        lemma_cover_split(open_set@, n@.constraints, conflict, self.env);
                        assert(left@.constraints == left_cs);
                        assert(right@.constraints == right_cs);
                        assert(tidy(left_cs, self.env));
                        assert(tidy(right_cs, self.env));
                        lemma_tidy_bounded(left_cs, self.env);
                        lemma_tidy_bounded(right_cs, self.env);
                        lemma_weight_child(n, left, self.env);
                        lemma_weight_child(n, right, self.env);
                    }
                    let ghost weight_left = node_weight(left, self.env);
                    let ghost weight_right = node_weight(right, self.env);
                    match left.calc_path_table(&self.env) {
                        Some(cnt) => {
                            proof {
                                lemma_cover_push(
                                    open_set@,
                                    seq![left_cs, right_cs],
                                    left,
                                    self.env,
                                );
                                lemma_weight_push(open_set@, left, self.env);
                                assert(node_weight(left, self.env) == weight_left);
                            }
                            low_level_node_cnt = low_level_node_cnt.saturating_add(cnt);
                            open_set.push(left);
                            high_level_node_cnt = bump(high_level_node_cnt);
                        },
                        None => {
                            proof {
                                lemma_cover_drop(open_set@, seq![left_cs, right_cs], self.env);
                            }
                        },
                    }
                    proof {
                        assert(seq![left_cs, right_cs].drop_first() =~= seq![right_cs]);
                    }
                    match right.calc_path_table(&self.env) {
                        Some(cnt) => {
                            proof {
                                lemma_cover_push(open_set@, seq![right_cs], right, self.env);
                                lemma_weight_push(open_set@, right, self.env);
                                assert(node_weight(right, self.env) == weight_right);
                            }
                            low_level_node_cnt = low_level_node_cnt.saturating_add(cnt);
                            open_set.push(right);
                            high_level_node_cnt = bump(high_level_node_cnt);
                        },
                        None => {
                            proof {
                                lemma_cover_drop(open_set@, seq![right_cs], self.env);
                            }
                        },
                    }
                    proof {
                        assert(seq![right_cs].drop_first() =~= Seq::<Seq<CbsConstraint>>::empty());
                    }
                },
            }
        }
        proof {
            assert forall|other: Plan| #[trigger] is_solution(self.env, other) implies sum_of_costs(
                other,
            ) > isize::MAX by {
                if sum_of_costs(other) <= isize::MAX {
                    assert(covered_by(open_set@, self.env, other));
                }
            }
        }
        None
    }
}

} // verus!
