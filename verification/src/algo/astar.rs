//! Time-expanded A* for one agent: the low-level planner.

use vstd::prelude::*;
use crate::algo::arena::{
    arena_ok, covered, expanded, lemma_arena_bounded, lemma_frontier, lemma_grow, lemma_take,
    lemma_trail, node_ok, open_ok, reached, settled, settled_at, sits, state_count, trail,
};
use crate::algo::cbs::GridPoint;
use crate::algo::count::{lemma_pack_range, lemma_pack_unique};
use crate::algo::open_set::OpenSet;
use crate::algo::route::{
    banned, cell_code, forbids, in_bounds, is_move, lemma_within_horizon, manhattan, mission,
    quiet_after, step_at, step_ok, valid_path, Mission,
};
use crate::algo::visited::Visited;

verus! {

/// A prohibition for the agent being planned. With `time1 == time2` the agent
/// may not be at `point1` at that time; otherwise it may not step from
/// `point1` to `point2` so as to arrive at `time2`.
#[derive(Clone, Copy, PartialEq, Eq, Structural, Debug)]
pub struct AstarConstraint {
    pub point1: GridPoint,
    pub point2: GridPoint,
    pub time1: isize,
    pub time2: isize,
}

/// A node of the search tree: a cell at a time.
#[derive(Clone, Copy, PartialEq, Eq, Structural, Debug)]
pub struct AstarNode {
    /// Position of the node in the arena of generated nodes.
    pub id: usize,
    /// Priority: `g + h`, held at the largest `isize` where the sum exceeds it.
    pub f: isize,
    /// Steps taken from the start, which is also the time.
    pub g: isize,
    /// Estimate of the steps left to the goal.
    pub h: isize,
    pub point: GridPoint,
    /// Arena position of the node this one was reached from; the root names itself.
    pub parent: usize,
}

/// What a successful low-level search returns.
#[derive(Debug)]
pub struct GridAstarResult {
    pub path: Vec<GridPoint>,
    pub cost: isize,
    pub search_node_cnt: usize,
}

/// `v`, held at the largest `isize`.
pub open spec fn clip(v: int) -> int {
    if v > isize::MAX {
        isize::MAX as int
    } else {
        v
    }
}

/// Manhattan distance from `start` to `goal`, held at the largest `isize`.
pub fn heuristic(start: &GridPoint, goal: &GridPoint) -> (h: isize)
    ensures
        h == clip(manhattan(*start, *goal)),
{
    let x_diff: i128 = if start.x > goal.x {
        start.x as i128 - goal.x as i128
    } else {
        goal.x as i128 - start.x as i128
    };
    let y_diff: i128 = if start.y > goal.y {
        start.y as i128 - goal.y as i128
    } else {
        goal.y as i128 - start.y as i128
    };
    let sum: i128 = x_diff + y_diff;
    if sum > isize::MAX as i128 {
        isize::MAX
    } else {
        sum as isize
    }
}

/// The wait and the four axial steps from `p`, each with its cost of one.
pub open spec fn neighbors(p: GridPoint) -> Seq<(GridPoint, isize)> {
    seq![
        (p, 1isize),
        (GridPoint { x: (p.x - 1) as isize, y: p.y }, 1isize),
        (GridPoint { x: p.x, y: (p.y - 1) as isize }, 1isize),
        (GridPoint { x: (p.x + 1) as isize, y: p.y }, 1isize),
        (GridPoint { x: p.x, y: (p.y + 1) as isize }, 1isize),
    ]
}

/// The five successors of a cell: waiting there, then left, down, right, up.
pub fn get_neighbor_grid_points(p: &GridPoint) -> (r: Vec<(GridPoint, isize)>)
    requires
        isize::MIN < p.x < isize::MAX,
        isize::MIN < p.y < isize::MAX,
    ensures
        r@ == neighbors(*p),
{
    let r = vec![
        (*p, 1isize),
        (GridPoint { x: p.x - 1, y: p.y }, 1isize),
        (GridPoint { x: p.x, y: p.y - 1 }, 1isize),
        (GridPoint { x: p.x + 1, y: p.y }, 1isize),
        (GridPoint { x: p.x, y: p.y + 1 }, 1isize),
    ];
    assert(r@ =~= neighbors(*p));
    r
}

/// Whether `p` occurs among `points`.
fn contains_point(points: &[GridPoint], p: &GridPoint) -> (r: bool)
    ensures
        r == points@.contains(*p),
{
    let mut i: usize = 0;
    while i < points.len()
        invariant
            i <= points.len(),
            forall|k: int| 0 <= k < i ==> points@[k] != *p,
        decreases points.len() - i,
    {
        if points[i] == *p {
            return true;
        }
        i += 1;
    }
    false
}

/// Whether some constraint prohibits the step from `from` to `to` that
/// arrives at time `t`.
fn violates_any(
    constraints: &[AstarConstraint],
    from: &GridPoint,
    to: &GridPoint,
    t: isize,
) -> (r: bool)
    ensures
        r == banned(constraints@, *from, *to, t as int),
{
    let mut i: usize = 0;
    while i < constraints.len()
        invariant
            i <= constraints.len(),
            forall|k: int|
                0 <= k < i ==> !forbids(#[trigger] constraints@[k], *from, *to, t as int),
        decreases constraints.len() - i,
    {
        let c = &constraints[i];
        if c.time2 == c.time1 {
            if c.point1 == *to && t == c.time1 {
                return true;
            }
        } else if c.point1 == *from && c.point2 == *to && c.time2 == t {
            return true;
        }
        i += 1;
    }
    false
}

/// The number of a cell of the grid fits the keys of the visited set.
proof fn lemma_cell_code_fits(p: GridPoint, dim_x: int, dim_y: int)
    requires
        in_bounds(p, dim_x, dim_y),
        dim_x <= isize::MAX,
        dim_y <= isize::MAX,
    ensures
        0 <= cell_code(p, dim_y) <= u128::MAX,
{
    lemma_pack_range(p.x as int, dim_x, p.y as int, dim_y);
    assert(dim_x * dim_y <= isize::MAX * isize::MAX) by (nonlinear_arith)
        requires
            0 < dim_x <= isize::MAX,
            0 < dim_y <= isize::MAX,
    ;
}

/// The number of a cell of the grid, row by row.
fn cell_number(p: &GridPoint, dim_x: isize, dim_y: isize) -> (n: u128)
    requires
        in_bounds(*p, dim_x as int, dim_y as int),
    ensures
        n == cell_code(*p, dim_y as int),
{
    proof {
        lemma_cell_code_fits(*p, dim_x as int, dim_y as int);
        assert(0 <= p.x * dim_y) by (nonlinear_arith)
            requires
                0 <= p.x,
                0 <= dim_y,
        ;
    }
    (p.x as u128) * (dim_y as u128) + (p.y as u128)
}

/// The visited set holds exactly the states of the arena.
pub open spec fn recorded(
    seen: Set<(u128, isize)>,
    nodes: Seq<AstarNode>,
    dim_x: int,
    dim_y: int,
) -> bool {
    forall|p: GridPoint, g: isize|
        in_bounds(p, dim_x, dim_y) ==> (#[trigger] reached(nodes, p, g as int) <==> seen.contains(
            (cell_code(p, dim_y) as u128, g),
        ))
}

/// A new node in the arena and its state in the visited set keep the two
/// in step.
proof fn lemma_record(
    seen: Set<(u128, isize)>,
    nodes: Seq<AstarNode>,
    x: AstarNode,
    dim_x: int,
    dim_y: int,
)
    requires
        recorded(seen, nodes, dim_x, dim_y),
        in_bounds(x.point, dim_x, dim_y),
        dim_x <= isize::MAX,
        dim_y <= isize::MAX,
    ensures
        recorded(
            seen.insert((cell_code(x.point, dim_y) as u128, x.g)),
            nodes.push(x),
            dim_x,
            dim_y,
        ),
{
    let more = nodes.push(x);
    let wider = seen.insert((cell_code(x.point, dim_y) as u128, x.g));
    assert forall|p: GridPoint, g: isize| in_bounds(p, dim_x, dim_y) implies (#[trigger] reached(
        more,
        p,
        g as int,
    ) <==> wider.contains((cell_code(p, dim_y) as u128, g))) by {
        lemma_cell_code_fits(p, dim_x, dim_y);
        lemma_cell_code_fits(x.point, dim_x, dim_y);
        assert(reached(nodes, p, g as int) <==> seen.contains((cell_code(p, dim_y) as u128, g)));
        if reached(more, p, g as int) {
            let j = choose|j: int| 0 <= j < more.len() && sits(#[trigger] more[j], p, g as int);
            if j < nodes.len() {
                assert(sits(nodes[j], p, g as int));
            }
        }
        if reached(nodes, p, g as int) {
            let j = choose|j: int| 0 <= j < nodes.len() && sits(#[trigger] nodes[j], p, g as int);
            assert(sits(more[j], p, g as int));
        }
        if wider.contains((cell_code(p, dim_y) as u128, g)) && !seen.contains(
            (cell_code(p, dim_y) as u128, g),
        ) {
            lemma_pack_unique(p.x as int, p.y as int, x.point.x as int, x.point.y as int, dim_y);
            assert(sits(more[nodes.len() as int], p, g as int));
        }
    }
}

/// The latest arrival time that a constraint speaks of, zero where none
/// speaks of a later one.
pub open spec fn latest(cs: Seq<AstarConstraint>) -> int
    decreases cs.len(),
{
    if cs.len() == 0 {
        0
    } else if cs.last().time2 > latest(cs.drop_last()) {
        cs.last().time2 as int
    } else {
        latest(cs.drop_last())
    }
}

/// The latest time that the search looks at: past the last constraint by
/// as many steps as the grid has cells, held at the largest `isize`.
pub open spec fn horizon_of(m: Mission) -> int {
    clip(latest(m.constraints) + m.dim_x * m.dim_y)
}

/// The time after which no constraint applies.
fn last_time(constraints: &[AstarConstraint]) -> (t: isize)
    ensures
        0 <= t,
        t == latest(constraints@),
        quiet_after(constraints@, t as int),
{
    let mut t: isize = 0;
    let mut i: usize = 0;
    while i < constraints.len()
        invariant
            i <= constraints.len(),
            0 <= t,
            t == latest(constraints@.take(i as int)),
            forall|k: int| 0 <= k < i ==> (#[trigger] constraints@[k]).time2 <= t,
        decreases constraints.len() - i,
    {
        proof {
            assert(constraints@.take(i + 1).drop_last() =~= constraints@.take(i as int));
        }
        if constraints[i].time2 > t {
            t = constraints[i].time2;
        }
        i += 1;
    }
    proof {
        assert(constraints@.take(constraints.len() as int) =~= constraints@);
    }
    t
}

/// The latest time the search looks at: past the last constraint by as many
/// steps as the grid has cells, held at the largest `isize`.
fn horizon(t_max: isize, dim_x: isize, dim_y: isize) -> (limit: isize)
    requires
        0 <= t_max,
        0 < dim_x,
        0 < dim_y,
    ensures
        limit == clip(t_max + dim_x * dim_y),
{
    assert(0 < dim_x * dim_y) by (nonlinear_arith)
        requires
            0 < dim_x,
            0 < dim_y,
    ;
    match dim_x.checked_mul(dim_y) {
        Some(cells) => match t_max.checked_add(cells) {
            Some(limit) => limit,
            None => isize::MAX,
        },
        None => isize::MAX,
    }
}

/// The sum of a time and an estimate, held at the largest `isize`.
fn priority(g: isize, h: isize) -> (f: isize)
    requires
        0 <= g,
        0 <= h,
    ensures
        f == clip(g + h),
{
    match g.checked_add(h) {
        Some(f) => f,
        None => isize::MAX,
    }
}

impl AstarNode {
    /// The order of the open set: the smaller `f` first, and of two nodes
    /// with equal `f` the one with the larger `h`.
    pub open spec fn precedes(self, other: AstarNode) -> bool {
        self.f < other.f || (self.f == other.f && self.h > other.h)
    }

    /// Whether this node leaves the open set before `other`.
    pub fn goes_before(&self, other: &AstarNode) -> (r: bool)
        ensures
            r == self.precedes(*other),
    {
        self.f < other.f || (self.f == other.f && self.h > other.h)
    }
}

/// The path that the parent links spell out, from the root to `n`.
pub fn build_path(n: &AstarNode, nodes: &Vec<AstarNode>) -> (path: Vec<GridPoint>)
    requires
        n.id < nodes.len(),
        nodes@[n.id as int] == *n,
        forall|i: int| 0 < i < nodes.len() ==> (#[trigger] nodes@[i]).parent < i,
    ensures
        path@ == trail(nodes@, n.id as int),
{
    let mut back: Vec<GridPoint> = Vec::new();
    let mut at: usize = n.id;
    back.push(nodes[at].point);
    while at != 0
        invariant
            at < nodes.len(),
            back.len() >= 1,
            forall|i: int| 0 < i < nodes.len() ==> (#[trigger] nodes@[i]).parent < i,
            trail(nodes@, n.id as int) =~= trail(nodes@, at as int).drop_last() + back@.reverse(),
        decreases at,
    {
        let ghost before = back@;
        let ghost below = at;
        at = nodes[at].parent;
        back.push(nodes[at].point);
        proof {
            assert(trail(nodes@, below as int) == trail(nodes@, at as int).push(
                nodes@[below as int].point,
            ));
            lemma_trail_ends(nodes@, at as int);
            lemma_trail_ends(nodes@, below as int);
            assert(back@.reverse() =~= seq![nodes@[at as int].point] + before.reverse());
            assert(trail(nodes@, at as int) =~= trail(nodes@, at as int).drop_last().push(
                nodes@[at as int].point,
            ));
        }
    }
    let mut path: Vec<GridPoint> = Vec::new();
    let mut k: usize = back.len();
    while k > 0
        invariant
            k <= back.len(),
            path.len() == back.len() - k,
            forall|j: int| 0 <= j < path.len() ==> path@[j] == back@[back.len() - 1 - j],
        decreases k,
    {
        k -= 1;
        path.push(back[k]);
    }
    proof {
        assert(trail(nodes@, 0).drop_last() =~= Seq::<GridPoint>::empty());
        assert(path@ =~= back@.reverse());
    }
    path
}

/// A trail ends in the cell of its node.
proof fn lemma_trail_ends(nodes: Seq<AstarNode>, i: int)
    requires
        0 <= i < nodes.len(),
    ensures
        trail(nodes, i).len() >= 1,
        trail(nodes, i).last() == nodes[i].point,
{
}

/// `path` is valid for `m`, and no valid path is shorter.
pub open spec fn shortest_path(m: Mission, path: Seq<GridPoint>) -> bool {
    &&& valid_path(m, path)
    &&& forall|other: Seq<GridPoint>| #[trigger] valid_path(m, other) ==> path.len() <= other.len()
}

/// No valid path for `m` has a cost that an `isize` can hold.
pub open spec fn out_of_reach(m: Mission) -> bool {
    forall|other: Seq<GridPoint>| #[trigger] valid_path(m, other) ==> other.len() - 1 > isize::MAX
}

/// Every cell that one move leads to from `p` is among its neighbors.
proof fn lemma_neighbors_complete(p: GridPoint, to: GridPoint)
    requires
        is_move(p, to),
        isize::MIN < p.x < isize::MAX,
        isize::MIN < p.y < isize::MAX,
    ensures
        exists|j: int| 0 <= j < 5 && (#[trigger] neighbors(p)[j]).0 == to,
{
    let around = neighbors(p);
    if to == p {
        assert(around[0].0 == to);
    } else if to.x == p.x - 1 {
        assert(around[1].0 == to);
    } else if to.y == p.y - 1 {
        assert(around[2].0 == to);
    } else if to.x == p.x + 1 {
        assert(around[3].0 == to);
    } else {
        assert(around[4].0 == to);
    }
}

/// A node lies at least as deep in the arena as it is late in time.
proof fn lemma_depth(nodes: Seq<AstarNode>, i: int, m: Mission, limit: int)
    requires
        arena_ok(nodes, m, limit),
        0 <= i < nodes.len(),
    ensures
        nodes[i].g <= i,
    decreases i,
{
    assert(node_ok(nodes, i, m, limit));
    if i > 0 {
        lemma_depth(nodes, nodes[i].parent as int, m, limit);
    }
}

/// Plans one agent by A* over cells and time steps. Each step is a wait or
/// an axial move of cost one; a step is allowed when it arrives in bounds, off
/// the obstacles and against no constraint. The open set is ordered by
/// `f = g + h` with the Manhattan distance as `h`, larger `h` first among
/// equal `f`; a state is generated once, and none later than the last
/// constraint time plus the number of cells. The search ends at the first
/// node taken from the open set that stands on the goal.
///
/// Returns a shortest valid path with its cost and the number of nodes
/// generated, which stays below the number of cells times the number of
/// times looked at; or `None` exactly when no valid path has a cost that
/// fits an `isize`.
pub fn grid_search(
    start: &GridPoint,
    goal: &GridPoint,
    obstacles: &[GridPoint],
    constraints: &[AstarConstraint],
    dim_x: isize,
    dim_y: isize,
) -> (result: Option<GridAstarResult>)
    requires
        in_bounds(*start, dim_x as int, dim_y as int),
    ensures
        match result {
            Some(r) => {
                &&& shortest_path(
                    mission(*start, *goal, obstacles@, constraints@, dim_x as int, dim_y as int),
                    r.path@,
                )
                &&& r.cost == r.path.len() - 1
                &&& r.cost <= r.search_node_cnt < state_count(
                    horizon_of(
                        mission(
                            *start,
                            *goal,
                            obstacles@,
                            constraints@,
                            dim_x as int,
                            dim_y as int,
                        ),
                    ),
                    dim_x as int,
                    dim_y as int,
                )
            },
            None => out_of_reach(
                mission(*start, *goal, obstacles@, constraints@, dim_x as int, dim_y as int),
            ),
        },
{
    let ghost m = mission(*start, *goal, obstacles@, constraints@, dim_x as int, dim_y as int);
    let t_max = last_time(constraints);
    let limit = horizon(t_max, dim_x, dim_y);
    let h = heuristic(start, goal);
    let root = AstarNode { id: 0, f: h, g: 0, h, point: *start, parent: 0 };
    let mut nodes: Vec<AstarNode> = Vec::new();
    nodes.push(root);
    let mut open_set = OpenSet::new();
    open_set.push(root);
    let mut seen = Visited::new();
    seen.insert(cell_number(start, dim_x, dim_y), 0);
    proof {
        lemma_record(Set::empty(), Seq::empty(), root, dim_x as int, dim_y as int);
        assert(Seq::<AstarNode>::empty().push(root) =~= nodes@);
        assert(node_ok(nodes@, 0, m, limit as int));
        assert(open_set@.contains(root));
        assert(settled_at(nodes@, open_set@, 0, m, limit as int));
        lemma_arena_bounded(nodes@, m, limit as int);
    }
    while open_set.len() > 0
        invariant
            m == mission(*start, *goal, obstacles@, constraints@, dim_x as int, dim_y as int),
            0 < dim_x,
            0 < dim_y,
            0 <= t_max,
            quiet_after(constraints@, t_max as int),
            limit == clip(t_max + dim_x * dim_y),
            limit == horizon_of(m),
            arena_ok(nodes@, m, limit as int),
            open_set.wf(),
            open_ok(open_set@, nodes@),
            settled(nodes@, open_set@, m, limit as int, -1),
            recorded(seen@, nodes@, dim_x as int, dim_y as int),
            nodes.len() <= state_count(limit as int, dim_x as int, dim_y as int),
        decreases
            2 * (state_count(limit as int, dim_x as int, dim_y as int) - nodes.len())
                + open_set@.len(),
    {
        let ghost open_before = open_set@;
        let ghost nodes_before = nodes@;
        let n = open_set.pop();
        proof {
            lemma_take(nodes@, open_set@, n, m, limit as int);
            assert(node_ok(nodes@, n.id as int, m, limit as int));
        }
        if n.point == *goal {
            proof {
                assert forall|i: int| 0 < i < nodes.len() implies (#[trigger] nodes@[i]).parent
                    < i by {
                    assert(node_ok(nodes@, i, m, limit as int));
                }
            }
            let path = build_path(&n, &nodes);
            proof {
                lemma_trail(nodes@, n.id as int, m, limit as int);
                lemma_depth(nodes@, n.id as int, m, limit as int);
                assert forall|other: Seq<GridPoint>| #[trigger]
                    valid_path(m, other) implies path.len() <= other.len() by {
                    if other.len() - 1 <= limit {
                        assert(node_ok(nodes@, 0, m, limit as int));
                        lemma_frontier(nodes@, open_before, m, limit as int, other, 0, 0);
                        let rival = choose|rival: AstarNode| #[trigger]
                            open_before.contains(rival) && rival.f <= other.len() - 1;
                        assert(!rival.precedes(n));
                    }
                }
                assert forall|i: int| 0 <= i < path.len() - 1 implies #[trigger] step_at(
                    m,
                    path@,
                    i,
                ) by {}
            }
            return Some(GridAstarResult { path, cost: n.g, search_node_cnt: nodes.len() - 1 });
        }
        if n.g < limit {
            let around = get_neighbor_grid_points(&n.point);
            let mut j: usize = 0;
            while j < around.len()
                invariant
                    m == mission(
                        *start,
                        *goal,
                        obstacles@,
                        constraints@,
                        dim_x as int,
                        dim_y as int,
                    ),
                    0 < dim_x,
                    0 < dim_y,
                    j <= around.len(),
                    around@ == neighbors(n.point),
                    arena_ok(nodes@, m, limit as int),
                    open_set.wf(),
                    open_ok(open_set@, nodes@),
                    settled(nodes@, open_set@, m, limit as int, n.id as int),
                    recorded(seen@, nodes@, dim_x as int, dim_y as int),
                    n.id < nodes.len(),
                    nodes@[n.id as int] == n,
                    0 <= n.g < limit,
                    in_bounds(n.point, dim_x as int, dim_y as int),
                    forall|jj: int|
                        0 <= jj < j ==> covered(
                            nodes@,
                            n.id as int,
                            (#[trigger] around@[jj]).0,
                            m,
                            limit as int,
                        ),
                    nodes.len() >= nodes_before.len(),
                    nodes.len() - open_set@.len() == nodes_before.len() - open_before.len() + 1,
                decreases around.len() - j,
            {
                let p = around[j].0;
                let cost = around[j].1;
                if !(p.x < 0 || p.y < 0 || p.x >= dim_x || p.y >= dim_y) && !contains_point(
                    obstacles,
                    &p,
                ) {
                    let g_p = n.g + cost;
                    let number = cell_number(&p, dim_x, dim_y);
                    proof {
                        assert(reached(nodes@, p, g_p as int) <==> seen@.contains((number, g_p)));
                    }
                    if !violates_any(constraints, &n.point, &p, g_p) && !seen.contains(
                        number,
                        g_p,
                    ) {
                        let h_p = heuristic(&p, goal);
                        let new_node = AstarNode {
                            id: nodes.len(),
                            f: priority(g_p, h_p),
                            g: g_p,
                            h: h_p,
                            point: p,
                            parent: n.id,
                        };
                        proof {
                            assert(is_move(n.point, p));
                            assert(step_ok(m, n.point, p, g_p as int));
                            assert(node_ok(
                                nodes@.push(new_node),
                                nodes.len() as int,
                                m,
                                limit as int,
                            ));
                            lemma_grow(nodes@, open_set@, new_node, m, limit as int, n.id as int);
                            lemma_record(seen@, nodes@, new_node, dim_x as int, dim_y as int);
                        }
                        nodes.push(new_node);
                        open_set.push(new_node);
                        seen.insert(number, g_p);
                    }
                }
                j += 1;
            }
            proof {
                assert forall|p: GridPoint| #[trigger]
                    covered(nodes@, n.id as int, p, m, limit as int) by {
                    if step_ok(m, n.point, p, n.g + 1) {
                        lemma_neighbors_complete(n.point, p);
                        let jj = choose|jj: int|
                            0 <= jj < 5 && (#[trigger] neighbors(n.point)[jj]).0 == p;
                        assert(covered(nodes@, n.id as int, around@[jj].0, m, limit as int));
                    }
                }
            }
        }
        proof {
            assert(expanded(nodes@, n.id as int, m, limit as int));
            assert forall|i: int| 0 <= i < nodes.len() implies #[trigger] settled_at(
                nodes@,
                open_set@,
                i,
                m,
                limit as int,
            ) by {}
            lemma_arena_bounded(nodes@, m, limit as int);
        }
    }
    proof {
        assert forall|other: Seq<GridPoint>| #[trigger] valid_path(m, other) implies other.len() - 1
            > isize::MAX by {
            assert(node_ok(nodes@, 0, m, limit as int));
            if other.len() - 1 <= limit {
                lemma_frontier(nodes@, open_set@, m, limit as int, other, 0, 0);
            } else if other.len() - 1 <= isize::MAX {
                lemma_within_horizon(m, other, t_max as int);
                let short = choose|short: Seq<GridPoint>|
                    valid_path(m, short) && short.len() - 1 <= t_max + m.dim_x * m.dim_y;
                lemma_frontier(nodes@, open_set@, m, limit as int, short, 0, 0);
            }
        }
    }
    None
}

impl AstarNode {
    /// A node with every field zero.
    pub fn dummy() -> (n: AstarNode)
        ensures
            n == (AstarNode {
                id: 0,
                f: 0,
                g: 0,
                h: 0,
                point: GridPoint { x: 0, y: 0 },
                parent: 0,
            }),
    {
        AstarNode { id: 0, f: 0, g: 0, h: 0, point: GridPoint { x: 0, y: 0 }, parent: 0 }
    }
}

} // verus!
