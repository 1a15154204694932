//! The model of single-agent planning: what a timed constraint forbids, which
//! steps are allowed, and which sequences of cells are admissible paths.

use vstd::prelude::*;
use crate::algo::astar::AstarConstraint;
use crate::algo::cbs::GridPoint;
use crate::algo::count::{
    all_below, lemma_pack_range, lemma_pack_unique, lemma_pigeonhole, pack,
};

verus! {

/// One single-agent planning problem, as plain mathematical values.
pub struct Mission {
    pub start: GridPoint,
    pub goal: GridPoint,
    pub obstacles: Seq<GridPoint>,
    pub constraints: Seq<AstarConstraint>,
    pub dim_x: int,
    pub dim_y: int,
}

/// The mission that the arguments of a low-level search describe.
pub open spec fn mission(
    start: GridPoint,
    goal: GridPoint,
    obstacles: Seq<GridPoint>,
    constraints: Seq<AstarConstraint>,
    dim_x: int,
    dim_y: int,
) -> Mission {
    Mission { start, goal, obstacles, constraints, dim_x, dim_y }
}

/// `p` is a cell of the grid.
pub open spec fn in_bounds(p: GridPoint, dim_x: int, dim_y: int) -> bool {
    0 <= p.x < dim_x && 0 <= p.y < dim_y
}

/// The absolute value of an integer.
pub open spec fn magnitude(v: int) -> int {
    if v < 0 {
        -v
    } else {
        v
    }
}

/// Manhattan distance between two cells.
pub open spec fn manhattan(a: GridPoint, b: GridPoint) -> int {
    magnitude(a.x - b.x) + magnitude(a.y - b.y)
}

/// A wait, or one step along one axis.
pub open spec fn is_move(from: GridPoint, to: GridPoint) -> bool {
    manhattan(from, to) <= 1
}

/// Whether constraint `c` prohibits arriving at `to` from `from` at time `t`.
/// Equal times make a vertex constraint on `point1`; otherwise the constraint
/// closes the edge from `point1` to `point2` for arrival at `time2`.
pub open spec fn forbids(c: AstarConstraint, from: GridPoint, to: GridPoint, t: int) -> bool {
    if c.time1 == c.time2 {
        c.point1 == to && c.time1 == t
    } else {
        c.point1 == from && c.point2 == to && c.time2 == t
    }
}

/// Some constraint of the sequence prohibits the step.
pub open spec fn banned(cs: Seq<AstarConstraint>, from: GridPoint, to: GridPoint, t: int) -> bool {
    exists|k: int| 0 <= k < cs.len() && forbids(#[trigger] cs[k], from, to, t)
}

/// The step from `from` to `to`, arriving at time `t`, is allowed in `m`.
pub open spec fn step_ok(m: Mission, from: GridPoint, to: GridPoint, t: int) -> bool {
    &&& is_move(from, to)
    &&& in_bounds(to, m.dim_x, m.dim_y)
    &&& !m.obstacles.contains(to)
    &&& !banned(m.constraints, from, to, t)
}

/// The step of `path` that leaves its cell `i` is allowed in `m`.
pub open spec fn step_at(m: Mission, path: Seq<GridPoint>, i: int) -> bool {
    step_ok(m, path[i], path[i + 1], i + 1)
}

/// `path` leads from the start of `m` to its goal by allowed steps.
pub open spec fn valid_path(m: Mission, path: Seq<GridPoint>) -> bool {
    &&& path.len() >= 1
    &&& path[0] == m.start
    &&& path[path.len() - 1] == m.goal
    &&& forall|i: int| 0 <= i < path.len() - 1 ==> #[trigger] step_at(m, path, i)
}

/// No constraint of `cs` speaks of an arrival after time `t`.
pub open spec fn quiet_after(cs: Seq<AstarConstraint>, t: int) -> bool {
    forall|k: int| 0 <= k < cs.len() ==> (#[trigger] cs[k]).time2 <= t
}

/// Manhattan distance never overestimates what is left of a valid path.
pub proof fn lemma_admissible(m: Mission, path: Seq<GridPoint>, j: int)
    requires
        valid_path(m, path),
        0 <= j < path.len(),
    ensures
        manhattan(path[j], m.goal) <= path.len() - 1 - j,
    decreases path.len() - j,
{
    if j < path.len() - 1 {
        lemma_admissible(m, path, j + 1);
        assert(step_at(m, path, j));
    }
}

/// The number of a cell of the grid, row by row.
pub open spec fn cell_code(p: GridPoint, dim_y: int) -> int {
    pack(p.x as int, p.y as int, dim_y)
}

/// A valid path that revisits a cell after the last constraint has passed
/// can be cut short at the revisit.
proof fn lemma_cut(m: Mission, path: Seq<GridPoint>, t_max: int, i: int, j: int)
    requires
        valid_path(m, path),
        quiet_after(m.constraints, t_max),
        0 <= t_max < i < j < path.len(),
        path[i] == path[j],
    ensures
        valid_path(m, path.subrange(0, i + 1) + path.subrange(j + 1, path.len() as int)),
{
    let short = path.subrange(0, i + 1) + path.subrange(j + 1, path.len() as int);
    let d = j - i;
    assert forall|k: int| 0 <= k < short.len() - 1 implies #[trigger] step_at(m, short, k) by {
        if k < i {
            assert(step_at(m, path, k));
        } else {
            assert(step_at(m, path, k + d));
            if k == i {
                assert(short[k] == path[i]);
            } else {
                assert(short[k] == path.subrange(j + 1, path.len() as int)[k - i - 1]);
            }
            assert(short[k + 1] == path.subrange(j + 1, path.len() as int)[k - i]);
            assert forall|c: int| 0 <= c < m.constraints.len() implies !forbids(
                #[trigger] m.constraints[c],
                short[k],
                short[k + 1],
                k + 1,
            ) by {
                assert(m.constraints[c].time2 <= t_max);
            }
        }
    }
}

/// A valid path longer than the grid has cells, counted from the last
/// constraint on, is not the shortest.
proof fn lemma_shorten(m: Mission, path: Seq<GridPoint>, t_max: int)
    requires
        valid_path(m, path),
        quiet_after(m.constraints, t_max),
        0 <= t_max,
        0 <= m.dim_x,
        0 <= m.dim_y,
        path.len() - 1 > t_max + m.dim_x * m.dim_y,
    ensures
        exists|short: Seq<GridPoint>| valid_path(m, short) && short.len() < path.len(),
{
    let tail = path.subrange(t_max + 1, path.len() as int);
    let codes = Seq::new(tail.len(), |k: int| cell_code(tail[k], m.dim_y));
    assert(all_below(codes, m.dim_x * m.dim_y)) by {
        assert forall|k: int| 0 <= k < codes.len() implies 0 <= #[trigger] codes[k] < m.dim_x
            * m.dim_y by {
            assert(tail[k] == path[t_max + k + 1]);
            assert(step_at(m, path, t_max + k));
            lemma_pack_range(tail[k].x as int, m.dim_x, tail[k].y as int, m.dim_y);
        }
    }
    assert(0 <= m.dim_x * m.dim_y) by (nonlinear_arith)
        requires
            0 <= m.dim_x,
            0 <= m.dim_y,
    ;
    lemma_pigeonhole(codes, m.dim_x * m.dim_y);
    let (a, b) = choose|a: int, b: int| 0 <= a < b < codes.len() && codes[a] == codes[b];
    assert(step_at(m, path, t_max + a));
    assert(step_at(m, path, t_max + b));
    lemma_pack_unique(
        tail[a].x as int,
        tail[a].y as int,
        tail[b].x as int,
        tail[b].y as int,
        m.dim_y,
    );
    let i = t_max + 1 + a;
    let j = t_max + 1 + b;
    assert(path[i] == path[j]);
    lemma_cut(m, path, t_max, i, j);
    let short = path.subrange(0, i + 1) + path.subrange(j + 1, path.len() as int);
    assert(valid_path(m, short) && short.len() < path.len());
}

/// Where a valid path exists, one exists within the horizon: the time of the
/// last constraint plus the number of cells.
pub proof fn lemma_within_horizon(m: Mission, path: Seq<GridPoint>, t_max: int)
    requires
        valid_path(m, path),
        quiet_after(m.constraints, t_max),
        0 <= t_max,
        0 <= m.dim_x,
        0 <= m.dim_y,
    ensures
        exists|short: Seq<GridPoint>|
            valid_path(m, short) && short.len() - 1 <= t_max + m.dim_x * m.dim_y,
    decreases path.len(),
{
    if path.len() - 1 > t_max + m.dim_x * m.dim_y {
        lemma_shorten(m, path, t_max);
        let short = choose|short: Seq<GridPoint>| valid_path(m, short) && short.len() < path.len();
        lemma_within_horizon(m, short, t_max);
    } else {
        assert(valid_path(m, path) && path.len() - 1 <= t_max + m.dim_x * m.dim_y);
    }
}

} // verus!
