//! The bookkeeping of the low-level search: the arena of generated nodes, the
//! open set, and why the cheapest open node bounds every admissible path.

use vstd::multiset::Multiset;
use vstd::prelude::*;
use crate::algo::astar::{clip, AstarNode};
use crate::algo::cbs::GridPoint;
use crate::algo::count::{
    all_below, lemma_distinct_bounded, lemma_pack_range, lemma_pack_unique, pack,
};
use crate::algo::route::{
    in_bounds, lemma_admissible, manhattan, step_at, step_ok, valid_path, Mission,
};

verus! {

/// The node stands for cell `p` at time `g`.
pub open spec fn sits(n: AstarNode, p: GridPoint, g: int) -> bool {
    n.point == p && n.g == g
}

/// Some generated node stands for cell `p` at time `g`.
pub open spec fn reached(nodes: Seq<AstarNode>, p: GridPoint, g: int) -> bool {
    exists|j: int| 0 <= j < nodes.len() && sits(#[trigger] nodes[j], p, g)
}

/// Node `i` of the arena is what the search would have generated: it knows
/// its place, its estimate and priority, and hangs by an allowed step below
/// an earlier node; node 0 is the start at time 0.
pub open spec fn node_ok(nodes: Seq<AstarNode>, i: int, m: Mission, limit: int) -> bool {
    let n = nodes[i];
    &&& n.id == i
    &&& 0 <= n.g <= limit
    &&& in_bounds(n.point, m.dim_x, m.dim_y)
    &&& n.h == clip(manhattan(n.point, m.goal))
    &&& n.f == clip(n.g + n.h)
    &&& if i == 0 {
        n.point == m.start && n.g == 0 && n.parent == 0
    } else {
        &&& n.parent < i
        &&& n.g == nodes[n.parent as int].g + 1
        &&& step_ok(m, nodes[n.parent as int].point, n.point, n.g as int)
    }
}

/// Two nodes stand for the same cell at the same time.
pub open spec fn same_state(a: AstarNode, b: AstarNode) -> bool {
    a.point == b.point && a.g == b.g
}

/// The arena holds well-formed nodes, no state twice.
pub open spec fn arena_ok(nodes: Seq<AstarNode>, m: Mission, limit: int) -> bool {
    &&& nodes.len() >= 1
    &&& forall|i: int| 0 <= i < nodes.len() ==> #[trigger] node_ok(nodes, i, m, limit)
    &&& forall|i: int, j: int|
        0 <= i < j < nodes.len() ==> !#[trigger] same_state(nodes[i], nodes[j])
}

/// Every open node is a copy of the arena node it names.
pub open spec fn open_ok(open: Multiset<AstarNode>, nodes: Seq<AstarNode>) -> bool {
    forall|n: AstarNode| #[trigger]
        open.contains(n) ==> 0 <= n.id < nodes.len() && nodes[n.id as int] == n
}

/// If cell `p` is an allowed successor of node `i` within the limit, it has
/// been generated.
pub open spec fn covered(
    nodes: Seq<AstarNode>,
    i: int,
    p: GridPoint,
    m: Mission,
    limit: int,
) -> bool {
    nodes[i].g < limit && step_ok(m, nodes[i].point, p, nodes[i].g + 1) ==> reached(
        nodes,
        p,
        nodes[i].g + 1,
    )
}

/// Node `i` is not at the goal and all its successors have been generated.
pub open spec fn expanded(nodes: Seq<AstarNode>, i: int, m: Mission, limit: int) -> bool {
    &&& nodes[i].point != m.goal
    &&& forall|p: GridPoint| #[trigger] covered(nodes, i, p, m, limit)
}

/// Node `i` is either still open or fully expanded.
pub open spec fn settled_at(
    nodes: Seq<AstarNode>,
    open: Multiset<AstarNode>,
    i: int,
    m: Mission,
    limit: int,
) -> bool {
    open.contains(nodes[i]) || expanded(nodes, i, m, limit)
}

/// Every arena node but `skip` is open or expanded.
pub open spec fn settled(
    nodes: Seq<AstarNode>,
    open: Multiset<AstarNode>,
    m: Mission,
    limit: int,
    skip: int,
) -> bool {
    forall|i: int|
        0 <= i < nodes.len() && i != skip ==> #[trigger] settled_at(nodes, open, i, m, limit)
}

/// The number of states: cells of the grid at times up to `limit`.
pub open spec fn state_count(limit: int, dim_x: int, dim_y: int) -> int {
    ((limit + 1) * dim_x) * dim_y
}

/// The number of a state among all states.
pub open spec fn state_code(n: AstarNode, dim_x: int, dim_y: int) -> int {
    pack(pack(n.g as int, n.point.x as int, dim_x), n.point.y as int, dim_y)
}

/// The arena never holds more nodes than there are states.
pub(crate) proof fn lemma_arena_bounded(nodes: Seq<AstarNode>, m: Mission, limit: int)
    requires
        arena_ok(nodes, m, limit),
    ensures
        nodes.len() <= state_count(limit, m.dim_x, m.dim_y),
{
    let codes = Seq::new(nodes.len(), |i: int| state_code(nodes[i], m.dim_x, m.dim_y));
    let total = state_count(limit, m.dim_x, m.dim_y);
    assert(node_ok(nodes, 0, m, limit));
    lemma_pack_range(nodes[0].g as int, limit + 1, nodes[0].point.x as int, m.dim_x);
    assert(all_below(codes, total)) by {
        assert forall|i: int| 0 <= i < codes.len() implies 0 <= #[trigger] codes[i] < total by {
            assert(node_ok(nodes, i, m, limit));
            let n = nodes[i];
            lemma_pack_range(n.g as int, limit + 1, n.point.x as int, m.dim_x);
            lemma_pack_range(
                pack(n.g as int, n.point.x as int, m.dim_x),
                (limit + 1) * m.dim_x,
                n.point.y as int,
                m.dim_y,
            );
        }
    }
    assert(codes[0] < total);
    assert(codes.no_duplicates()) by {
        assert forall|i: int, j: int|
            0 <= i < codes.len() && 0 <= j < codes.len() && i != j implies codes[i] != codes[j] by {
            assert(node_ok(nodes, i, m, limit));
            assert(node_ok(nodes, j, m, limit));
            let a = nodes[i];
            let b = nodes[j];
            if codes[i] == codes[j] {
                lemma_pack_unique(
                    pack(a.g as int, a.point.x as int, m.dim_x),
                    a.point.y as int,
                    pack(b.g as int, b.point.x as int, m.dim_x),
                    b.point.y as int,
                    m.dim_y,
                );
                lemma_pack_unique(
                    a.g as int,
                    a.point.x as int,
                    b.g as int,
                    b.point.x as int,
                    m.dim_x,
                );
                assert(same_state(a, b));
                if i < j {
                    assert(!same_state(nodes[i], nodes[j]));
                } else {
                    assert(!same_state(nodes[j], nodes[i]));
                }
            }
        }
    }
    lemma_distinct_bounded(codes, total);
}

/// Taking a node out of the open set leaves every other node settled.
pub(crate) proof fn lemma_take(
    nodes: Seq<AstarNode>,
    rest: Multiset<AstarNode>,
    n: AstarNode,
    m: Mission,
    limit: int,
)
    requires
        arena_ok(nodes, m, limit),
        open_ok(rest.insert(n), nodes),
        settled(nodes, rest.insert(n), m, limit, -1),
    ensures
        open_ok(rest, nodes),
        settled(nodes, rest, m, limit, n.id as int),
        n.id < nodes.len(),
        nodes[n.id as int] == n,
{
    let open = rest.insert(n);
    assert(open.contains(n));
    assert forall|y: AstarNode| #[trigger] rest.contains(y) implies 0 <= y.id < nodes.len()
        && nodes[y.id as int] == y by {
        assert(open.contains(y));
    }
    assert forall|i: int| 0 <= i < nodes.len() && i != n.id implies #[trigger] settled_at(
        nodes,
        rest,
        i,
        m,
        limit,
    ) by {
        assert(settled_at(nodes, open, i, m, limit));
        assert(node_ok(nodes, i, m, limit));
    }
}

/// A freshly generated state joins the arena and the open set: what held
/// before still holds, and what was generated stays generated.
pub(crate) proof fn lemma_grow(
    nodes: Seq<AstarNode>,
    open: Multiset<AstarNode>,
    x: AstarNode,
    m: Mission,
    limit: int,
    skip: int,
)
    requires
        arena_ok(nodes, m, limit),
        open_ok(open, nodes),
        settled(nodes, open, m, limit, skip),
        0 <= skip < nodes.len(),
        node_ok(nodes.push(x), nodes.len() as int, m, limit),
        !reached(nodes, x.point, x.g as int),
    ensures
        arena_ok(nodes.push(x), m, limit),
        open_ok(open.insert(x), nodes.push(x)),
        settled(nodes.push(x), open.insert(x), m, limit, skip),
        reached(nodes.push(x), x.point, x.g as int),
        forall|i: int, p: GridPoint|
            0 <= i < nodes.len() && covered(nodes, i, p, m, limit) ==> #[trigger] covered(
                nodes.push(x),
                i,
                p,
                m,
                limit,
            ),
{
    let more = nodes.push(x);
    let wider = open.insert(x);
    assert forall|i: int| 0 <= i < more.len() implies #[trigger] node_ok(more, i, m, limit) by {
        if i < nodes.len() {
            assert(node_ok(nodes, i, m, limit));
        }
    }
    assert forall|i: int, j: int| 0 <= i < j < more.len() implies !#[trigger] same_state(
        more[i],
        more[j],
    ) by {
        if j < nodes.len() {
            assert(!same_state(nodes[i], nodes[j]));
        } else {
            assert(!sits(nodes[i], x.point, x.g as int));
        }
    }
    assert(sits(more[nodes.len() as int], x.point, x.g as int));
    assert forall|i: int, p: GridPoint|
        0 <= i < nodes.len() && covered(nodes, i, p, m, limit) implies #[trigger] covered(
        more,
        i,
        p,
        m,
        limit,
    ) by {
        if reached(nodes, p, nodes[i].g + 1) {
            let j = choose|j: int|
                0 <= j < nodes.len() && sits(#[trigger] nodes[j], p, nodes[i].g + 1);
            assert(sits(more[j], p, nodes[i].g + 1));
        }
    }
    assert forall|y: AstarNode| #[trigger] wider.contains(y) implies 0 <= y.id < more.len()
        && more[y.id as int] == y by {
        if y != x {
            assert(open.contains(y));
        }
    }
    assert forall|i: int| 0 <= i < more.len() && i != skip implies #[trigger] settled_at(
        more,
        wider,
        i,
        m,
        limit,
    ) by {
        if i < nodes.len() {
            assert(settled_at(nodes, open, i, m, limit));
            if !open.contains(nodes[i]) {
                assert forall|p: GridPoint| #[trigger] covered(more, i, p, m, limit) by {
                    assert(covered(nodes, i, p, m, limit));
                }
            }
        } else {
            assert(wider.contains(more[i]));
        }
    }
}

/// While any arena node stands on a valid path within the limit, some open
/// node has a priority no larger than the cost of that path.
pub(crate) proof fn lemma_frontier(
    nodes: Seq<AstarNode>,
    open: Multiset<AstarNode>,
    m: Mission,
    limit: int,
    path: Seq<GridPoint>,
    j: int,
    i: int,
)
    requires
        arena_ok(nodes, m, limit),
        open_ok(open, nodes),
        settled(nodes, open, m, limit, -1),
        valid_path(m, path),
        path.len() - 1 <= limit,
        0 <= j < path.len(),
        0 <= i < nodes.len(),
        sits(nodes[i], path[j], j),
    ensures
        exists|n: AstarNode| #[trigger] open.contains(n) && n.f <= path.len() - 1,
    decreases path.len() - j,
{
    assert(settled_at(nodes, open, i, m, limit));
    assert(node_ok(nodes, i, m, limit));
    if open.contains(nodes[i]) {
        lemma_admissible(m, path, j);
        assert(nodes[i].f <= path.len() - 1);
    } else {
        assert(j < path.len() - 1);
        assert(step_at(m, path, j));
        assert(covered(nodes, i, path[j + 1], m, limit));
        let next = choose|next: int|
            0 <= next < nodes.len() && sits(#[trigger] nodes[next], path[j + 1], j + 1);
        lemma_frontier(nodes, open, m, limit, path, j + 1, next);
    }
}

/// The cells from the root of the arena down to node `i`.
pub open spec fn trail(nodes: Seq<AstarNode>, i: int) -> Seq<GridPoint>
    decreases i,
{
    if 0 < i < nodes.len() && nodes[i].parent < i {
        trail(nodes, nodes[i].parent as int).push(nodes[i].point)
    } else {
        seq![nodes[i].point]
    }
}

/// The trail of a node is an allowed walk from the start to its cell, one
/// cell per time step.
pub(crate) proof fn lemma_trail(nodes: Seq<AstarNode>, i: int, m: Mission, limit: int)
    requires
        arena_ok(nodes, m, limit),
        0 <= i < nodes.len(),
    ensures
        trail(nodes, i).len() == nodes[i].g + 1,
        trail(nodes, i)[0] == m.start,
        trail(nodes, i)[nodes[i].g as int] == nodes[i].point,
        forall|k: int| 0 <= k < nodes[i].g ==> #[trigger] step_at(m, trail(nodes, i), k),
    decreases i,
{
    assert(node_ok(nodes, i, m, limit));
    if i > 0 {
        let up = nodes[i].parent as int;
        lemma_trail(nodes, up, m, limit);
        let t = trail(nodes, i);
        assert forall|k: int| 0 <= k < nodes[i].g implies #[trigger] step_at(m, t, k) by {
            if k < nodes[up].g {
                assert(step_at(m, trail(nodes, up), k));
            }
        }
    }
}

} // verus!
