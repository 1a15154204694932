use naive_mapf::algo::astar::{
    build_path, get_neighbor_grid_points, grid_search, heuristic, AstarConstraint, AstarNode,
};
use naive_mapf::algo::cbs::GridPoint;
use naive_mapf::algo::open_set::OpenSet;
use naive_mapf::algo::visited::Visited;

fn pt(x: isize, y: isize) -> GridPoint {
    GridPoint { x, y }
}

fn vertex(p: GridPoint, t: isize) -> AstarConstraint {
    AstarConstraint { point1: p, point2: p, time1: t, time2: t }
}

fn edge(from: GridPoint, to: GridPoint, t: isize) -> AstarConstraint {
    AstarConstraint { point1: from, point2: to, time1: t, time2: t + 1 }
}

/// Checks a path step by step against the rules of the grid.
fn assert_valid(
    path: &[GridPoint],
    start: GridPoint,
    goal: GridPoint,
    obstacles: &[GridPoint],
    constraints: &[AstarConstraint],
    dim_x: isize,
    dim_y: isize,
) {
    assert!(!path.is_empty());
    assert_eq!(path[0], start);
    assert_eq!(path[path.len() - 1], goal);
    for i in 1..path.len() {
        let from = path[i - 1];
        let to = path[i];
        let t = i as isize;
        assert!((from.x - to.x).abs() + (from.y - to.y).abs() <= 1);
        assert!(0 <= to.x && to.x < dim_x && 0 <= to.y && to.y < dim_y);
        assert!(!obstacles.contains(&to));
        for c in constraints {
            if c.time1 == c.time2 {
                assert!(!(c.point1 == to && c.time1 == t));
            } else {
                assert!(!(c.point1 == from && c.point2 == to && c.time2 == t));
            }
        }
    }
}

#[test]
fn astar_test() {
    let start = GridPoint { x: 0, y: 0 };
    let goal = GridPoint { x: 10, y: 10 };
    let result = grid_search(&start, &goal, &[], &[], 100, 100).unwrap();
    assert_eq!(result.cost, 20);
}

#[test]
fn open_grid_path_has_one_cell_per_step() {
    let start = pt(0, 0);
    let goal = pt(10, 10);
    let result = grid_search(&start, &goal, &[], &[], 100, 100).unwrap();
    assert_eq!(result.cost, 20);
    assert_eq!(result.path.len(), 21);
    assert_valid(&result.path, start, goal, &[], &[], 100, 100);
    assert!(result.search_node_cnt >= 20);
}

#[test]
fn trivial_goal_costs_nothing() {
    let start = pt(0, 0);
    let result = grid_search(&start, &start, &[], &[], 100, 100).unwrap();
    assert_eq!(result.cost, 0);
    assert_eq!(result.path, vec![pt(0, 0)]);
    assert_eq!(result.search_node_cnt, 0);
}

#[test]
fn vertex_constraint_delays_by_one_step() {
    let start = pt(0, 0);
    let goal = pt(2, 0);
    let constraints = [vertex(pt(1, 0), 1)];
    let result = grid_search(&start, &goal, &[], &constraints, 100, 100).unwrap();
    // Waiting one step is cheaper than the detour through y = 1.
    assert_eq!(result.cost, 3);
    assert_eq!(result.path.len(), 4);
    assert_ne!(result.path[1], pt(1, 0));
    assert_valid(&result.path, start, goal, &[], &constraints, 100, 100);
}

#[test]
fn vertex_constraint_without_wait_forces_detour() {
    let start = pt(0, 0);
    let goal = pt(2, 0);
    // The middle cell is closed at time 1, and so is waiting at the start.
    let constraints = [vertex(pt(1, 0), 1), vertex(pt(0, 0), 1)];
    let result = grid_search(&start, &goal, &[], &constraints, 100, 100).unwrap();
    assert_eq!(result.cost, 4);
    assert_eq!(result.path.len(), 5);
    assert_eq!(result.path[1], pt(0, 1));
    assert_valid(&result.path, start, goal, &[], &constraints, 100, 100);
}

#[test]
fn edge_constraint_delays_by_one_step() {
    let start = pt(0, 0);
    let goal = pt(1, 0);
    let constraints = [edge(pt(0, 0), pt(1, 0), 0)];
    let result = grid_search(&start, &goal, &[], &constraints, 100, 100).unwrap();
    // Waiting once and then moving takes two steps: a path of three cells.
    assert_eq!(result.cost, 2);
    assert_eq!(result.path.len(), 3);
    assert_eq!(result.path, vec![pt(0, 0), pt(0, 0), pt(1, 0)]);
}

#[test]
fn edge_constraint_binds_only_its_time() {
    let start = pt(0, 0);
    let goal = pt(1, 0);
    let constraints = [edge(pt(0, 0), pt(1, 0), 1)];
    let result = grid_search(&start, &goal, &[], &constraints, 100, 100).unwrap();
    assert_eq!(result.cost, 1);
    assert_eq!(result.path, vec![pt(0, 0), pt(1, 0)]);
}

#[test]
fn enclosed_goal_has_no_path() {
    let start = pt(0, 0);
    let goal = pt(2, 2);
    let obstacles = [pt(1, 2), pt(3, 2), pt(2, 1), pt(2, 3)];
    assert!(grid_search(&start, &goal, &obstacles, &[], 5, 5).is_none());
}

#[test]
fn goal_on_obstacle_has_no_path() {
    let start = pt(0, 0);
    let goal = pt(1, 0);
    assert!(grid_search(&start, &goal, &[goal], &[], 3, 3).is_none());
}

#[test]
fn goal_out_of_bounds_has_no_path() {
    assert!(grid_search(&pt(0, 0), &pt(3, 0), &[], &[], 3, 3).is_none());
}

#[test]
fn wall_forces_detour() {
    let start = pt(0, 0);
    let goal = pt(2, 0);
    let obstacles = [pt(1, 0), pt(1, 1)];
    let result = grid_search(&start, &goal, &obstacles, &[], 3, 3).unwrap();
    assert_eq!(result.cost, 6);
    assert_eq!(
        result.path,
        vec![pt(0, 0), pt(0, 1), pt(0, 2), pt(1, 2), pt(2, 2), pt(2, 1), pt(2, 0)]
    );
}

#[test]
fn constraint_after_arrival_changes_nothing() {
    let start = pt(0, 0);
    let goal = pt(1, 0);
    let constraints = [vertex(pt(1, 0), 5)];
    let result = grid_search(&start, &goal, &[], &constraints, 2, 1).unwrap();
    assert_eq!(result.cost, 1);
}

#[test]
fn corridor_closed_for_a_while_is_waited_out() {
    let start = pt(0, 0);
    let goal = pt(2, 0);
    let constraints = [vertex(pt(1, 0), 1), vertex(pt(1, 0), 2), vertex(pt(1, 0), 3)];
    let result = grid_search(&start, &goal, &[], &constraints, 3, 1).unwrap();
    assert_eq!(result.cost, 5);
    assert_eq!(
        result.path,
        vec![pt(0, 0), pt(0, 0), pt(0, 0), pt(0, 0), pt(1, 0), pt(2, 0)]
    );
}

#[test]
fn heuristic_is_manhattan_distance() {
    assert_eq!(heuristic(&pt(0, 0), &pt(10, 10)), 20);
    assert_eq!(heuristic(&pt(3, 7), &pt(1, 9)), 4);
    assert_eq!(heuristic(&pt(-2, 5), &pt(4, -1)), 12);
    assert_eq!(heuristic(&pt(4, 4), &pt(4, 4)), 0);
}

#[test]
fn heuristic_stops_at_the_largest_value() {
    assert_eq!(heuristic(&pt(isize::MIN, 0), &pt(isize::MAX, 0)), isize::MAX);
    assert_eq!(heuristic(&pt(0, 0), &pt(isize::MAX, 1)), isize::MAX);
    assert_eq!(heuristic(&pt(0, 0), &pt(isize::MAX, 0)), isize::MAX);
    assert_eq!(heuristic(&pt(1, 0), &pt(isize::MAX, 0)), isize::MAX - 1);
}

#[test]
fn neighbors_are_wait_left_down_right_up() {
    let around = get_neighbor_grid_points(&pt(4, 7));
    assert_eq!(
        around,
        vec![(pt(4, 7), 1), (pt(3, 7), 1), (pt(4, 6), 1), (pt(5, 7), 1), (pt(4, 8), 1)]
    );
}

#[test]
fn dummy_node_is_all_zero() {
    let n = AstarNode::dummy();
    assert_eq!(n.id, 0);
    assert_eq!(n.f, 0);
    assert_eq!(n.g, 0);
    assert_eq!(n.h, 0);
    assert_eq!(n.point, pt(0, 0));
    assert_eq!(n.parent, 0);
}

#[test]
fn open_set_prefers_small_f_then_large_h() {
    let base = AstarNode::dummy();
    let a = AstarNode { f: 5, h: 2, ..base };
    let b = AstarNode { f: 6, h: 4, ..base };
    let c = AstarNode { f: 5, h: 3, ..base };
    assert!(a.goes_before(&b));
    assert!(!b.goes_before(&a));
    assert!(c.goes_before(&a));
    assert!(!a.goes_before(&c));
    assert!(!a.goes_before(&a));
}

#[test]
fn build_path_follows_parents_from_the_root() {
    let node = |id: usize, g: isize, point: GridPoint, parent: usize| AstarNode {
        id,
        f: g,
        g,
        h: 0,
        point,
        parent,
    };
    let nodes = vec![
        node(0, 0, pt(0, 0), 0),
        node(1, 1, pt(1, 0), 0),
        node(2, 1, pt(0, 1), 0),
        node(3, 2, pt(1, 1), 2),
    ];
    assert_eq!(build_path(&nodes[3], &nodes), vec![pt(0, 0), pt(0, 1), pt(1, 1)]);
    assert_eq!(build_path(&nodes[1], &nodes), vec![pt(0, 0), pt(1, 0)]);
    assert_eq!(build_path(&nodes[0], &nodes), vec![pt(0, 0)]);
}

#[test]
fn open_set_hands_out_nodes_in_order() {
    let base = AstarNode::dummy();
    let keys = [(7, 1), (5, 2), (9, 0), (5, 4), (6, 6), (5, 3), (7, 7), (4, 0)];
    let mut open = OpenSet::new();
    assert_eq!(open.len(), 0);
    for (id, (f, h)) in keys.iter().enumerate() {
        open.push(AstarNode { id, f: *f, h: *h, ..base });
    }
    assert_eq!(open.len(), 8);
    let mut order = Vec::new();
    while open.len() > 0 {
        let n = open.pop();
        order.push((n.f, n.h, n.id));
    }
    assert_eq!(
        order,
        vec![
            (4, 0, 7),
            (5, 4, 3),
            (5, 3, 5),
            (5, 2, 1),
            (6, 6, 4),
            (7, 7, 6),
            (7, 1, 0),
            (9, 0, 2)
        ]
    );
}

#[test]
fn open_set_keeps_equal_nodes_apart() {
    let base = AstarNode::dummy();
    let mut open = OpenSet::new();
    open.push(AstarNode { f: 3, ..base });
    open.push(AstarNode { f: 3, ..base });
    open.push(AstarNode { f: 1, ..base });
    assert_eq!(open.len(), 3);
    assert_eq!(open.pop().f, 1);
    assert_eq!(open.pop().f, 3);
    assert_eq!(open.pop().f, 3);
    assert_eq!(open.len(), 0);
}

#[test]
fn visited_set_tells_cells_and_times_apart() {
    let mut seen = Visited::new();
    assert!(!seen.contains(0, 0));
    seen.insert(3, 5);
    seen.insert(3, 6);
    seen.insert(4, 5);
    seen.insert(3, 5);
    assert!(seen.contains(3, 5));
    assert!(seen.contains(3, 6));
    assert!(seen.contains(4, 5));
    assert!(!seen.contains(4, 6));
    assert!(!seen.contains(5, 5));
    assert!(!seen.contains(3, 4));
    seen.insert(u128::MAX, isize::MIN);
    assert!(seen.contains(u128::MAX, isize::MIN));
    assert!(!seen.contains(u128::MAX, isize::MAX));
}

#[test]
fn state_is_expanded_once_however_often_it_is_reached() {
    // Every cell of the open grid can be reached in many ways; the number of
    // generated nodes stays below the number of cells times the number of
    // times looked at: the 49 steps after time zero, and time zero.
    let result = grid_search(&pt(0, 0), &pt(6, 6), &[], &[], 7, 7).unwrap();
    assert_eq!(result.cost, 12);
    assert!(result.search_node_cnt >= 12);
    assert!(result.search_node_cnt < 7 * 7 * 50);
}

#[test]
fn search_without_a_path_stops_in_a_large_grid() {
    let obstacles = [pt(1, 0), pt(0, 1)];
    assert!(grid_search(&pt(0, 0), &pt(9, 9), &obstacles, &[], 10, 10).is_none());
}
