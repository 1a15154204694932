use naive_mapf::algo::cbs::{
    longest_path, Cbs, CbsConflict, CbsConstraint, CbsHNode, EnvironmentError, GridEnvironment,
    GridPoint,
};

fn pt(x: isize, y: isize) -> GridPoint {
    GridPoint { x, y }
}

fn row(cells: &[isize]) -> Vec<GridPoint> {
    cells.iter().map(|x| pt(*x, 0)).collect()
}

fn node_with(paths: Vec<Vec<GridPoint>>) -> CbsHNode {
    let mut node = CbsHNode::dummy();
    node.cost = paths.iter().map(|p| p.len() as isize - 1).collect();
    node.cost_sum = node.cost.iter().sum();
    node.path_table = paths;
    node
}

fn swap_env() -> GridEnvironment {
    GridEnvironment {
        number_of_agents: 2,
        start_points: vec![GridPoint { x: 0, y: 0 }, GridPoint { x: 10, y: 0 }],
        goal_points: vec![GridPoint { x: 10, y: 0 }, GridPoint { x: 0, y: 0 }],
        dim_x: 100,
        dim_y: 100,
        obstacles: vec![],
    }
}

/// Checks a plan against the environment: each path by the rules of the
/// grid, and each pair of paths for shared cells and exchanges.
fn assert_solves(env: &GridEnvironment, table: &[Vec<GridPoint>]) {
    assert_eq!(table.len(), env.number_of_agents);
    for (a, path) in table.iter().enumerate() {
        assert_eq!(path[0], env.start_points[a]);
        assert_eq!(path[path.len() - 1], env.goal_points[a]);
        for i in 0..path.len() {
            let p = path[i];
            assert!(0 <= p.x && p.x < env.dim_x && 0 <= p.y && p.y < env.dim_y);
            assert!(!env.obstacles.contains(&p));
            if i > 0 {
                let q = path[i - 1];
                assert!((p.x - q.x).abs() + (p.y - q.y).abs() <= 1);
            }
        }
    }
    for a in 0..table.len() {
        for b in 0..table.len() {
            if a == b {
                continue;
            }
            let (pa, pb) = (&table[a], &table[b]);
            for t in 0..pa.len().min(pb.len()) {
                assert_ne!(pa[t], pb[t]);
                if t + 1 < pa.len() && t + 1 < pb.len() {
                    assert!(!(pa[t] == pb[t + 1] && pb[t] == pa[t + 1]));
                }
            }
        }
    }
}

#[test]
fn cbs_test() {
    let env = GridEnvironment {
        number_of_agents: 2,
        start_points: vec![GridPoint { x: 0, y: 0 }, GridPoint { x: 10, y: 0 }],
        goal_points: vec![GridPoint { x: 10, y: 0 }, GridPoint { x: 0, y: 0 }],
        dim_x: 100,
        dim_y: 100,
        obstacles: vec![],
    };
    let mut cbs = Cbs::new(env);
    let result = cbs.search().unwrap();

    assert_eq!(result.cost_sum, 22)
}

#[test]
fn head_on_swap_plan_is_a_solution() {
    let env = swap_env();
    let mut cbs = Cbs::new(env.clone());
    let result = cbs.search().unwrap();
    assert_solves(&env, &result.path_table);
    let steps: usize = result.path_table.iter().map(|p| p.len() - 1).sum();
    assert_eq!(steps, 22);
    assert_eq!(result.cost_sum, 22);
    let longest = result.path_table.iter().map(|p| p.len()).max().unwrap();
    assert_eq!(result.makespan, longest);
    assert!(result.conflict_cnt >= 1);
    assert!(result.high_level_node_cnt >= 1);
    assert!(result.low_level_node_cnt >= 1);
}

#[test]
fn search_twice_gives_the_same_cost() {
    let first = Cbs::new(swap_env()).search().unwrap();
    let second = Cbs::new(swap_env()).search().unwrap();
    assert_eq!(first.cost_sum, second.cost_sum);
    let mut cbs = Cbs::new(swap_env());
    let third = cbs.search().unwrap();
    let fourth = cbs.search().unwrap();
    assert_eq!(third.cost_sum, fourth.cost_sum);
    assert_eq!(first.cost_sum, third.cost_sum);
}

fn reflected(env: &GridEnvironment, left_right: bool, bottom_top: bool) -> GridEnvironment {
    let flip = |p: &GridPoint| {
        pt(
            if left_right { env.dim_x - 1 - p.x } else { p.x },
            if bottom_top { env.dim_y - 1 - p.y } else { p.y },
        )
    };
    GridEnvironment {
        number_of_agents: env.number_of_agents,
        start_points: env.start_points.iter().map(flip).collect(),
        goal_points: env.goal_points.iter().map(flip).collect(),
        dim_x: env.dim_x,
        dim_y: env.dim_y,
        obstacles: env.obstacles.iter().map(flip).collect(),
    }
}

#[test]
fn mirrored_environment_costs_the_same() {
    let env = GridEnvironment {
        number_of_agents: 2,
        start_points: vec![pt(0, 0), pt(4, 1)],
        goal_points: vec![pt(4, 0), pt(0, 0)],
        dim_x: 5,
        dim_y: 3,
        obstacles: vec![pt(2, 1), pt(1, 2)],
    };
    let plain = Cbs::new(env.clone()).search().unwrap();
    assert_eq!(plain.cost_sum, 11);
    for (left_right, bottom_top) in [(true, false), (false, true), (true, true)] {
        let other = reflected(&env, left_right, bottom_top);
        assert_eq!(Cbs::new(other).search().unwrap().cost_sum, 11);
    }
}

#[test]
fn mirror_that_swaps_starts_with_goals_keeps_the_cost() {
    // In a grid eleven cells wide the mirror image of each start is the goal.
    let env = GridEnvironment {
        number_of_agents: 2,
        start_points: vec![pt(0, 0), pt(10, 0)],
        goal_points: vec![pt(10, 0), pt(0, 0)],
        dim_x: 11,
        dim_y: 3,
        obstacles: vec![pt(4, 1)],
    };
    let other = reflected(&env, true, false);
    assert_eq!(other.start_points, env.goal_points);
    assert_eq!(other.goal_points, env.start_points);
    assert_eq!(other.obstacles, vec![pt(6, 1)]);
    let plain = Cbs::new(env).search().unwrap();
    let image = Cbs::new(other).search().unwrap();
    assert_eq!(plain.cost_sum, 22);
    assert_eq!(image.cost_sum, 22);
}

#[test]
fn swapping_starts_with_goals_alone_can_leave_no_plan() {
    // The second agent reaches the shared goal first and is gone when the
    // first arrives; the other way round both would start in one cell.
    let env = GridEnvironment {
        number_of_agents: 2,
        start_points: vec![pt(0, 0), pt(1, 0)],
        goal_points: vec![pt(2, 0), pt(2, 0)],
        dim_x: 3,
        dim_y: 1,
        obstacles: vec![],
    };
    let back = GridEnvironment {
        number_of_agents: 2,
        start_points: vec![pt(2, 0), pt(2, 0)],
        goal_points: vec![pt(0, 0), pt(1, 0)],
        dim_x: 3,
        dim_y: 1,
        obstacles: vec![],
    };
    assert_eq!(Cbs::new(env).search().unwrap().cost_sum, 3);
    assert!(Cbs::new(back).search().is_none());
}

#[test]
fn swapped_starts_and_goals_cost_the_same_for_one_agent() {
    let env = GridEnvironment {
        number_of_agents: 1,
        start_points: vec![pt(0, 0)],
        goal_points: vec![pt(2, 0)],
        dim_x: 3,
        dim_y: 3,
        obstacles: vec![pt(1, 0), pt(1, 1)],
    };
    let back = GridEnvironment {
        number_of_agents: 1,
        start_points: vec![pt(2, 0)],
        goal_points: vec![pt(0, 0)],
        dim_x: 3,
        dim_y: 3,
        obstacles: vec![pt(1, 0), pt(1, 1)],
    };
    let there = Cbs::new(env).search().unwrap();
    let again = Cbs::new(back).search().unwrap();
    assert_eq!(there.cost_sum, 6);
    assert_eq!(again.cost_sum, 6);
}

#[test]
fn single_agent_plan_is_its_shortest_path() {
    let env = GridEnvironment {
        number_of_agents: 1,
        start_points: vec![pt(0, 0)],
        goal_points: vec![pt(3, 2)],
        dim_x: 4,
        dim_y: 4,
        obstacles: vec![],
    };
    let result = Cbs::new(env.clone()).search().unwrap();
    assert_eq!(result.cost_sum, 5);
    assert_eq!(result.makespan, 6);
    assert_eq!(result.conflict_cnt, 0);
    assert_eq!(result.high_level_node_cnt, 0);
    assert_eq!(result.low_level_node_cnt, 0);
    assert_solves(&env, &result.path_table);
}

#[test]
fn enclosed_goal_gives_no_plan() {
    let env = GridEnvironment {
        number_of_agents: 2,
        start_points: vec![pt(0, 0), pt(4, 4)],
        goal_points: vec![pt(2, 2), pt(4, 0)],
        dim_x: 5,
        dim_y: 5,
        obstacles: vec![pt(1, 2), pt(3, 2), pt(2, 1), pt(2, 3)],
    };
    assert!(CbsHNode::get_initial(&env).is_none());
    assert!(Cbs::new(env).search().is_none());
}

#[test]
fn shared_start_gives_no_plan() {
    let env = GridEnvironment {
        number_of_agents: 2,
        start_points: vec![pt(0, 0), pt(0, 0)],
        goal_points: vec![pt(2, 0), pt(0, 2)],
        dim_x: 3,
        dim_y: 3,
        obstacles: vec![],
    };
    assert!(Cbs::new(env).search().is_none());
}

#[test]
fn agent_that_has_arrived_is_in_nobodys_way() {
    // The first agent is done after one step; the second then crosses its goal.
    let env = GridEnvironment {
        number_of_agents: 2,
        start_points: vec![pt(1, 0), pt(0, 0)],
        goal_points: vec![pt(2, 0), pt(3, 0)],
        dim_x: 4,
        dim_y: 1,
        obstacles: vec![],
    };
    let result = Cbs::new(env.clone()).search().unwrap();
    assert_eq!(result.cost_sum, 4);
    assert_eq!(result.makespan, 4);
    assert_eq!(result.path_table, vec![row(&[1, 2]), row(&[0, 1, 2, 3])]);
    assert_solves(&env, &result.path_table);
}

#[test]
fn corridor_with_a_bay_lets_two_agents_pass() {
    let env = GridEnvironment {
        number_of_agents: 2,
        start_points: vec![pt(0, 0), pt(2, 0)],
        goal_points: vec![pt(2, 0), pt(0, 0)],
        dim_x: 3,
        dim_y: 2,
        obstacles: vec![pt(0, 1), pt(2, 1)],
    };
    let result = Cbs::new(env.clone()).search().unwrap();
    assert_solves(&env, &result.path_table);
    // One agent steps into the bay and out again while the other waits one step.
    assert_eq!(result.cost_sum, 7);
    assert_eq!(result.makespan, 5);
}

#[test]
fn initial_node_plans_each_agent_alone() {
    let node = CbsHNode::get_initial(&swap_env()).unwrap();
    assert!(node.constraints.is_empty());
    assert_eq!(node.cost, vec![10, 10]);
    assert_eq!(node.cost_sum, 20);
    assert_eq!(node.path_table[0], row(&[0, 1, 2, 3, 4, 5, 6, 7, 8, 9, 10]));
    assert_eq!(node.path_table[1], row(&[10, 9, 8, 7, 6, 5, 4, 3, 2, 1, 0]));
}

#[test]
fn dummy_node_is_empty() {
    let node = CbsHNode::dummy();
    assert!(node.cost.is_empty());
    assert_eq!(node.cost_sum, 0);
    assert!(node.constraints.is_empty());
    assert!(node.path_table.is_empty());
}

#[test]
fn first_conflict_is_the_shared_cell() {
    let node = node_with(vec![row(&[0, 1, 2, 3, 4]), row(&[4, 3, 2, 1, 0])]);
    let c = node.find_first_conflict().unwrap();
    assert_eq!((c.agent1, c.agent2), (0, 1));
    assert_eq!((c.point1, c.point2), (pt(2, 0), pt(2, 0)));
    assert_eq!((c.time1, c.time2), (2, 2));
}

#[test]
fn first_conflict_is_the_exchange() {
    let node = node_with(vec![row(&[0, 1, 2, 3]), row(&[3, 2, 1, 0])]);
    let c = node.find_first_conflict().unwrap();
    assert_eq!((c.agent1, c.agent2), (0, 1));
    assert_eq!((c.point1, c.point2), (pt(1, 0), pt(2, 0)));
    assert_eq!((c.time1, c.time2), (1, 2));
}

#[test]
fn shared_cell_comes_before_exchange_at_the_same_time() {
    // At time 1 agents 0 and 1 have exchanged cells, and agents 2 and 3 share one.
    let node = node_with(vec![row(&[0, 1]), row(&[1, 0]), row(&[5, 6]), row(&[7, 6])]);
    let c = node.find_first_conflict().unwrap();
    assert_eq!((c.agent1, c.agent2), (2, 3));
    assert_eq!((c.time1, c.time2), (1, 1));
    assert_eq!(c.point1, pt(6, 0));
}

#[test]
fn earlier_exchange_comes_before_later_shared_cell() {
    let node = node_with(vec![
        row(&[0, 1, 1]),
        row(&[1, 0, 0]),
        row(&[5, 6, 7]),
        row(&[9, 8, 7]),
    ]);
    let c = node.find_first_conflict().unwrap();
    assert_eq!((c.agent1, c.agent2), (0, 1));
    assert_eq!((c.time1, c.time2), (0, 1));
    assert_eq!((c.point1, c.point2), (pt(0, 0), pt(1, 0)));
}

#[test]
fn pairs_are_scanned_in_agent_order() {
    let node = node_with(vec![row(&[0, 3]), row(&[1, 4]), row(&[2, 4]), row(&[5, 3])]);
    let c = node.find_first_conflict().unwrap();
    assert_eq!((c.agent1, c.agent2), (0, 3));
    assert_eq!(c.point1, pt(3, 0));
}

#[test]
fn ended_path_does_not_conflict() {
    let node = node_with(vec![row(&[1, 2]), row(&[0, 1, 2, 3])]);
    assert!(node.find_first_conflict().is_none());
}

#[test]
fn disjoint_paths_do_not_conflict() {
    let node = node_with(vec![row(&[0, 1, 2]), row(&[1, 2, 3])]);
    assert!(node.find_first_conflict().is_none());
    assert!(CbsHNode::dummy().find_first_conflict().is_none());
}

#[test]
fn split_on_shared_cell_binds_each_agent_to_the_cell() {
    let node = node_with(vec![row(&[0, 1, 2]), row(&[2, 1, 0])]);
    let conflict = CbsConflict {
        agent1: 0,
        agent2: 1,
        point1: pt(1, 0),
        point2: pt(1, 0),
        time1: 1,
        time2: 1,
    };
    let (left, right) = node.split_on_conflict(conflict);
    assert_eq!(
        left.constraints,
        vec![CbsConstraint { agent: 0, point1: pt(1, 0), point2: pt(1, 0), time1: 1, time2: 1 }]
    );
    assert_eq!(
        right.constraints,
        vec![CbsConstraint { agent: 1, point1: pt(1, 0), point2: pt(1, 0), time1: 1, time2: 1 }]
    );
    assert_eq!(left.path_table, node.path_table);
    assert_eq!(right.path_table, node.path_table);
    assert_eq!(left.cost, node.cost);
    assert_eq!(right.cost_sum, node.cost_sum);
    assert!(node.constraints.is_empty());
}

#[test]
fn split_on_exchange_reverses_the_edge_for_the_second_agent() {
    let node = node_with(vec![row(&[0, 1]), row(&[1, 0])]);
    let conflict = CbsConflict {
        agent1: 0,
        agent2: 1,
        point1: pt(0, 0),
        point2: pt(1, 0),
        time1: 0,
        time2: 1,
    };
    let (left, right) = node.split_on_conflict(conflict);
    assert_eq!(
        left.constraints,
        vec![CbsConstraint { agent: 0, point1: pt(0, 0), point2: pt(1, 0), time1: 0, time2: 1 }]
    );
    assert_eq!(
        right.constraints,
        vec![CbsConstraint { agent: 1, point1: pt(1, 0), point2: pt(0, 0), time1: 0, time2: 1 }]
    );
}

#[test]
fn constraint_is_not_added_twice() {
    let c = CbsConstraint { agent: 0, point1: pt(1, 0), point2: pt(1, 0), time1: 1, time2: 1 };
    let d = CbsConstraint { agent: 1, point1: pt(1, 0), point2: pt(1, 0), time1: 1, time2: 1 };
    let mut node = CbsHNode::dummy();
    node.add_constraint(c);
    node.add_constraint(d);
    node.add_constraint(c);
    assert_eq!(node.constraints, vec![c, d]);
    let conflict = CbsConflict {
        agent1: 0,
        agent2: 1,
        point1: pt(1, 0),
        point2: pt(1, 0),
        time1: 1,
        time2: 1,
    };
    let (left, right) = node.split_on_conflict(conflict);
    assert_eq!(left.constraints, vec![c, d]);
    assert_eq!(right.constraints, vec![c, d]);
}

#[test]
fn replica_holds_the_same_values() {
    let mut node = node_with(vec![row(&[0, 1]), row(&[3, 2])]);
    node.add_constraint(CbsConstraint {
        agent: 1,
        point1: pt(2, 0),
        point2: pt(2, 0),
        time1: 1,
        time2: 1,
    });
    let copy = node.replica();
    assert_eq!(copy.cost, node.cost);
    assert_eq!(copy.cost_sum, node.cost_sum);
    assert_eq!(copy.constraints, node.constraints);
    assert_eq!(copy.path_table, node.path_table);
}

#[test]
fn path_table_is_planned_under_the_constraints() {
    let env = swap_env();
    let mut node = CbsHNode::dummy();
    node.add_constraint(CbsConstraint {
        agent: 0,
        point1: pt(5, 0),
        point2: pt(5, 0),
        time1: 5,
        time2: 5,
    });
    let generated = node.calc_path_table(&env).unwrap();
    assert!(generated >= 21);
    assert_eq!(node.cost, vec![11, 10]);
    assert_eq!(node.cost_sum, 21);
    assert_eq!(node.path_table[0].len(), 12);
    assert_ne!(node.path_table[0][5], pt(5, 0));
    assert_eq!(node.path_table[1], row(&[10, 9, 8, 7, 6, 5, 4, 3, 2, 1, 0]));
    assert_eq!(node.constraints.len(), 1);
}

#[test]
fn failed_planning_leaves_the_node_alone() {
    let env = GridEnvironment {
        number_of_agents: 2,
        start_points: vec![pt(0, 0), pt(1, 0)],
        goal_points: vec![pt(1, 0), pt(2, 2)],
        dim_x: 5,
        dim_y: 5,
        obstacles: vec![pt(1, 2), pt(3, 2), pt(2, 1), pt(2, 3)],
    };
    let mut node = node_with(vec![row(&[7]), row(&[8, 9])]);
    assert!(node.calc_path_table(&env).is_none());
    assert_eq!(node.path_table, vec![row(&[7]), row(&[8, 9])]);
    assert_eq!(node.cost, vec![0, 1]);
    assert_eq!(node.cost_sum, 1);
}

#[test]
fn constraint_time_beyond_the_planner_range_binds_nothing() {
    let env = swap_env();
    let mut node = CbsHNode::dummy();
    node.add_constraint(CbsConstraint {
        agent: 0,
        point1: pt(1, 0),
        point2: pt(1, 0),
        time1: usize::MAX,
        time2: usize::MAX,
    });
    node.calc_path_table(&env).unwrap();
    assert_eq!(node.cost, vec![10, 10]);
}

#[test]
fn longest_path_is_the_makespan() {
    assert_eq!(longest_path(&vec![row(&[0, 1]), row(&[4, 3, 2, 1]), row(&[7])]), 4);
    assert_eq!(longest_path(&vec![]), 0);
}

#[test]
fn valid_fields_make_an_environment() {
    let env = GridEnvironment::new(
        2,
        vec![pt(0, 0), pt(10, 0)],
        vec![pt(10, 0), pt(0, 0)],
        100,
        100,
        vec![pt(5, 5)],
    )
    .unwrap();
    assert_eq!(env.number_of_agents, 2);
    assert_eq!(env.start_points, vec![pt(0, 0), pt(10, 0)]);
    assert_eq!(env.goal_points, vec![pt(10, 0), pt(0, 0)]);
    assert_eq!((env.dim_x, env.dim_y), (100, 100));
    assert_eq!(env.obstacles, vec![pt(5, 5)]);
    assert_eq!(env.validate(), Ok(()));
    assert_eq!(Cbs::new(env).search().unwrap().cost_sum, 22);
}

#[test]
fn environment_without_agents_is_rejected() {
    let r = GridEnvironment::new(0, vec![], vec![], 3, 3, vec![]);
    assert_eq!(r.err(), Some(EnvironmentError::NoAgents));
}

#[test]
fn environment_with_missing_points_is_rejected() {
    let r = GridEnvironment::new(2, vec![pt(0, 0)], vec![pt(1, 0), pt(2, 0)], 3, 3, vec![]);
    assert_eq!(r.err(), Some(EnvironmentError::LengthMismatch));
    let r = GridEnvironment::new(1, vec![pt(0, 0)], vec![pt(1, 0), pt(2, 0)], 3, 3, vec![]);
    assert_eq!(r.err(), Some(EnvironmentError::LengthMismatch));
}

#[test]
fn environment_with_point_outside_is_rejected() {
    let r = GridEnvironment::new(1, vec![pt(3, 0)], vec![pt(1, 0)], 3, 3, vec![]);
    assert_eq!(r.err(), Some(EnvironmentError::OutOfBounds));
    let r = GridEnvironment::new(1, vec![pt(0, 0)], vec![pt(1, -1)], 3, 3, vec![]);
    assert_eq!(r.err(), Some(EnvironmentError::OutOfBounds));
    let r = GridEnvironment::new(1, vec![pt(0, 0)], vec![pt(0, 0)], 0, 3, vec![]);
    assert_eq!(r.err(), Some(EnvironmentError::OutOfBounds));
}

#[test]
fn environment_with_point_on_obstacle_is_rejected() {
    let r = GridEnvironment::new(1, vec![pt(0, 0)], vec![pt(1, 0)], 3, 3, vec![pt(1, 0)]);
    assert_eq!(r.err(), Some(EnvironmentError::OnObstacle));
    let r = GridEnvironment::new(1, vec![pt(2, 2)], vec![pt(1, 0)], 3, 3, vec![pt(0, 1), pt(2, 2)]);
    assert_eq!(r.err(), Some(EnvironmentError::OnObstacle));
}

#[test]
fn out_of_bounds_is_reported_before_obstacles() {
    let r = GridEnvironment::new(1, vec![pt(0, 0)], vec![pt(5, 0)], 3, 3, vec![pt(0, 0)]);
    assert_eq!(r.err(), Some(EnvironmentError::OutOfBounds));
}

#[test]
fn four_agents_cross_in_the_middle() {
    let env = GridEnvironment {
        number_of_agents: 4,
        start_points: vec![pt(0, 2), pt(4, 2), pt(2, 0), pt(2, 4)],
        goal_points: vec![pt(4, 2), pt(0, 2), pt(2, 4), pt(2, 0)],
        dim_x: 5,
        dim_y: 5,
        obstacles: vec![],
    };
    let result = Cbs::new(env.clone()).search().unwrap();
    assert_solves(&env, &result.path_table);
    assert_eq!(result.cost_sum, 21);
    let steps: usize = result.path_table.iter().map(|p| p.len() - 1).sum();
    assert_eq!(steps, 21);
    assert!(result.high_level_node_cnt <= 2 * result.conflict_cnt);
}

#[test]
fn three_agents_round_the_obstacles() {
    let env = GridEnvironment {
        number_of_agents: 3,
        start_points: vec![pt(0, 0), pt(3, 0), pt(0, 3)],
        goal_points: vec![pt(3, 3), pt(0, 3), pt(3, 0)],
        dim_x: 4,
        dim_y: 4,
        obstacles: vec![pt(1, 1), pt(2, 2)],
    };
    let result = Cbs::new(env.clone()).search().unwrap();
    assert_solves(&env, &result.path_table);
    assert_eq!(result.cost_sum, 18);
    assert_eq!(result.makespan, 7);
}

#[test]
fn three_agents_share_a_crossing() {
    let env = GridEnvironment {
        number_of_agents: 3,
        start_points: vec![pt(0, 1), pt(4, 1), pt(2, 0)],
        goal_points: vec![pt(4, 1), pt(0, 1), pt(2, 2)],
        dim_x: 5,
        dim_y: 3,
        obstacles: vec![pt(1, 0), pt(3, 0), pt(1, 2), pt(3, 2)],
    };
    let result = Cbs::new(env.clone()).search().unwrap();
    assert_solves(&env, &result.path_table);
    assert_eq!(result.cost_sum, 13);
}
