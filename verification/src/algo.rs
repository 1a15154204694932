//! The two search levels and the mathematical model their contracts speak of.

/// The arena and open set of the low-level search, and its optimality argument.
pub mod arena;
/// The low-level planner: A* over cells and time steps.
pub mod astar;
/// The high-level planner: conflict-based search.
pub mod cbs;
/// Counting arguments shared by the termination proofs.
pub mod count;
/// Laws that hold of every solution and of every search.
pub mod laws;
/// The priority queue of the low-level search.
pub mod open_set;
/// Joint plans: conflicts, costs, solutions.
pub mod plan;
/// Single-agent paths: constraints, steps, validity.
pub mod route;
/// Why a split loses no solution, and why the high-level search ends.
pub mod tree;
/// The set of states that the low-level search has generated.
pub mod visited;
