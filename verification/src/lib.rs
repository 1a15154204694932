//! Multi-agent path finding on a 4-connected grid.
//!
//! Given a grid with static obstacles and a set of agents, each with a start
//! and a goal cell, the library plans one path per agent such that no two
//! agents are ever in the same cell at the same time and no two exchange
//! cells in one step, with the least sum of path costs. A high-level
//! conflict-based search splits on the earliest conflict of a joint plan; a
//! low-level A* over cells and time steps plans each agent under the
//! constraints that the splits have put on it.
//!
//! Every function is verified against a contract stated over a mathematical
//! model of paths and plans: what `search` returns is a solution of least
//! cost, and it returns nothing only where no solution has a cost that the
//! machine's integers can hold.

pub mod algo;
