//! Goal-oriented action planning over a compact, 64-atom boolean world state.
//!
//! A planner registers named atoms and actions; a search finds a cheapest
//! sequence of actions that leads from a start state to a state satisfying
//! a goal.

pub mod astar;
pub mod bitset;
pub mod goap;
pub mod heuristic;
pub mod model;
pub mod nodes;
pub mod route;

pub use astar::{AStar, AStarPlan};
pub use bitset::BitSetU64;
pub use goap::{ActionPlanner, WorldState, WorldStateFmt};
