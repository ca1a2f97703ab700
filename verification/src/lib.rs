//! Puzzle solvers built around a verified polyomino packing core: shape
//! canonicalization under the 8-element symmetry group, an occupancy grid,
//! a backtracking feasibility search with area pruning, and a region
//! evaluator — together with the smaller verified puzzle routines that
//! share the crate.

pub mod shapes;
pub mod packing;
pub mod repeats;
pub mod joltage;
pub mod floorplan;
pub mod problems;
pub mod worksheet;
pub mod junctions;
pub mod tachyon;
pub mod paper;
