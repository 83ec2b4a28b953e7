//! A verified toolkit for dense two-dimensional grids, built around a
//! constrained shortest-path solver: movement across the grid is limited
//! by a maximum run of consecutive steps in one direction and by a
//! minimum run that must be completed before a turn. The solver relaxes
//! a best-cost table over the (position, direction, run) state graph to
//! a fixed point; `paths` proves that the answer it reports is exactly
//! the least cost of any constraint-obeying path.
//!
//! Around that core sit smaller verified utilities on grids, lines and
//! ranges: calibration-digit scanning, pipe-tile connections, star-chart
//! helpers, mirror detection, interval remapping, label hashing and
//! spring-arrangement counting.

pub mod calibration;
pub mod cost;
pub mod cubes;
pub mod galaxies;
pub mod grid;
pub mod hands;
pub mod laws;
pub mod lens;
pub mod lookup;
pub mod mirrors;
pub mod nodes;
pub mod paths;
pub mod pipes;
pub mod ranges;
pub mod schematic;
pub mod solver;
pub mod springs;
