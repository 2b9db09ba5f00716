//! Any-angle path search on a bounded grid of passable and blocked cells.
//!
//! A map answers three questions: where its rectangle lies, whether a cell is
//! blocked, and whether two cells see each other along a straight segment.
//! `find_path_impl` looks for a short route between two cells of such a map;
//! `exit_red_zone_impl` leaves a blocked region for a free cell nearby.
//!
//! Costs are fixed-point integers, so every comparison the searches make is
//! exact and the same on every machine.

pub mod errors;
pub mod exit_red_zone;
pub mod find_path;
pub mod grid;
pub mod heap;
pub mod line_of_sight;
pub mod map;
pub mod neighbors;
pub mod open_set;
pub mod point;

pub use crate::exit_red_zone::exit_red_zone_impl;
pub use crate::find_path::find_path_impl;
pub use crate::grid::Grid;
pub use crate::map::{Bounded, GridMap, GridMap2, ObstacleMap};
