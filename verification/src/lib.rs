//! A resource-collection world on a grid: map generation, breadth-first
//! path finding, the decisions of scout and collector robots, the base's
//! stores and the shared knowledge of where resources lie.

pub mod base;
pub mod communication;
pub mod glyphs;
pub mod grid;
pub mod map;
pub mod path;
pub mod posmap;
pub mod random;
pub mod robot;
pub mod simulation;
