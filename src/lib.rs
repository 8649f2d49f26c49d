//! Movement planning on a tile grid: a multi-source search from a goal
//! region outwards that yields a per-cell direction field, plus the small
//! integer types of the simulation around it.

pub mod entity;
pub mod field;
pub mod frontier;
pub mod ground;
pub mod health;
pub mod path_finder;
pub mod resources;
pub mod team;
pub mod vec;
