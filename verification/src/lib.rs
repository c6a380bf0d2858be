//! A small grid-world engine: layouts, entities, movement, traps, goals,
//! fog of war and line of sight, with the rules stated and proved.

mod chance;
pub mod grid;
pub mod grid_world;
