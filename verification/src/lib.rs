//! Simulation core of a small colony game: the tile world, grid search,
//! world generation and the rules that drive colonists and buildings.

pub mod colony;
pub mod connectivity;
pub mod events;
pub mod generation;
pub mod mask;
pub mod pathfinding;
pub mod random;
pub mod text;
pub mod world;
