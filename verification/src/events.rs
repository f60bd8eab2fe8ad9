//! Plain value types shared by the simulation and its host.

use vstd::prelude::*;

verus! {

/// Terrain of one grid cell.
#[derive(Clone, Copy, Debug, PartialEq, Eq, Structural)]
pub enum TileType {
    Water,
    Sand,
    Grass,
}

/// Kinds of building a player can place.
#[derive(Clone, Copy, Debug, PartialEq, Eq, Structural)]
pub enum BuildingType {
    Wall,
    Bed,
    BerryBush,
}

/// What a colonist is currently doing.
#[derive(Clone, Copy, Debug, PartialEq, Eq, Structural)]
pub enum ColonistTask {
    Idle,
    MovingToFood,
    Eating,
    MovingToBed,
    Sleeping,
    Wandering,
}

/// A building as it appears in a world snapshot.
#[derive(Clone, Copy, Debug, PartialEq, Eq, Structural)]
pub struct BuildingState {
    pub id: u32,
    pub building_type: BuildingType,
    pub x: i32,
    pub y: i32,
}

} // verus!
