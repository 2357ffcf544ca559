//! A turn-based grid world: a tile map with walls, doors, keys, chips and a
//! goal, an engine that resolves agent actions against it, and a planning
//! agent that finds its way with A*.
use vstd::prelude::*;

pub mod agent;
pub mod environment;
pub mod loader;
pub mod map;
pub mod search;

verus! {

/// Unique identifier for agents.
pub type EntityId = usize;

/// A 2D coordinate of a grid cell.
#[derive(Debug, Clone, Copy, PartialEq, Eq, Structural, Hash)]
pub struct Position {
    pub x: usize,
    pub y: usize,
}

/// The colour of a door or a key.
#[derive(Debug, Clone, Copy, PartialEq, Eq, Structural, Hash)]
pub enum DoorKeyType {
    Red,
    Green,
    Blue,
    Yellow,
}

/// Items that lie on the map or in an agent's inventory.
#[derive(Debug, Clone, Copy, PartialEq, Eq, Structural)]
pub enum Item {
    Key { key_type: DoorKeyType },
    Chip,
    Goal,
}

/// Manhattan distance between two positions, as a mathematical integer.
pub open spec fn manhattan(a: Position, b: Position) -> int {
    (if a.x >= b.x { a.x - b.x } else { b.x - a.x }) + (if a.y >= b.y { a.y - b.y } else { b.y - a.y })
}

} // verus!
