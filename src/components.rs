//! The entities of the sprite-based variant of the game, as plain data.
use vstd::prelude::*;

verus! {

/// Marks a wall sprite.
#[derive(Clone, Copy, Debug, PartialEq, Eq, Structural)]
pub struct Wall;

/// Which pellet a pellet sprite is.
#[derive(Clone, Copy, Debug, PartialEq, Eq, Structural)]
pub enum PelletKind {
    Normal,
    Power,
}

/// A pellet sprite.
#[derive(Clone, Copy, Debug, PartialEq, Eq, Structural)]
pub struct Pellet {
    pub kind: PelletKind,
}

/// A heading, or `Idle` for standing still.
#[derive(Clone, Copy, Debug, PartialEq, Eq, Structural)]
pub enum Direction {
    Up,
    Down,
    Left,
    Right,
    Idle,
}

/// Which of the four ghosts.
#[derive(Clone, Copy, Debug, PartialEq, Eq, Structural)]
pub enum GhostKind {
    Blinky,
    Pinky,
    Inky,
    Clyde,
}

/// What a ghost is doing.
#[derive(Clone, Copy, Debug, PartialEq, Eq, Structural)]
pub enum GhostState {
    Chase,
    Scatter,
    Frightened,
    Eyes,
}

/// A ghost sprite.
#[derive(Clone, Copy, Debug, PartialEq, Eq, Structural)]
pub struct GhostEntity {
    pub kind: GhostKind,
    pub state: GhostState,
}

} // verus!
