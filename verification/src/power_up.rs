//! Power-ups a cell can hold until a player collects it by moving there.

use vstd::prelude::*;

verus! {

/// A collectible placed on a cell, immutable once placed.
#[derive(Debug, Copy, Clone, PartialEq, Eq, Structural)]
pub enum PowerUp {
    /// Grants the collector `duration` extra boost; a player whose boost
    /// counter is positive acts twice per turn.
    DoubleSpeed { duration: usize },
    /// Grants one point of armor, which absorbs one hit of damage.
    Armor,
    /// Detonates on pickup, clearing the surrounding cells.
    Bomb,
}

} // verus!
