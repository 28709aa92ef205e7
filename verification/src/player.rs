//! Players, their per-turn actions, and the alive/dead state machine.

use vstd::prelude::*;
use crate::position::Position;

verus! {

/// One of the four moves a player can make on its turn.
#[derive(Debug, Copy, Clone, PartialEq, Eq, Structural)]
pub enum Action {
    Up,
    Down,
    Left,
    Right,
}

/// The row and column deltas an action applies to a position.
pub open spec fn action_delta(a: Action) -> (int, int) {
    match a {
        Action::Up => (-1, 0),
        Action::Down => (1, 0),
        Action::Left => (0, -1),
        Action::Right => (0, 1),
    }
}

/// The order in which controllers try candidate actions: clockwise from Up.
pub open spec fn action_of_index_spec(i: int) -> Action {
    if i == 0 {
        Action::Up
    } else if i == 1 {
        Action::Right
    } else if i == 2 {
        Action::Down
    } else {
        Action::Left
    }
}

/// Returns the `i`-th candidate action, clockwise from Up.
pub fn action_of_index(i: usize) -> (r: Action)
    requires
        i < 4,
    ensures
        r == action_of_index_spec(i as int),
{
    if i == 0 {
        Action::Up
    } else if i == 1 {
        Action::Right
    } else if i == 2 {
        Action::Down
    } else {
        Action::Left
    }
}

impl Action {
    /// Applies the action's deltas to `position`, failing exactly when a
    /// coordinate would become negative.
    pub fn offset_position(&self, position: &Position) -> (r: Result<Position, ()>)
        requires
            position.row < isize::MAX,
            position.column < isize::MAX,
        ensures
            r is Err <==> position.row + action_delta(*self).0 < 0
                || position.column + action_delta(*self).1 < 0,
            r matches Ok(p) ==> p.row == position.row + action_delta(*self).0
                && p.column == position.column + action_delta(*self).1,
    {
        match self {
            Action::Up => position.offset(-1, 0),
            Action::Down => position.offset(1, 0),
            Action::Left => position.offset(0, -1),
            Action::Right => position.offset(0, 1),
        }
    }
}

/// A player is either alive at some position with its counters, or dead.
#[derive(Debug, Copy, Clone, PartialEq, Eq, Structural)]
pub enum PlayerState {
    Alive { position: Position, boost: usize, armor: usize },
    Dead,
}

/// A player: a stable id and its current state.
#[derive(Debug, Copy, Clone, PartialEq, Eq, Structural)]
pub struct Player {
    id: usize,
    state: PlayerState,
}

impl Player {
    /// Spec view of the player's id.
    pub closed spec fn spec_id(self) -> usize {
        self.id
    }

    /// Spec view of the player's state.
    pub closed spec fn spec_state(self) -> PlayerState {
        self.state
    }

    /// A new player, alive at `position` with no boost and no armor.
    pub fn new(id: usize, position: Position) -> (r: Self)
        ensures
            r.spec_id() == id,
            r.spec_state() == (PlayerState::Alive { position, boost: 0, armor: 0 }),
    {
        Player { id, state: PlayerState::Alive { position, boost: 0, armor: 0 } }
    }

    pub fn get_id(&self) -> (r: usize)
        ensures
            r == self.spec_id(),
    {
        self.id
    }

    pub fn get_state(&self) -> (r: PlayerState)
        ensures
            r == self.spec_state(),
    {
        self.state
    }

    pub fn set_state(&mut self, state: PlayerState)
        ensures
            final(self).spec_id() == old(self).spec_id(),
            final(self).spec_state() == state,
    {
        self.state = state;
    }

    /// Adds `duration` to the boost counter. Fails if the player is dead.
    pub fn speed_boost(&mut self, duration: usize) -> (r: Result<(), ()>)
        requires
            old(self).spec_state() matches PlayerState::Alive { boost, .. }
                ==> boost + duration <= usize::MAX,
        ensures
            final(self).spec_id() == old(self).spec_id(),
            r is Err <==> old(self).spec_state() is Dead,
            r is Err ==> final(self).spec_state() == old(self).spec_state(),
            old(self).spec_state() matches PlayerState::Alive { position, boost, armor }
                ==> final(self).spec_state() == (PlayerState::Alive {
                    position,
                    boost: (boost + duration) as usize,
                    armor,
                }),
    {
        match self.get_state() {
            PlayerState::Alive { position, boost, armor } => {
                self.set_state(PlayerState::Alive { position, boost: boost + duration, armor });
                Ok(())
            },
            PlayerState::Dead => Err(()),
        }
    }

    /// Adds one point of armor. Fails if the player is dead.
    pub fn armor_up(&mut self) -> (r: Result<(), ()>)
        requires
            old(self).spec_state() matches PlayerState::Alive { armor, .. }
                ==> armor + 1 <= usize::MAX,
        ensures
            final(self).spec_id() == old(self).spec_id(),
            r is Err <==> old(self).spec_state() is Dead,
            r is Err ==> final(self).spec_state() == old(self).spec_state(),
            old(self).spec_state() matches PlayerState::Alive { position, boost, armor }
                ==> final(self).spec_state() == (PlayerState::Alive {
                    position,
                    boost,
                    armor: (armor + 1) as usize,
                }),
    {
        match self.get_state() {
            PlayerState::Alive { position, boost, armor } => {
                self.set_state(PlayerState::Alive { position, boost, armor: armor + 1 });
                Ok(())
            },
            PlayerState::Dead => Err(()),
        }
    }

    /// One hit of damage: armor absorbs it when positive, otherwise the
    /// player dies. Fails if the player is already dead.
    pub fn take_damage(&mut self) -> (r: Result<(), ()>)
        ensures
            final(self).spec_id() == old(self).spec_id(),
            r is Err <==> old(self).spec_state() is Dead,
            r is Err ==> final(self).spec_state() == old(self).spec_state(),
            old(self).spec_state() matches PlayerState::Alive { position, boost, armor }
                ==> final(self).spec_state() == (if armor > 0 {
                    PlayerState::Alive { position, boost, armor: (armor - 1) as usize }
                } else {
                    PlayerState::Dead
                }),
    {
        match self.get_state() {
            PlayerState::Alive { position, boost, armor } => {
                let new_state = if armor > 0 {
                    PlayerState::Alive { position, boost, armor: armor - 1 }
                } else {
                    PlayerState::Dead
                };
                self.set_state(new_state);
                Ok(())
            },
            PlayerState::Dead => Err(()),
        }
    }
}

} // verus!
