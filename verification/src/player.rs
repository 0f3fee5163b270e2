//! Players and their per-game bookkeeping.

use vstd::prelude::*;

verus! {

/// An integer that uniquely identifies each player during a game.
pub type PlayerId = usize;

/// Represent a player during a game.
#[derive(Clone, Copy, Debug, PartialEq)]
pub struct Player {
    /// An integer that uniquely identifies each player during a game
    pub id: PlayerId,

    /// Number of tiles the player currently owns
    pub owned_tiles: usize,

    /// Turn at which the player was defeated, if any
    pub defeated_at: Option<usize>,
}

impl Player {
    /// Return a new undefeated player, with no owned tile.
    pub fn new(id: PlayerId) -> (p: Player)
        ensures
            p.id == id,
            p.owned_tiles == 0,
            p.defeated_at is None,
    {
        Player { id, owned_tiles: 0, defeated_at: None }
    }

    /// Return whether the player has been defeated already.
    pub fn defeated(&self) -> (r: bool)
        ensures
            r == self.defeated_at is Some,
    {
        self.defeated_at.is_some()
    }

    /// Whether the player may act: an undefeated player owning at least one tile.
    pub open spec fn spec_can_move(self) -> bool {
        self.defeated_at is None && self.owned_tiles > 0
    }

    /// Return whether the player can move. A player can move if it owns at
    /// least one tile, and if it has not been defeated.
    pub fn can_move(&self) -> (r: bool)
        ensures
            r == self.spec_can_move(),
    {
        !self.defeated() && self.owned_tiles > 0
    }
}

} // verus!
