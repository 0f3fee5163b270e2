//! Tiles: one board cell with its kind, owner, unit count, the set of
//! players that currently see it, and the set of players owed a change
//! notification, together with the move resolver (`Tile::attack`).

use vstd::prelude::*;

use crate::player::PlayerId;

verus! {

broadcast use vstd::seq_lib::lemma_seq_contains_after_push;

/// Represent the different types of tiles.
#[derive(Copy, Clone, PartialEq, Eq, Structural, Debug)]
pub enum TileKind {
    /// A tile that contains a general
    General,
    /// A tile that contains a city (also called a fortress)
    City,
    /// A regular tile
    Open,
    /// A tile that contains a mountain (also called a wall)
    Mountain,
}

/// Outcome of a move.
#[derive(Copy, Clone, Debug, PartialEq)]
pub enum MoveOutcome {
    /// Outcome when a move resulted in a general being captured. The player
    /// ID is the ID of the defeated player.
    GeneralCaptured(PlayerId),
    /// Outcome when a move resulted in an open tile or a city being
    /// captured. If the tile was belonging to a different player than the
    /// one making the move, the player's ID is specified.
    TileCaptured(Option<PlayerId>),
    /// Outcome when a move did not result in a tile being captured.
    StatuQuo,
}

/// Represent an error that occurs when an invalid move is processed.
#[derive(Copy, Clone, Debug, PartialEq, Eq, Structural)]
pub enum InvalidMove {
    /// The source tile does not have enough units to perform the move. To be
    /// able to move from one tile, the tile must have at least two units.
    NotEnoughUnits,

    /// The destination tile is invalid (it can be a mountain or an
    /// out-of-grid tile). This occurs for instance if the source tile is on
    /// the top row, and the move is upward.
    ToInvalidTile,

    /// The source tile is either a mountain or out of the grid.
    FromInvalidTile,

    /// The source tile does not belong to the player making the move. A move
    /// can only be performed by a player.
    SourceTileNotOwned,
}

/// The mathematical model of a tile: its kind, owner and units as plain
/// values, and the two player lists abstracted as sets.
#[verifier::ext_equal]
pub ghost struct TileView {
    pub kind: TileKind,
    pub owner: Option<PlayerId>,
    pub units: u16,
    /// Players currently seeing the tile.
    pub visible: Set<PlayerId>,
    /// Players that must receive this tile in the next update.
    pub dirty: Set<PlayerId>,
}

impl TileView {
    /// The tile after every current viewer has been marked dirty.
    pub open spec fn marked_dirty(self) -> TileView {
        TileView { dirty: self.dirty.union(self.visible), ..self }
    }

    /// Saturating 16-bit sum, the arithmetic used when units are added.
    pub open spec fn sat_add_units(a: u16, b: int) -> u16 {
        if a + b > u16::MAX { u16::MAX } else { (a + b) as u16 }
    }
}

/// The error for an attack from a tile modelled by `s` against one modelled
/// by `d`, or `None` when the attack is accepted; the checks happen in this
/// order.
pub open spec fn attack_error(s: TileView, d: TileView) -> Option<InvalidMove> {
    if s.kind == TileKind::Mountain {
        Some(InvalidMove::FromInvalidTile)
    } else if d.kind == TileKind::Mountain {
        Some(InvalidMove::ToInvalidTile)
    } else if s.units < 2 {
        Some(InvalidMove::NotEnoughUnits)
    } else if s.owner is None {
        Some(InvalidMove::SourceTileNotOwned)
    } else {
        None
    }
}

/// The outcome of an accepted attack: the source sends `s.units - 1` units;
/// a weaker or equal force leaves the destination with its owner, a stronger
/// force captures it, turning a general into a city.
pub open spec fn attack_outcome(s: TileView, d: TileView) -> MoveOutcome {
    let a = s.units - 1;
    match d.owner {
        Some(defender) => {
            if defender == s.owner->0 {
                MoveOutcome::StatuQuo
            } else if d.units >= a {
                MoveOutcome::StatuQuo
            } else if d.kind == TileKind::General {
                MoveOutcome::GeneralCaptured(defender)
            } else {
                MoveOutcome::TileCaptured(Some(defender))
            }
        },
        None => {
            if d.units >= a {
                MoveOutcome::StatuQuo
            } else {
                MoveOutcome::TileCaptured(None)
            }
        },
    }
}

/// The destination tile after an accepted attack, dirty for all its viewers.
pub open spec fn attack_dst(s: TileView, d: TileView) -> TileView {
    let a = s.units - 1;
    let d1 = match d.owner {
        Some(defender) => {
            if defender == s.owner->0 {
                TileView { units: TileView::sat_add_units(d.units, a), ..d }
            } else if d.units >= a {
                TileView { units: (d.units - a) as u16, ..d }
            } else if d.kind == TileKind::General {
                TileView { units: (a - d.units) as u16, owner: s.owner, kind: TileKind::City, ..d }
            } else {
                TileView { units: (a - d.units) as u16, owner: s.owner, ..d }
            }
        },
        None => {
            if d.units >= a {
                TileView { units: (d.units - a) as u16, ..d }
            } else {
                TileView { units: (a - d.units) as u16, owner: s.owner, ..d }
            }
        },
    };
    d1.marked_dirty()
}

/// The source tile after an accepted attack: exactly one unit stays behind,
/// and the tile is dirty for all its viewers.
pub open spec fn attack_src(s: TileView) -> TileView {
    TileView { units: 1u16, ..s }.marked_dirty()
}

/// A tile as the fog of war shows it to a player who cannot see it: no
/// owner, no units, a general looking like a plain open tile, a city
/// looking like a mountain.
pub open spec fn spec_masked(v: TileView) -> TileView {
    TileView {
        owner: None,
        units: 0u16,
        kind: if v.kind == TileKind::General {
            TileKind::Open
        } else if v.kind == TileKind::City {
            TileKind::Mountain
        } else {
            v.kind
        },
        ..v
    }
}

/// Represent a tile of the game map.
#[derive(Clone, Debug, PartialEq)]
pub struct Tile {
    /// The ID of the player that currently owns the tile (a player owns a
    /// tile if he/she has units occupying the tile).
    owner: Option<PlayerId>,

    /// Number of units occupying the tile
    units: u16,

    /// The type of tile (open, city, general or mountain)
    kind: TileKind,

    /// Players that can see the tile. To be able to see an open tile, a
    /// player must own a tile that touches it. Holds no duplicate by
    /// construction, though nothing relies on that: the view is a set.
    visible_by: Vec<PlayerId>,

    /// Players that had visibility on this tile when it changed.
    dirty_for: Vec<PlayerId>,
}

impl View for Tile {
    type V = TileView;

    closed spec fn view(&self) -> TileView {
        TileView {
            kind: self.kind,
            owner: self.owner,
            units: self.units,
            visible: self.visible_by@.to_set(),
            dirty: self.dirty_for@.to_set(),
        }
    }
}

/// Return whether `v` holds `p`.
fn id_list_contains(v: &Vec<PlayerId>, p: PlayerId) -> (r: bool)
    ensures
        r == v@.contains(p),
{
    let mut k: usize = 0;
    while k < v.len()
        invariant
            k <= v.len(),
            forall|j: int| 0 <= j < k ==> v@[j] != p,
        decreases v.len() - k,
    {
        if v[k] == p {
            return true;
        }
        k += 1;
    }
    false
}

/// Add `p` to `v` unless it is already there; as a set, `v` gains `p`.
fn id_list_insert(v: &mut Vec<PlayerId>, p: PlayerId)
    ensures
        forall|q: PlayerId| final(v)@.contains(q) <==> (old(v)@.contains(q) || q == p),
{
    if !id_list_contains(v, p) {
        v.push(p);
    }
}

/// Remove every occurrence of `p` from `v`; as a set, `v` loses `p`.
fn id_list_remove(v: &mut Vec<PlayerId>, p: PlayerId)
    ensures
        forall|q: PlayerId| final(v)@.contains(q) <==> (old(v)@.contains(q) && q != p),
{
    let mut kept: Vec<PlayerId> = Vec::new();
    let mut k: usize = 0;
    while k < v.len()
        invariant
            k <= v.len(),
            forall|j: int| 0 <= j < k && v@[j] != p ==> kept@.contains(v@[j]),
            forall|q: PlayerId| kept@.contains(q) ==> (v@.contains(q) && q != p),
        decreases v.len() - k,
    {
        if v[k] != p {
            kept.push(v[k]);
        }
        k += 1;
    }
    *v = kept;
}

impl Tile {
    /// Return a new tile. By default, new tiles are mountains, with no
    /// owner, no unit, and empty player sets.
    pub fn new() -> (t: Tile)
        ensures
            t@ == (TileView {
                kind: TileKind::Mountain,
                owner: None,
                units: 0u16,
                visible: Set::empty(),
                dirty: Set::empty(),
            }),
    {
        let t = Tile {
            owner: None,
            units: 0,
            dirty_for: Vec::new(),
            visible_by: Vec::new(),
            kind: TileKind::Mountain,
        };
        proof {
            assert(t@.visible =~= Set::empty());
            assert(t@.dirty =~= Set::empty());
        }
        t
    }

    /// Return a copy of the tile; the copy models exactly as the original.
    pub fn snapshot(&self) -> (t: Tile)
        ensures
            t@ == self@,
    {
        let t = Tile {
            owner: self.owner,
            units: self.units,
            kind: self.kind,
            visible_by: self.visible_by.clone(),
            dirty_for: self.dirty_for.clone(),
        };
        proof {
            assert(t.visible_by@ =~= self.visible_by@);
            assert(t.dirty_for@ =~= self.dirty_for@);
            assert(t@ =~= self@);
        }
        t
    }

    /// Return the tile as the fog of war shows it to a player who cannot
    /// see it: the owner and the units are withheld, a general passes for a
    /// plain open tile, and a city passes for a mountain.
    pub fn masked(&self) -> (t: Tile)
        ensures
            t@ == spec_masked(self@),
    {
        let t = Tile {
            owner: None,
            units: 0,
            kind: if self.kind == TileKind::General {
                TileKind::Open
            } else if self.kind == TileKind::City {
                TileKind::Mountain
            } else {
                self.kind
            },
            visible_by: self.visible_by.clone(),
            dirty_for: self.dirty_for.clone(),
        };
        proof {
            assert(t.visible_by@ =~= self.visible_by@);
            assert(t.dirty_for@ =~= self.dirty_for@);
            assert(t@ =~= spec_masked(self@));
        }
        t
    }

    /// Return whether the tile is marked as visible by the given player.
    pub fn is_visible_by(&self, player: PlayerId) -> (r: bool)
        ensures
            r == self@.visible.contains(player),
    {
        id_list_contains(&self.visible_by, player)
    }

    /// Mark the tile as invisible for the given player, and dirty for that
    /// player if it could previously see it. Mountains reject the change.
    pub fn hide_from(&mut self, player: PlayerId)
        ensures
            final(self)@ == spec_hide_from(old(self)@, player),
    {
        if self.is_mountain() {
            return;
        }
        let was_visible = id_list_contains(&self.visible_by, player);
        id_list_remove(&mut self.visible_by, player);
        if was_visible {
            id_list_insert(&mut self.dirty_for, player);
        }
        proof {
            assert(self@.visible =~= old(self)@.visible.remove(player));
            if old(self)@.visible.contains(player) {
                assert(self@.dirty =~= old(self)@.dirty.insert(player));
            } else {
                assert(self@.dirty =~= old(self)@.dirty);
            }
            assert(self@ =~= spec_hide_from(old(self)@, player));
        }
    }

    /// Mark the tile as visible for the given player, and dirty for that
    /// player. Mountains reject the change.
    pub fn reveal_to(&mut self, player: PlayerId)
        ensures
            final(self)@ == spec_reveal_to(old(self)@, player),
    {
        if self.is_mountain() {
            return;
        }
        id_list_insert(&mut self.visible_by, player);
        id_list_insert(&mut self.dirty_for, player);
        proof {
            assert(self@.visible =~= old(self)@.visible.insert(player));
            assert(self@.dirty =~= old(self)@.dirty.insert(player));
            assert(self@ =~= spec_reveal_to(old(self)@, player));
        }
    }

    /// Perform a move from a source tile (`self`) to a destination tile.
    ///
    /// The move is rejected, and neither tile changes, when the source or
    /// the destination is a mountain, when the source holds fewer than two
    /// units, or when the source is unowned — in that order. Otherwise the
    /// source keeps exactly one unit, the destination changes as
    /// [`attack_dst`] says, and both tiles become dirty for their viewers.
    pub fn attack(&mut self, dst: &mut Tile) -> (r: Result<MoveOutcome, InvalidMove>)
        ensures
            attack_error(old(self)@, old(dst)@) is Some ==> {
                &&& r == Result::<MoveOutcome, InvalidMove>::Err(attack_error(old(self)@, old(dst)@)->0)
                &&& final(self)@ == old(self)@
                &&& final(dst)@ == old(dst)@
            },
            attack_error(old(self)@, old(dst)@) is None ==> {
                &&& r == Result::<MoveOutcome, InvalidMove>::Ok(attack_outcome(old(self)@, old(dst)@))
                &&& final(self)@ == attack_src(old(self)@)
                &&& final(dst)@ == attack_dst(old(self)@, old(dst)@)
            },
            r is Ok ==> final(self)@.units == 1,
    {
        if self.is_mountain() {
            return Err(InvalidMove::FromInvalidTile);
        }
        if dst.is_mountain() {
            return Err(InvalidMove::ToInvalidTile);
        }
        if self.units < 2 {
            return Err(InvalidMove::NotEnoughUnits);
        }
        let attacker = match self.owner {
            Some(p) => p,
            None => {
                return Err(InvalidMove::SourceTileNotOwned);
            },
        };

        let force = self.units - 1;
        let outcome = match dst.owner {
            // The destination tile belongs to someone else
            Some(defender) if defender != attacker => {
                // The defender has more units.
                if dst.units >= force {
                    dst.units = dst.units - force;
                    MoveOutcome::StatuQuo
                } else {
                    // The attacker has more units. Capture the tile.
                    dst.units = force - dst.units;
                    dst.owner = self.owner;
                    // We're capturing a general
                    if dst.kind == TileKind::General {
                        // Turn the general into a regular city
                        dst.kind = TileKind::City;
                        MoveOutcome::GeneralCaptured(defender)
                    } else {
                        // We're capturing a regular tile
                        MoveOutcome::TileCaptured(Some(defender))
                    }
                }
            },
            // The owner is the same for both tiles, just transfer the units
            Some(_defender) => {
                dst.units = dst.units.saturating_add(force);
                MoveOutcome::StatuQuo
            },
            // The destination tile is not owned by anyone.
            None => {
                // The destination has more units, we can't capture it
                if dst.units >= force {
                    dst.units = dst.units - force;
                    MoveOutcome::StatuQuo
                } else {
                    dst.units = force - dst.units;
                    dst.owner = self.owner;
                    MoveOutcome::TileCaptured(None)
                }
            },
        };
        // In any case, we always only leave 1 unit in the source tile
        self.units = 1;
        self.set_dirty();
        dst.set_dirty();
        proof {
            assert(final(self)@ =~= attack_src(old(self)@));
            assert(final(dst)@ =~= attack_dst(old(self)@, old(dst)@));
        }
        Ok(outcome)
    }

    /// Return the owner of the tile, if any.
    pub fn owner(&self) -> (r: Option<PlayerId>)
        ensures
            r == self@.owner,
    {
        self.owner
    }

    /// Return the number of units occupying the tile.
    pub fn units(&self) -> (r: u16)
        ensures
            r == self@.units,
    {
        self.units
    }

    /// Return whether the tile is open. A tile is open if it's not a city, a
    /// general or a mountain.
    pub fn is_open(&self) -> (r: bool)
        ensures
            r == (self@.kind == TileKind::Open),
    {
        self.kind == TileKind::Open
    }

    /// Return whether the tile is a general.
    pub fn is_general(&self) -> (r: bool)
        ensures
            r == (self@.kind == TileKind::General),
    {
        self.kind == TileKind::General
    }

    /// Return whether the tile is a city.
    pub fn is_city(&self) -> (r: bool)
        ensures
            r == (self@.kind == TileKind::City),
    {
        self.kind == TileKind::City
    }

    /// Return whether the tile is a city; fortress is another name for
    /// that kind.
    pub fn is_fortress(&self) -> (r: bool)
        ensures
            r == (self@.kind == TileKind::City),
    {
        self.kind == TileKind::City
    }

    /// Return whether the tile is a mountain.
    pub fn is_mountain(&self) -> (r: bool)
        ensures
            r == (self@.kind == TileKind::Mountain),
    {
        self.kind == TileKind::Mountain
    }

    /// Return whether the tile is a mountain; wall is another name for
    /// that kind.
    pub fn is_wall(&self) -> (r: bool)
        ensures
            r == (self@.kind == TileKind::Mountain),
    {
        self.kind == TileKind::Mountain
    }

    /// Turn the tile into an open tile.
    pub fn make_open(&mut self)
        ensures
            final(self)@ == (TileView { kind: TileKind::Open, ..old(self)@ }).marked_dirty(),
    {
        self.kind = TileKind::Open;
        self.set_dirty();
    }

    /// Turn the tile into a general.
    pub fn make_general(&mut self)
        ensures
            final(self)@ == (TileView { kind: TileKind::General, ..old(self)@ }).marked_dirty(),
    {
        self.kind = TileKind::General;
        self.set_dirty();
    }

    /// Turn the tile into a city.
    pub fn make_city(&mut self)
        ensures
            final(self)@ == (TileView { kind: TileKind::City, ..old(self)@ }).marked_dirty(),
    {
        self.kind = TileKind::City;
        self.set_dirty();
    }

    /// Turn the tile into a city, under its other name.
    pub fn make_fortress(&mut self)
        ensures
            final(self)@ == (TileView { kind: TileKind::City, ..old(self)@ }).marked_dirty(),
    {
        self.kind = TileKind::City;
        self.set_dirty();
    }

    /// Turn the tile into a mountain.
    pub fn make_mountain(&mut self)
        ensures
            final(self)@ == (TileView { kind: TileKind::Mountain, ..old(self)@ }).marked_dirty(),
    {
        self.kind = TileKind::Mountain;
        self.set_dirty();
    }

    /// Mark the tile as dirty for every player that has visibility on it.
    pub fn set_dirty(&mut self)
        ensures
            final(self)@ == old(self)@.marked_dirty(),
    {
        let mut k: usize = 0;
        while k < self.visible_by.len()
            invariant
                k <= self.visible_by.len(),
                self.kind == old(self).kind,
                self.owner == old(self).owner,
                self.units == old(self).units,
                self.visible_by@ == old(self).visible_by@,
                forall|q: PlayerId| #[trigger] self.dirty_for@.contains(q) <==>
                    (old(self).dirty_for@.contains(q)
                        || exists|j: int| 0 <= j < k && old(self).visible_by@[j] == q),
            decreases self.visible_by.len() - k,
        {
            let p = self.visible_by[k];
            id_list_insert(&mut self.dirty_for, p);
            k += 1;
        }
        proof {
            assert(self@.dirty =~= old(self)@.dirty.union(old(self)@.visible));
            assert(self@ =~= old(self)@.marked_dirty());
        }
    }

    /// Set the number of units occupying the tile. Mountains reject the
    /// change.
    pub fn set_units(&mut self, units: u16)
        ensures
            final(self)@ == spec_set_units(old(self)@, units),
    {
        if self.is_mountain() {
            return;
        }
        self.units = units;
        self.set_dirty();
    }

    /// Increment the number of units occupying the tile, saturating at the
    /// largest count a tile can hold. Mountains reject the change.
    pub fn incr_units(&mut self, units: u16)
        ensures
            final(self)@ == spec_incr_units(old(self)@, units),
    {
        if self.is_mountain() {
            return;
        }
        self.units = self.units.saturating_add(units);
        self.set_dirty();
    }

    /// Decrement the number of units occupying the tile, stopping at zero.
    /// Mountains reject the change.
    pub fn decr_units(&mut self, units: u16)
        ensures
            final(self)@ == spec_decr_units(old(self)@, units),
    {
        if self.is_mountain() {
            return;
        }
        self.units = self.units.saturating_sub(units);
        self.set_dirty();
    }

    /// Set the owner of the tile. To remove the existing owner, set the
    /// owner to `None`. The tile becomes dirty for all its viewers and for
    /// the previous owner, and is revealed to the new owner. Mountains
    /// reject the change.
    pub fn set_owner(&mut self, player: Option<PlayerId>)
        ensures
            final(self)@ == spec_set_owner(old(self)@, player),
    {
        if self.is_mountain() {
            return;
        }
        // Mark the tile as dirty for the players that have visibility on it
        self.set_dirty();
        // Mark the tile as dirty for the previous owner. As owner, it should
        // have visibility on the tile, so should have been added to the
        // dirty set already, but let's be safe, it's pretty cheap.
        if let Some(owner) = self.owner {
            id_list_insert(&mut self.dirty_for, owner);
            proof {
                assert(self@.dirty =~= old(self)@.marked_dirty().dirty.insert(owner));
            }
        }
        self.owner = player;
        if let Some(owner) = self.owner {
            self.reveal_to(owner);
        }
        proof {
            assert(self@ =~= spec_set_owner(old(self)@, player));
        }
    }

    /// Return whether the tile's state has changed. A tile state changes
    /// when its type, its owner, or the number of units occupying it
    /// changes.
    pub fn is_dirty(&self) -> (r: bool)
        ensures
            r == !self@.dirty.is_empty(),
    {
        let r = self.dirty_for.len() > 0;
        proof {
            if self.dirty_for@.len() > 0 {
                assert(self@.dirty.contains(self.dirty_for@[0]));
            } else {
                assert(self@.dirty =~= Set::empty());
            }
        }
        r
    }

    /// Return whether the tile must be sent to the given player in the next
    /// update.
    pub fn is_dirty_for(&self, player_id: PlayerId) -> (r: bool)
        ensures
            r == self@.dirty.contains(player_id),
    {
        id_list_contains(&self.dirty_for, player_id)
    }

    /// Mark the tile as clean. This should be called to acknowledge that the
    /// tile has been processed after it was marked as dirty.
    pub fn set_clean(&mut self)
        ensures
            final(self)@ == (TileView { dirty: Set::empty(), ..old(self)@ }),
    {
        self.dirty_for.clear();
        proof {
            assert(self@.dirty =~= Set::empty());
            assert(self@ =~= (TileView { dirty: Set::empty(), ..old(self)@ }));
        }
    }
}

/// The tile after `hide_from(player)`: on a mountain nothing, otherwise the
/// player no longer sees the tile, and is owed a notification if it did.
pub open spec fn spec_hide_from(v: TileView, player: PlayerId) -> TileView {
    if v.kind == TileKind::Mountain {
        v
    } else if v.visible.contains(player) {
        TileView { visible: v.visible.remove(player), dirty: v.dirty.insert(player), ..v }
    } else {
        v
    }
}

/// The tile after `reveal_to(player)`: on a mountain nothing, otherwise the
/// player sees the tile and is owed a notification.
pub open spec fn spec_reveal_to(v: TileView, player: PlayerId) -> TileView {
    if v.kind == TileKind::Mountain {
        v
    } else {
        TileView { visible: v.visible.insert(player), dirty: v.dirty.insert(player), ..v }
    }
}

/// The tile after `set_units(units)`.
pub open spec fn spec_set_units(v: TileView, units: u16) -> TileView {
    if v.kind == TileKind::Mountain {
        v
    } else {
        TileView { units, ..v }.marked_dirty()
    }
}

/// The tile after `incr_units(units)`.
pub open spec fn spec_incr_units(v: TileView, units: u16) -> TileView {
    if v.kind == TileKind::Mountain {
        v
    } else {
        TileView { units: TileView::sat_add_units(v.units, units as int), ..v }.marked_dirty()
    }
}

/// The tile after `decr_units(units)`.
pub open spec fn spec_decr_units(v: TileView, units: u16) -> TileView {
    if v.kind == TileKind::Mountain {
        v
    } else {
        TileView {
            units: if v.units >= units { (v.units - units) as u16 } else { 0u16 },
            ..v
        }.marked_dirty()
    }
}

/// The tile after `set_owner(player)`.
pub open spec fn spec_set_owner(v: TileView, player: Option<PlayerId>) -> TileView {
    if v.kind == TileKind::Mountain {
        v
    } else {
        let dirtied = v.marked_dirty();
        let notified = if v.owner is Some {
            TileView { dirty: dirtied.dirty.insert(v.owner->0), ..dirtied }
        } else {
            dirtied
        };
        let owned = TileView { owner: player, ..notified };
        match player {
            Some(p) => spec_reveal_to(owned, p),
            None => owned,
        }
    }
}

} // verus!
