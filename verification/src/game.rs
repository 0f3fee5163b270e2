//! One running game: the map, its players, the turn counter with its
//! reinforcement schedule, and the update rendering with its per-player
//! fog-of-war filter.

use vstd::prelude::*;

use crate::grid::{grid_manhattan, grid_valid_index};
use crate::map::{spec_perform_err, spec_perform_ok, spec_reinforce_tile, GameMap, Move};
use crate::map_generator::{connected, MIN_DISTANCE};
use crate::player::{Player, PlayerId};
use crate::tile::{spec_masked, Tile, TileView};

verus! {

/// Whether some player of the roster carries the given ID.
pub open spec fn has_player(players: Seq<Player>, id: PlayerId) -> bool {
    exists|k: int| 0 <= k < players.len() && (#[trigger] players[k]).id == id
}

/// No two players of the roster share an ID.
pub open spec fn distinct_ids(players: Seq<Player>) -> bool {
    forall|k: int, l: int|
        0 <= k < players.len() && 0 <= l < players.len() && k != l ==> (#[trigger] players[k]).id
            != (#[trigger] players[l]).id
}

/// How many tiles of the board the given player owns.
pub open spec fn count_owned(tiles: Seq<TileView>, id: PlayerId) -> int
    decreases tiles.len(),
{
    if tiles.len() == 0 {
        0
    } else {
        count_owned(tiles.drop_last(), id) + if tiles.last().owner == Some(id) {
            1int
        } else {
            0int
        }
    }
}

/// A player never owns more tiles than the board holds.
pub proof fn lemma_count_owned_le_len(tiles: Seq<TileView>, id: PlayerId)
    ensures
        0 <= count_owned(tiles, id) <= tiles.len(),
    decreases tiles.len(),
{
    if tiles.len() > 0 {
        lemma_count_owned_le_len(tiles.drop_last(), id);
    }
}

/// The indexed tiles an update carries for the given board: every tile owed
/// to some player — every tile at all on the first turn — paired with its
/// index, in board order, as it stood before its notification set was
/// cleared.
pub open spec fn spec_collected(tiles: Seq<TileView>, initial: bool) -> Seq<(int, TileView)>
    decreases tiles.len(),
{
    if tiles.len() == 0 {
        Seq::empty()
    } else {
        let rest = spec_collected(tiles.drop_last(), initial);
        if initial || !tiles.last().dirty.is_empty() {
            rest.push((tiles.len() - 1, tiles.last()))
        } else {
            rest
        }
    }
}

/// A tile as the given player is shown it: a tile the player can see goes
/// out as it is; one they cannot see goes out masked — no owner, no units,
/// a general looking open, a city looking like a mountain.
pub open spec fn spec_fog(t: TileView, player: PlayerId) -> TileView {
    if t.visible.contains(player) {
        t
    } else {
        spec_masked(t)
    }
}

/// The tile entries of an update once filtered for one player: the entries
/// owed to that player — all of them on the first update — each passed
/// through the fog.
pub open spec fn spec_filtered(
    pairs: Seq<(int, TileView)>,
    player: PlayerId,
    initial: bool,
) -> Seq<(int, TileView)>
    decreases pairs.len(),
{
    if pairs.len() == 0 {
        Seq::empty()
    } else {
        let rest = spec_filtered(pairs.drop_last(), player, initial);
        let last = pairs.last();
        if initial || last.1.dirty.contains(player) {
            rest.push((last.0, spec_fog(last.1, player)))
        } else {
            rest
        }
    }
}

/// The indexed tile list of an update, as models.
pub open spec fn pairs_view(pairs: Seq<(usize, Tile)>) -> Seq<(int, TileView)> {
    pairs.map_values(|pr: (usize, Tile)| (pr.0 as int, pr.1@))
}

/// The player roster entry after an update sweep at the given turn: the
/// player carries their fresh tile count, and a player left with no tile is
/// marked defeated at that turn.
pub open spec fn spec_recounted(p: Player, tiles: Seq<TileView>, turn: int) -> Player {
    let owned = count_owned(tiles, p.id);
    Player {
        id: p.id,
        owned_tiles: owned as usize,
        defeated_at: if p.defeated_at is Some {
            p.defeated_at
        } else if owned == 0 {
            Some(turn as usize)
        } else {
            None
        },
    }
}

/// One tile of the board after the reinforcement that follows the given
/// turn: a full sweep every fiftieth turn, generals and occupied cities on
/// every other even turn.
pub open spec fn spec_game_reinforce_tile(t: TileView, turn: int) -> TileView {
    if turn % 50 == 0 {
        spec_reinforce_tile(t, true)
    } else if turn % 2 == 0 {
        spec_reinforce_tile(t, false)
    } else {
        t
    }
}

/// A board as a game starts on it: one general per player — owned by them,
/// holding a single unit, in their view — the generals pairwise at least
/// `MIN_DISTANCE` apart and all reachable from the first over passable
/// tiles, generals nowhere else, and nothing else owned by anyone.
pub open spec fn spec_starting_board(
    tiles: Seq<TileView>,
    width: int,
    height: int,
    ids: Seq<PlayerId>,
    generals: Seq<usize>,
) -> bool {
    &&& generals.len() == ids.len()
    &&& forall|k: int|
        0 <= k < generals.len() ==> {
            &&& grid_valid_index(width, height, #[trigger] generals[k] as int)
            &&& tiles[generals[k] as int].kind == crate::tile::TileKind::General
            &&& tiles[generals[k] as int].owner == Some(ids[k])
            &&& tiles[generals[k] as int].units == 1
            &&& tiles[generals[k] as int].visible.contains(ids[k])
        }
    &&& forall|k: int, l: int|
        0 <= k < generals.len() && 0 <= l < generals.len() && k != l ==> grid_manhattan(
            width,
            #[trigger] generals[k] as int,
            #[trigger] generals[l] as int,
        ) >= MIN_DISTANCE
    &&& forall|k: int|
        0 <= k < generals.len() ==> connected(
            tiles,
            width,
            height,
            generals[0] as int,
            #[trigger] generals[k] as int,
        )
    &&& forall|i: int|
        0 <= i < tiles.len() && (#[trigger] tiles[i]).owner is Some ==> (exists|k: int|
            0 <= k < generals.len() && #[trigger] generals[k] as int == i)
    &&& forall|i: int|
        grid_valid_index(width, height, i) && (#[trigger] tiles[i]).kind
            == crate::tile::TileKind::General ==> (exists|k: int|
            0 <= k < generals.len() && #[trigger] generals[k] as int == i)
}

/// Return the position of the player with the given ID, if any.
fn find_player(players: &Vec<Player>, id: PlayerId) -> (r: Option<usize>)
    ensures
        match r {
            Some(k) => k < players@.len() && players@[k as int].id == id,
            None => !has_player(players@, id),
        },
{
    let mut k: usize = 0;
    while k < players.len()
        invariant
            k <= players@.len(),
            forall|j: int| 0 <= j < k ==> (#[trigger] players@[j]).id != id,
        decreases players.len() - k,
    {
        if players[k].id == id {
            return Some(k);
        }
        k += 1;
    }
    None
}

/// Return a copy of the roster.
fn copy_players(players: &Vec<Player>) -> (r: Vec<Player>)
    ensures
        r@ == players@,
{
    let mut r: Vec<Player> = Vec::new();
    let mut k: usize = 0;
    while k < players.len()
        invariant
            k <= players@.len(),
            r@ =~= players@.subrange(0, k as int),
        decreases players.len() - k,
    {
        r.push(players[k]);
        k += 1;
    }
    proof {
        assert(players@.subrange(0, players@.len() as int) =~= players@);
    }
    r
}

/// A set of changes in a game: the tiles that have been modified since the
/// last update, along with the players and the current turn number.
pub struct Update {
    /// The turn the update describes.
    pub turn: usize,
    /// The number of tiles in a board row.
    pub width: usize,
    /// The number of tiles in a board column.
    pub height: usize,
    /// Every player, with their recounted holdings.
    pub players: Vec<Player>,
    /// The changed tiles, paired with their board indices.
    pub tiles: Vec<(usize, Tile)>,
    /// Whether this is the very first update of the game, which carries the
    /// whole board.
    pub is_initial_update: bool,
}

impl Update {
    /// Return this update as one player is allowed to see it: only the
    /// entries owed to that player — all of them on the first update — and
    /// each tile passed through the fog of war.
    pub fn filtered(&self, player: PlayerId) -> (r: Update)
        ensures
            r.turn == self.turn,
            r.width == self.width,
            r.height == self.height,
            r.players@ == self.players@,
            r.is_initial_update == self.is_initial_update,
            pairs_view(r.tiles@) == spec_filtered(
                pairs_view(self.tiles@),
                player,
                self.is_initial_update,
            ),
    {
        let mut tiles: Vec<(usize, Tile)> = Vec::new();
        let mut k: usize = 0;
        while k < self.tiles.len()
            invariant
                k <= self.tiles@.len(),
                pairs_view(tiles@) == spec_filtered(
                    pairs_view(self.tiles@.subrange(0, k as int)),
                    player,
                    self.is_initial_update,
                ),
            decreases self.tiles.len() - k,
        {
            let ghost prefix = pairs_view(self.tiles@.subrange(0, k as int));
            let entry = &self.tiles[k];
            let index = entry.0;
            let t = &entry.1;
            if self.is_initial_update || t.is_dirty_for(player) {
                let shown = if t.is_visible_by(player) {
                    t.snapshot()
                } else {
                    t.masked()
                };
                proof {
                    assert(shown@ == spec_fog(t@, player));
                }
                tiles.push((index, shown));
            }
            proof {
                let next = pairs_view(self.tiles@.subrange(0, k + 1));
                assert(next.drop_last() =~= prefix);
                assert(next.last() == (self.tiles@[k as int].0 as int, self.tiles@[k as int].1@));
                assert(pairs_view(tiles@) =~= spec_filtered(next, player, self.is_initial_update));
            }
            k += 1;
        }
        proof {
            assert(self.tiles@.subrange(0, self.tiles@.len() as int) =~= self.tiles@);
        }
        Update {
            turn: self.turn,
            width: self.width,
            height: self.height,
            players: copy_players(&self.players),
            is_initial_update: self.is_initial_update,
            tiles,
        }
    }
}

/// One running game: a map, its players, and the turn counter.
#[derive(Debug)]
pub struct Game {
    map: GameMap,
    players: Vec<Player>,
    turn: usize,
}

impl Game {
    /// The board of the game.
    pub closed spec fn spec_map(self) -> GameMap {
        self.map
    }

    /// The players of the game, in admission order.
    pub closed spec fn spec_players(self) -> Seq<Player> {
        self.players@
    }

    /// The current turn.
    pub closed spec fn spec_turn(self) -> int {
        self.turn as int
    }

    /// A game is well formed when its map is, no two players share an ID,
    /// and every owned tile belongs to a player of the roster.
    pub open spec fn wf(self) -> bool {
        &&& self.spec_map().wf()
        &&& distinct_ids(self.spec_players())
        &&& forall|i: int|
            0 <= i < self.spec_map().spec_tiles().len() && (
            #[trigger] self.spec_map().spec_tiles()[i]).owner is Some ==> has_player(
                self.spec_players(),
                self.spec_map().spec_tiles()[i].owner->0,
            )
    }

    /// Wrap an already-built map as a game among the given players, starting
    /// at turn 0 with each player credited one tile, their general.
    pub fn with_map(map: GameMap, player_ids: &Vec<PlayerId>) -> (g: Game)
        requires
            map.wf(),
            forall|k: int, l: int|
                0 <= k < player_ids@.len() && 0 <= l < player_ids@.len() && k != l
                    ==> player_ids@[k] != player_ids@[l],
            forall|i: int|
                0 <= i < map.spec_tiles().len() && (#[trigger] map.spec_tiles()[i]).owner is Some
                    ==> player_ids@.contains(map.spec_tiles()[i].owner->0),
        ensures
            g.wf(),
            g.spec_map() == map,
            g.spec_turn() == 0,
            g.spec_players().len() == player_ids@.len(),
            forall|k: int|
                0 <= k < player_ids@.len() ==> (#[trigger] g.spec_players()[k]) == (Player {
                    id: player_ids@[k],
                    owned_tiles: 1,
                    defeated_at: None,
                }),
    {
        let mut players: Vec<Player> = Vec::new();
        let mut k: usize = 0;
        while k < player_ids.len()
            invariant
                k <= player_ids@.len(),
                players@.len() == k,
                forall|j: int|
                    0 <= j < k ==> (#[trigger] players@[j]) == (Player {
                        id: player_ids@[j],
                        owned_tiles: 1,
                        defeated_at: None,
                    }),
            decreases player_ids.len() - k,
        {
            let mut player = Player::new(player_ids[k]);
            // Players start with a general
            player.owned_tiles = 1;
            players.push(player);
            k += 1;
        }
        let g = Game { map, players, turn: 0 };
        proof {
            assert forall|i: int|
                0 <= i < g.spec_map().spec_tiles().len() && (
                #[trigger] g.spec_map().spec_tiles()[i]).owner is Some implies has_player(
                g.spec_players(),
                g.spec_map().spec_tiles()[i].owner->0,
            ) by {
                let id = g.spec_map().spec_tiles()[i].owner->0;
                let j = choose|j: int| 0 <= j < player_ids@.len() && player_ids@[j] == id;
                assert(g.spec_players()[j].id == id);
            }
        }
        g
    }

    /// Create a new game for the given players. The map that is generated
    /// for the game gets bigger as the number of players increases. A game
    /// starts at turn 0, with each player owning exactly one tile, their
    /// general, with a single unit on it.
    pub fn new(players: Vec<PlayerId>) -> (g: Game)
        requires
            1 <= players@.len() <= 8,
            forall|k: int, l: int|
                0 <= k < players@.len() && 0 <= l < players@.len() && k != l ==> players@[k]
                    != players@[l],
        ensures
            g.wf(),
            g.spec_turn() == 0,
            g.spec_players().len() == players@.len(),
            forall|k: int|
                0 <= k < players@.len() ==> (#[trigger] g.spec_players()[k]) == (Player {
                    id: players@[k],
                    owned_tiles: 1,
                    defeated_at: None,
                }),
            crate::map::inv_owned(g.spec_map().spec_tiles()),
            crate::map::inv_sees(g.spec_map().spec_tiles()),
            crate::map::inv_fog(
                g.spec_map().spec_tiles(),
                g.spec_map().spec_width(),
                g.spec_map().spec_height(),
            ),
            exists|generals: Seq<usize>|
                spec_starting_board(
                    g.spec_map().spec_tiles(),
                    g.spec_map().spec_width(),
                    g.spec_map().spec_height(),
                    players@,
                    generals,
                ),
    {
        let (generals, mut map) = GameMap::generate(players.len());
        let ghost w = map.spec_width();
        let ghost h = map.spec_height();
        proof {
            map.lemma_wf();
        }
        let ghost tiles0 = map.spec_tiles();
        let mut k: usize = 0;
        while k < players.len()
            invariant
                map.wf(),
                map.spec_width() == w,
                map.spec_height() == h,
                map.spec_tiles().len() == w * h,
                tiles0.len() == w * h,
                k <= players@.len(),
                generals@.len() == players@.len(),
                crate::map_generator::generated_ok(generals@, tiles0, w, h, players@.len() as int),
                forall|j: int|
                    0 <= j < generals@.len() ==> crate::grid::grid_valid_index(
                        w,
                        h,
                        #[trigger] generals@[j] as int,
                    ) && tiles0[generals@[j] as int].kind == crate::tile::TileKind::General,
                forall|j: int|
                    0 <= j < k ==> (#[trigger] map.spec_tiles()[generals@[j] as int]).owner
                        == Some(players@[j]) && map.spec_tiles()[generals@[j] as int].units == 1,
                forall|i: int|
                    0 <= i < tiles0.len() ==> (#[trigger] map.spec_tiles()[i]).kind
                        == tiles0[i].kind,
                forall|i: int|
                    0 <= i < map.spec_tiles().len() && (#[trigger] map.spec_tiles()[i]).owner
                        is Some ==> (exists|j: int|
                        0 <= j < k && generals@[j] as int == i && map.spec_tiles()[i].owner
                            == Some(players@[j])) && map.spec_tiles()[i].kind
                        != crate::tile::TileKind::Mountain && map.spec_tiles()[i].units >= 1,
                crate::map::inv_sees(map.spec_tiles()),
                forall|j: int, n: int|
                    0 <= j < k && 0 <= n < tiles0.len() && crate::grid::ext_adjacent(
                        w,
                        h,
                        #[trigger] generals@[j] as int,
                        n,
                    ) && map.spec_tiles()[n].kind != crate::tile::TileKind::Mountain
                        ==> (#[trigger] map.spec_tiles()[n]).visible.contains(players@[j]),
            decreases players.len() - k,
        {
            let ghost pre = map.spec_tiles();
            let general = generals[k];
            {
                let tile = map.get_mut(general);
                tile.set_owner(Some(players[k]));
                tile.set_units(1);
            }
            let ghost mid = map.spec_tiles();
            map.enlarge_horizon(players[k], general);
            proof {
                let gi = general as int;
                let tiles1 = map.spec_tiles();
                assert(pre[gi].kind == crate::tile::TileKind::General);
                assert(mid[gi].owner == Some(players@[k as int]) && mid[gi].units == 1
                    && mid[gi].visible.contains(players@[k as int]));
                assert(forall|i: int|
                    0 <= i < tiles0.len() && i != gi ==> #[trigger] mid[i] == pre[i]);
                // opening the horizon only grows visibility
                assert(forall|i: int|
                    0 <= i < tiles0.len() ==> (#[trigger] tiles1[i]).owner == mid[i].owner
                        && tiles1[i].units == mid[i].units && tiles1[i].kind == mid[i].kind);
                assert forall|i: int|
                    0 <= i < tiles0.len() implies mid[i].visible.subset_of(
                    (#[trigger] tiles1[i]).visible,
                ) by {
                    assert(tiles1[i] == mid[i] || tiles1[i] == crate::tile::spec_reveal_to(
                        mid[i],
                        players@[k as int],
                    ));
                }
                assert forall|i: int|
                    0 <= i < tiles1.len() && (#[trigger] tiles1[i]).owner
                        is Some implies (exists|j: int|
                    0 <= j < k + 1 && generals@[j] as int == i && tiles1[i].owner == Some(
                        players@[j],
                    )) && tiles1[i].kind != crate::tile::TileKind::Mountain && tiles1[i].units
                    >= 1 by {
                    if i != gi {
                        assert(mid[i] == pre[i]);
                        if pre[i].owner is Some {
                            let j = choose|j: int|
                                0 <= j < k && generals@[j] as int == i && pre[i].owner == Some(
                                    players@[j],
                                );
                            assert(generals@[j] as int == i && tiles1[i].owner == Some(
                                players@[j],
                            ));
                        }
                    } else {
                        assert(generals@[k as int] as int == i);
                    }
                }
                assert forall|j: int|
                    0 <= j < k + 1 implies (#[trigger] tiles1[generals@[j] as int]).owner == Some(
                    players@[j],
                ) && tiles1[generals@[j] as int].units == 1 by {
                    if j < k {
                        // an earlier general sits at least ten cells away,
                        // untouched by this placement
                        assert(grid_manhattan(w, generals@[j] as int, generals@[k as int] as int)
                            >= MIN_DISTANCE);
                        assert(generals@[j] as int != gi);
                        assert(mid[generals@[j] as int] == pre[generals@[j] as int]);
                    }
                }
                assert(crate::map::inv_sees(tiles1)) by {
                    assert forall|i: int|
                        0 <= i < tiles1.len() && (#[trigger] tiles1[i]).owner
                            is Some implies tiles1[i].visible.contains(tiles1[i].owner->0) by {
                        if i != gi {
                            assert(pre[i].visible.contains(pre[i].owner->0) || pre[i].owner
                                is None);
                        }
                    }
                }
                assert forall|j: int, n: int|
                    0 <= j < k + 1 && 0 <= n < tiles0.len() && crate::grid::ext_adjacent(
                        w,
                        h,
                        #[trigger] generals@[j] as int,
                        n,
                    ) && tiles1[n].kind != crate::tile::TileKind::Mountain implies (
                #[trigger] tiles1[n]).visible.contains(players@[j]) by {
                    if j < k {
                        assert(pre[n].visible.contains(players@[j]));
                        assert(mid[n].visible.contains(players@[j]));
                    } else {
                        assert(tiles1[n] == crate::tile::spec_reveal_to(
                            mid[n],
                            players@[k as int],
                        ));
                    }
                }
            }
            k += 1;
        }
        proof {
            assert(crate::map::inv_owned(map.spec_tiles()));
            assert forall|k2: int|
                0 <= k2 < generals@.len() implies connected(
                map.spec_tiles(),
                w,
                h,
                generals@[0] as int,
                #[trigger] generals@[k2] as int,
            ) by {
                crate::map_generator::lemma_connected_monotone(
                    tiles0,
                    map.spec_tiles(),
                    w,
                    h,
                    generals@[0] as int,
                    generals@[k2] as int,
                );
            }
            assert forall|i: int|
                grid_valid_index(w, h, i) && (#[trigger] map.spec_tiles()[i]).kind
                    == crate::tile::TileKind::General implies (exists|k2: int|
                0 <= k2 < generals@.len() && #[trigger] generals@[k2] as int == i) by {
                assert(tiles0[i].kind == crate::tile::TileKind::General);
            }
            assert(spec_starting_board(map.spec_tiles(), w, h, players@, generals@));
            assert(crate::map::inv_fog(map.spec_tiles(), w, h)) by {
                assert forall|i: int, p: PlayerId|
                    0 <= i < map.spec_tiles().len() && crate::grid::grid_valid_index(w, h, i)
                        && map.spec_tiles()[i].kind != crate::tile::TileKind::Mountain
                        && #[trigger] crate::map::owns_ext_neighbor(
                        map.spec_tiles(),
                        w,
                        h,
                        p,
                        i,
                    ) implies map.spec_tiles()[i].visible.contains(p) by {
                    let t = choose|t: int|
                        #[trigger] crate::grid::ext_adjacent(w, h, i, t)
                            && map.spec_tiles()[t].owner == Some(p);
                    let j = choose|j: int|
                        0 <= j < k && generals@[j] as int == t && map.spec_tiles()[t].owner
                            == Some(players@[j]);
                    assert(crate::grid::ext_adjacent(w, h, generals@[j] as int, i));
                    assert(map.spec_tiles()[i].visible.contains(players@[j]));
                }
            }
        }
        let g = Game::with_map(map, &players);
        g
    }

    /// Return the current turn number.
    pub fn turn(&self) -> (r: usize)
        ensures
            r == self.spec_turn(),
    {
        self.turn
    }

    /// The board of the game.
    pub fn map(&self) -> (r: &GameMap)
        ensures
            *r == self.spec_map(),
    {
        &self.map
    }

    /// The players of the game, in admission order.
    pub fn players(&self) -> (r: &Vec<Player>)
        ensures
            r@ == self.spec_players(),
    {
        &self.players
    }

    /// Mark the given player as defeated. When a player is defeated he
    /// cannot perform any action anymore. Note that this method does not
    /// take care of the tiles owned by the player resigning, so there are
    /// two cases:
    ///
    /// - This method was called because the player performed the action of
    ///   resigning, in which case it still owns some tiles, that will keep
    ///   being reinforced
    /// - The player's general has been captured, in which case all his tiles
    ///   have already been transferred to the player that captured him
    pub fn resign(&mut self, id: PlayerId)
        requires
            old(self).wf(),
            has_player(old(self).spec_players(), id),
        ensures
            final(self).wf(),
            final(self).spec_map() == old(self).spec_map(),
            final(self).spec_turn() == old(self).spec_turn(),
            final(self).spec_players().len() == old(self).spec_players().len(),
            forall|k: int|
                0 <= k < old(self).spec_players().len() && (#[trigger] old(self).spec_players()[k]).id != id ==> final(self).spec_players()[k] == old(self).spec_players()[k],
            forall|k: int|
                0 <= k < old(self).spec_players().len() && (#[trigger] old(self).spec_players()[k]).id == id ==> final(self).spec_players()[k] == (Player {
                    defeated_at: if old(self).spec_players()[k].defeated_at is Some {
                        old(self).spec_players()[k].defeated_at
                    } else {
                        Some(old(self).spec_turn() as usize)
                    },
                    ..old(self).spec_players()[k]
                }),
    {
        let found = find_player(&self.players, id);
        let k = match found {
            Some(k) => k,
            None => {
                proof {
                    assert(false);
                }
                return;
            },
        };
        let mut player = self.players[k];
        if !player.defeated() {
            player.defeated_at = Some(self.turn);
            self.players.set(k, player);
        }
        proof {
            assert forall|l: int|
                0 <= l < old(self).spec_players().len() && (#[trigger] old(self).spec_players()[l]).id == id implies l == k by {
                if l != k as int {
                    assert(old(self).spec_players()[l].id != old(self).spec_players()[k as int].id);
                }
            }
            assert(forall|l: int|
                0 <= l < self.players@.len() ==> (#[trigger] self.players@[l]).id == old(
                    self,
                ).spec_players()[l].id);
            assert forall|i: int|
                0 <= i < self.spec_map().spec_tiles().len() && (
                #[trigger] self.spec_map().spec_tiles()[i]).owner is Some implies has_player(
                self.spec_players(),
                self.spec_map().spec_tiles()[i].owner->0,
            ) by {
                let oid = self.spec_map().spec_tiles()[i].owner->0;
                let l = choose|l: int|
                    0 <= l < old(self).spec_players().len() && (#[trigger] old(
                        self,
                    ).spec_players()[l]).id == oid;
                assert(self.players@[l].id == oid);
            }
        }
    }

    /// Process the given move, and update the game state. A move from an
    /// unknown player, from a defeated player, or that the map rejects, is
    /// simply ignored: no error is returned. Tiles that are updated by the
    /// move are marked as dirty.
    pub fn perform_move(&mut self, mv: Move)
        requires
            old(self).wf(),
        ensures
            final(self).wf(),
            final(self).spec_turn() == old(self).spec_turn(),
            final(self).spec_players() == old(self).spec_players(),
            final(self).spec_map().spec_width() == old(self).spec_map().spec_width(),
            final(self).spec_map().spec_height() == old(self).spec_map().spec_height(),
            !has_player(old(self).spec_players(), mv.player) ==> final(self).spec_map().spec_tiles()
                == old(self).spec_map().spec_tiles(),
            forall|k: int|
                0 <= k < old(self).spec_players().len() && (#[trigger] old(self).spec_players()[k]).id == mv.player && !old(self).spec_players()[k].spec_can_move() ==> final(self).spec_map().spec_tiles() == old(self).spec_map().spec_tiles(),
            forall|k: int|
                0 <= k < old(self).spec_players().len() && (#[trigger] old(self).spec_players()[k]).id == mv.player && old(self).spec_players()[k].spec_can_move()
                    ==> ({
                    let tiles = old(self).spec_map().spec_tiles();
                    let w = old(self).spec_map().spec_width();
                    let h = old(self).spec_map().spec_height();
                    if spec_perform_err(tiles, w, h, mv) is Some {
                        final(self).spec_map().spec_tiles() == tiles
                    } else {
                        final(self).spec_map().spec_tiles() == spec_perform_ok(tiles, w, h, mv)
                    }
                }),
    {
        let ghost tiles0 = self.spec_map().spec_tiles();
        let found = find_player(&self.players, mv.player);
        let can_move = match found {
            Some(k) => self.players[k].can_move(),
            None => false,
        };
        proof {
            if found is Some {
                let k0 = found->0 as int;
                assert forall|l: int|
                    0 <= l < old(self).spec_players().len() && (#[trigger] old(self).spec_players()[l]).id == mv.player implies l == k0 by {
                    if l != k0 {
                        assert(old(self).spec_players()[l].id != old(self).spec_players()[k0].id);
                    }
                }
            }
        }
        if !can_move {
            return;
        }
        // We do not care about the result of the move: an invalid move is
        // silently dropped at this layer.
        let _ = self.map.perform_move(mv);
        proof {
            let w = old(self).spec_map().spec_width();
            let h = old(self).spec_map().spec_height();
            old(self).spec_map().lemma_wf();
            if spec_perform_err(tiles0, w, h, mv) is None {
                crate::map::lemma_perform_ok_owners(tiles0, w, h, mv);
                assert forall|i: int|
                    0 <= i < self.spec_map().spec_tiles().len() && (
                    #[trigger] self.spec_map().spec_tiles()[i]).owner is Some implies has_player(
                    self.spec_players(),
                    self.spec_map().spec_tiles()[i].owner->0,
                ) by {
                    let tiles1 = spec_perform_ok(tiles0, w, h, mv);
                    assert(tiles1[i].owner == tiles0[i].owner || tiles1[i].owner == Some(
                        mv.player,
                    ));
                }
            }
        }
    }

    /// Increment the number of units on tiles that are owned by players.
    /// Generals and occupied cities are reinforced on every even turn; every
    /// owned tile is reinforced when the turn is a multiple of fifty.
    pub fn reinforce(&mut self)
        requires
            old(self).wf(),
        ensures
            final(self).wf(),
            final(self).spec_turn() == old(self).spec_turn(),
            final(self).spec_players() == old(self).spec_players(),
            final(self).spec_map().spec_width() == old(self).spec_map().spec_width(),
            final(self).spec_map().spec_height() == old(self).spec_map().spec_height(),
            final(self).spec_map().spec_tiles().len() == old(self).spec_map().spec_tiles().len(),
            forall|i: int|
                0 <= i < old(self).spec_map().spec_tiles().len() ==> final(self).spec_map().spec_tiles()[i] == spec_game_reinforce_tile(
                    old(self).spec_map().spec_tiles()[i],
                    old(self).spec_turn(),
                ),
    {
        if self.turn % 50 == 0 {
            self.map.reinforce(true);
        } else if self.turn % 2 == 0 {
            self.map.reinforce(false);
        }
    }

    /// Increment the number of turns and reinforce the tiles that need to be
    /// reinforced.
    pub fn incr_turn(&mut self)
        requires
            old(self).wf(),
            old(self).spec_turn() < usize::MAX,
        ensures
            final(self).wf(),
            final(self).spec_turn() == old(self).spec_turn() + 1,
            final(self).spec_players() == old(self).spec_players(),
            final(self).spec_map().spec_width() == old(self).spec_map().spec_width(),
            final(self).spec_map().spec_height() == old(self).spec_map().spec_height(),
            final(self).spec_map().spec_tiles().len() == old(self).spec_map().spec_tiles().len(),
            forall|i: int|
                0 <= i < old(self).spec_map().spec_tiles().len() ==> final(self).spec_map().spec_tiles()[i] == spec_game_reinforce_tile(
                    old(self).spec_map().spec_tiles()[i],
                    old(self).spec_turn() + 1,
                ),
    {
        self.turn = self.turn + 1;
        self.reinforce();
    }

    /// Whether the game still stands at its very first turn.
    fn is_first_turn(&self) -> (r: bool)
        ensures
            r == (self.spec_turn() == 0),
    {
        self.turn == 0
    }

    /// Get all the tiles that are marked as dirty, unmark them, and return
    /// them along with properties that reflect the changes that occurred in
    /// the game since the last update.
    ///
    /// While sweeping the board, the number of tiles owned by each player is
    /// recounted, and an undefeated player left without any tile is marked
    /// defeated.
    pub fn get_update(&mut self) -> (u: Update)
        requires
            old(self).wf(),
        ensures
            final(self).wf(),
            final(self).spec_turn() == old(self).spec_turn(),
            final(self).spec_map().spec_width() == old(self).spec_map().spec_width(),
            final(self).spec_map().spec_height() == old(self).spec_map().spec_height(),
            final(self).spec_map().spec_tiles().len() == old(self).spec_map().spec_tiles().len(),
            forall|i: int|
                0 <= i < old(self).spec_map().spec_tiles().len() ==> final(self).spec_map().spec_tiles()[i] == (TileView {
                    dirty: Set::empty(),
                    ..old(self).spec_map().spec_tiles()[i]
                }),
            final(self).spec_players().len() == old(self).spec_players().len(),
            forall|k: int|
                0 <= k < old(self).spec_players().len() ==> final(self).spec_players()[k] == spec_recounted(
                    old(self).spec_players()[k],
                    old(self).spec_map().spec_tiles(),
                    old(self).spec_turn(),
                ),
            u.turn == old(self).spec_turn(),
            u.width == old(self).spec_map().spec_width(),
            u.height == old(self).spec_map().spec_height(),
            u.is_initial_update == (old(self).spec_turn() == 0),
            u.players@ == final(self).spec_players(),
            pairs_view(u.tiles@) == spec_collected(
                old(self).spec_map().spec_tiles(),
                old(self).spec_turn() == 0,
            ),
    {
        let ghost tiles0 = self.spec_map().spec_tiles();
        let ghost players0 = self.spec_players();

        // Reset the number of tiles owned by each player, because we recount
        // them while building the update.
        let mut k: usize = 0;
        while k < self.players.len()
            invariant
                self.spec_map() == old(self).spec_map(),
                self.spec_turn() == old(self).spec_turn(),
                players0 == old(self).spec_players(),
                self.players@.len() == players0.len(),
                k <= players0.len(),
                forall|j: int|
                    0 <= j < players0.len() ==> (#[trigger] self.players@[j]) == (Player {
                        owned_tiles: if j < k {
                            0
                        } else {
                            players0[j].owned_tiles
                        },
                        ..players0[j]
                    }),
            decreases self.players.len() - k,
        {
            let mut player = self.players[k];
            player.owned_tiles = 0;
            self.players.set(k, player);
            k += 1;
        }

        let is_initial = self.is_first_turn();
        let mut updated_tiles: Vec<(usize, Tile)> = Vec::new();
        let len = self.map.len();
        let mut i: usize = 0;
        while i < len
            invariant
                self.spec_map().wf(),
                self.spec_turn() == old(self).spec_turn(),
                is_initial == (old(self).spec_turn() == 0),
                self.spec_map().spec_width() == old(self).spec_map().spec_width(),
                self.spec_map().spec_height() == old(self).spec_map().spec_height(),
                tiles0 == old(self).spec_map().spec_tiles(),
                len == tiles0.len(),
                self.spec_map().spec_tiles().len() == len,
                i <= len,
                players0 == old(self).spec_players(),
                distinct_ids(players0),
                self.players@.len() == players0.len(),
                forall|j: int|
                    0 <= j < players0.len() ==> (#[trigger] self.players@[j]) == (Player {
                        owned_tiles: count_owned(
                            tiles0.subrange(0, i as int),
                            players0[j].id,
                        ) as usize,
                        ..players0[j]
                    }),
                forall|n: int|
                    0 <= n < i ==> #[trigger] self.spec_map().spec_tiles()[n] == (TileView {
                        dirty: Set::empty(),
                        ..tiles0[n]
                    }),
                forall|n: int|
                    i <= n < len ==> #[trigger] self.spec_map().spec_tiles()[n] == tiles0[n],
                pairs_view(updated_tiles@) == spec_collected(
                    tiles0.subrange(0, i as int),
                    is_initial,
                ),
                forall|i2: int|
                    0 <= i2 < tiles0.len() && (#[trigger] tiles0[i2]).owner is Some ==> has_player(
                        players0,
                        tiles0[i2].owner->0,
                    ),
            decreases len - i,
        {
            let ghost sub = tiles0.subrange(0, i as int);
            let ghost subn = tiles0.subrange(0, i + 1);
            proof {
                self.spec_map().lemma_wf();
                assert(subn.drop_last() =~= sub);
                assert(subn.last() == tiles0[i as int]);
            }
            let owner = self.map.get(i).owner();
            if let Some(owner_id) = owner {
                // The owner of a tile is always a player of the roster.
                let found = find_player(&self.players, owner_id);
                let k2 = match found {
                    Some(k2) => k2,
                    None => {
                        proof {
                            let l = choose|l: int|
                                0 <= l < players0.len() && (#[trigger] players0[l]).id == owner_id;
                            assert(self.players@[l].id == owner_id);
                            assert(false);
                        }
                        0
                    },
                };
                let mut player = self.players[k2];
                proof {
                    lemma_count_owned_le_len(sub, owner_id);
                }
                player.owned_tiles = player.owned_tiles + 1;
                self.players.set(k2, player);
                proof {
                    assert forall|l: int|
                        0 <= l < players0.len() && (#[trigger] players0[l]).id
                            == owner_id implies l == k2 by {
                        if l != k2 as int {
                            assert(players0[l].id != players0[k2 as int].id);
                        }
                    }
                }
            }
            let collect = is_initial || self.map.get(i).is_dirty();
            if collect {
                let shot = self.map.get(i).snapshot();
                updated_tiles.push((i, shot));
                let t = self.map.get_mut(i);
                t.set_clean();
            } else {
                proof {
                    assert(tiles0[i as int].dirty =~= Set::empty());
                }
            }
            proof {
                assert(self.spec_map().spec_tiles()[i as int] == (TileView {
                    dirty: Set::empty(),
                    ..tiles0[i as int]
                }));
                assert(pairs_view(updated_tiles@) =~= spec_collected(subn, is_initial));
                assert forall|j: int|
                    0 <= j < players0.len() implies (#[trigger] self.players@[j]) == (Player {
                    owned_tiles: count_owned(subn, players0[j].id) as usize,
                    ..players0[j]
                }) by {
                    assert(count_owned(subn, players0[j].id) == count_owned(sub, players0[j].id)
                        + if tiles0[i as int].owner == Some(players0[j].id) {
                        1int
                    } else {
                        0int
                    });
                    lemma_count_owned_le_len(sub, players0[j].id);
                }
            }
            i += 1;
        }
        proof {
            assert(tiles0.subrange(0, len as int) =~= tiles0);
        }

        // A player left without any tile is defeated.
        let ghost map_swept = self.spec_map();
        let ghost turn0 = self.spec_turn();
        let mut k3: usize = 0;
        while k3 < self.players.len()
            invariant
                self.spec_map() == map_swept,
                self.spec_turn() == turn0,
                players0 == old(self).spec_players(),
                tiles0 == old(self).spec_map().spec_tiles(),
                tiles0.len() <= usize::MAX,
                self.players@.len() == players0.len(),
                k3 <= players0.len(),
                forall|j: int|
                    0 <= j < k3 ==> (#[trigger] self.players@[j]) == spec_recounted(
                        players0[j],
                        tiles0,
                        turn0,
                    ),
                forall|j: int|
                    k3 <= j < players0.len() ==> (#[trigger] self.players@[j]) == (Player {
                        owned_tiles: count_owned(tiles0, players0[j].id) as usize,
                        ..players0[j]
                    }),
            decreases self.players.len() - k3,
        {
            let mut player = self.players[k3];
            proof {
                lemma_count_owned_le_len(tiles0, player.id);
            }
            if player.owned_tiles == 0 && !player.defeated() {
                player.defeated_at = Some(self.turn);
                self.players.set(k3, player);
            }
            proof {
                assert(self.players@[k3 as int] == spec_recounted(
                    players0[k3 as int],
                    tiles0,
                    turn0,
                ));
            }
            k3 += 1;
        }

        proof {
            assert forall|i2: int|
                0 <= i2 < self.spec_map().spec_tiles().len() && (
                #[trigger] self.spec_map().spec_tiles()[i2]).owner is Some implies has_player(
                self.spec_players(),
                self.spec_map().spec_tiles()[i2].owner->0,
            ) by {
                let oid = self.spec_map().spec_tiles()[i2].owner->0;
                assert(tiles0[i2].owner is Some && tiles0[i2].owner->0 == oid);
                let l = choose|l: int|
                    0 <= l < players0.len() && (#[trigger] players0[l]).id == oid;
                assert(self.players@[l].id == oid);
            }
        }
        Update {
            turn: self.turn,
            players: copy_players(&self.players),
            width: self.map.width(),
            height: self.map.height(),
            is_initial_update: is_initial,
            tiles: updated_tiles,
        }
    }
}

} // verus!
