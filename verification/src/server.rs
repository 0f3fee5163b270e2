//! The lobby that gathers connections into a pending game, and the running
//! game that owns a board and its endpoints and advances one tick at a
//! time.

use vstd::prelude::*;

use crate::connection::{spec_drain, Action, ConnectionProxy};
use crate::game::{distinct_ids, has_player, pairs_view, spec_collected, spec_recounted, Game, Update};
use crate::map::{spec_perform_err, spec_perform_ok};
use crate::player::Player;
use crate::tile::TileView;
use crate::map::Move;
use crate::player::PlayerId;

verus! {

/// What one endpoint's queue and latch become once a polled batch lands: a
/// closed transport counts as a resignation on top of whatever was drained.
pub open spec fn spec_after_poll(
    queue: Seq<Move>,
    resigned: bool,
    actions: Seq<Action>,
    player: PlayerId,
    transport_closed: bool,
) -> (Seq<Move>, bool) {
    let drained = spec_drain(queue, resigned, actions, player);
    if transport_closed {
        (Seq::empty(), true)
    } else {
        drained
    }
}

/// The move one endpoint surrenders this tick, if any: the oldest move of
/// its drained queue, unless the endpoint resigned on the way.
pub open spec fn spec_tick_move(
    c: ConnectionProxy,
    actions: Seq<Action>,
    transport_closed: bool,
) -> Option<crate::map::Move> {
    let after = spec_after_poll(
        c.spec_pending(),
        c.spec_resigned(),
        actions,
        c.spec_player(),
        transport_closed,
    );
    if after.1 || after.0.len() == 0 {
        None
    } else {
        Some(after.0.first())
    }
}

/// The board after one submitted move lands at the game layer: ignored
/// unless its player is known and still standing, and then applied exactly
/// as the map resolves it.
pub open spec fn spec_move_applied(
    tiles: Seq<TileView>,
    width: int,
    height: int,
    players: Seq<Player>,
    mv: crate::map::Move,
) -> Seq<TileView> {
    if exists|j: int|
        0 <= j < players.len() && (#[trigger] players[j]).id == mv.player
            && players[j].spec_can_move() {
        if spec_perform_err(tiles, width, height, mv) is Some {
            tiles
        } else {
            spec_perform_ok(tiles, width, height, mv)
        }
    } else {
        tiles
    }
}

/// The board after the first `upto` endpoints of a tick have acted, in
/// admission order: each standing endpoint surrenders at most its oldest
/// move; resignations touch the roster, never the board.
pub open spec fn spec_round_tiles(
    tiles: Seq<TileView>,
    width: int,
    height: int,
    players: Seq<Player>,
    connections: Seq<ConnectionProxy>,
    polled: Seq<(Vec<Action>, bool)>,
    upto: int,
) -> Seq<TileView>
    decreases upto,
{
    if upto <= 0 {
        tiles
    } else {
        let prev = spec_round_tiles(tiles, width, height, players, connections, polled, upto - 1);
        let c = connections[upto - 1];
        if c.spec_resigned() {
            prev
        } else {
            match spec_tick_move(c, polled[upto - 1].0@, polled[upto - 1].1) {
                Some(mv) => spec_move_applied(prev, width, height, players, mv),
                None => prev,
            }
        }
    }
}

/// A player after the resignations of a tick: marked defeated at the
/// current turn if their endpoint went away and they still stood, and left
/// alone otherwise.
pub open spec fn spec_round_player(
    p: Player,
    c: ConnectionProxy,
    actions: Seq<Action>,
    transport_closed: bool,
    turn: int,
) -> Player {
    let after = spec_after_poll(
        c.spec_pending(),
        c.spec_resigned(),
        actions,
        c.spec_player(),
        transport_closed,
    );
    if !c.spec_resigned() && after.1 && p.defeated_at is None {
        Player { defeated_at: Some(turn as usize), ..p }
    } else {
        p
    }
}

/// A game waiting for enough players to join.
#[derive(Debug)]
pub struct PendingGame {
    connections: Vec<ConnectionProxy>,
    size: usize,
}

impl PendingGame {
    /// The endpoints gathered so far.
    pub closed spec fn spec_connections(self) -> Seq<ConnectionProxy> {
        self.connections@
    }

    /// How many players a game waits for.
    pub closed spec fn spec_size(self) -> int {
        self.size as int
    }

    /// Return an empty lobby waiting for two players.
    pub fn new() -> (p: PendingGame)
        ensures
            p.spec_connections().len() == 0,
            p.spec_size() == 2,
    {
        PendingGame { connections: Vec::new(), size: 2 }
    }

    /// Add a newly accepted endpoint to the pending game.
    pub fn add(&mut self, connection: ConnectionProxy)
        ensures
            final(self).spec_connections() == old(self).spec_connections().push(connection),
            final(self).spec_size() == old(self).spec_size(),
    {
        self.connections.push(connection);
    }

    /// Return whether enough players have joined to start.
    pub fn is_ready(&self) -> (r: bool)
        ensures
            r == (self.spec_connections().len() == self.spec_size()),
    {
        self.connections.len() == self.size
    }
}

/// One running game: the game state and the endpoint of every admitted
/// player, aligned index for index.
#[derive(Debug)]
pub struct ActiveGame {
    game: Game,
    connections: Vec<ConnectionProxy>,
}

impl ActiveGame {
    /// The game being played.
    pub closed spec fn spec_game(self) -> Game {
        self.game
    }

    /// The endpoints, one per player, in admission order.
    pub closed spec fn spec_connections(self) -> Seq<ConnectionProxy> {
        self.connections@
    }

    /// A running game is well formed when its game is, and the `k`-th
    /// endpoint speaks for the `k`-th player.
    pub open spec fn wf(self) -> bool {
        &&& self.spec_game().wf()
        &&& self.spec_connections().len() == self.spec_game().spec_players().len()
        &&& forall|k: int|
            0 <= k < self.spec_connections().len() ==> (#[trigger] self.spec_connections()[k]).spec_player()
                == self.spec_game().spec_players()[k].id
        &&& forall|k: int|
            0 <= k < self.spec_connections().len() ==> (#[trigger] self.spec_connections()[k]).queue_owned()
    }

    /// Promote a full pending game: its endpoints are drained into a fresh
    /// running game, and the lobby starts gathering the next game. Each
    /// endpoint must already have been admitted under its position.
    pub fn from_pending(pending: &mut PendingGame) -> (r: ActiveGame)
        requires
            1 <= old(pending).spec_connections().len() <= 8,
            forall|k: int|
                0 <= k < old(pending).spec_connections().len() ==> (#[trigger] old(
                    pending,
                ).spec_connections()[k]).spec_player() == k,
            forall|k: int|
                0 <= k < old(pending).spec_connections().len() ==> (#[trigger] old(pending).spec_connections()[k]).queue_owned(),
        ensures
            r.wf(),
            final(pending).spec_connections().len() == 0,
            final(pending).spec_size() == old(pending).spec_size(),
            r.spec_game().spec_turn() == 0,
            r.spec_game().spec_players().len() == old(pending).spec_connections().len(),
            r.spec_connections() == old(pending).spec_connections(),
            // each admitted endpoint gets a fresh player, in order, with
            // their one starting tile credited
            forall|k: int|
                0 <= k < old(pending).spec_connections().len() ==> #[trigger] r.spec_game().spec_players()[k] == (Player {
                    id: k as usize,
                    owned_tiles: 1,
                    defeated_at: None,
                }),
            // and the game starts on a freshly generated board with one
            // general per player
            ({
                let ids = Seq::new(old(pending).spec_connections().len(), |j: int| j as usize);
                exists|generals: Seq<usize>|
                    #[trigger] crate::game::spec_starting_board(
                        r.spec_game().spec_map().spec_tiles(),
                        r.spec_game().spec_map().spec_width(),
                        r.spec_game().spec_map().spec_height(),
                        ids,
                        generals,
                    )
            }),
    {
        let mut connections: Vec<ConnectionProxy> = Vec::new();
        core::mem::swap(&mut connections, &mut pending.connections);
        let mut player_ids: Vec<PlayerId> = Vec::new();
        let mut k: usize = 0;
        while k < connections.len()
            invariant
                k <= connections@.len(),
                player_ids@.len() == k,
                forall|j: int| 0 <= j < k ==> #[trigger] player_ids@[j] == j,
            decreases connections.len() - k,
        {
            player_ids.push(k);
            k += 1;
        }
        let game = Game::new(player_ids);
        proof {
            let n = connections@.len();
            assert(player_ids@ =~= Seq::new(n, |j: int| j as usize));
            let generals_w = choose|generals: Seq<usize>|
                crate::game::spec_starting_board(
                    game.spec_map().spec_tiles(),
                    game.spec_map().spec_width(),
                    game.spec_map().spec_height(),
                    player_ids@,
                    generals,
                );
            assert(crate::game::spec_starting_board(
                game.spec_map().spec_tiles(),
                game.spec_map().spec_width(),
                game.spec_map().spec_height(),
                Seq::new(n, |j: int| j as usize),
                generals_w,
            ));
        }
        ActiveGame { game, connections }
    }

    /// Assemble a running game from a game and its endpoints, one per
    /// player in admission order.
    pub fn from_parts(game: Game, connections: Vec<ConnectionProxy>) -> (r: ActiveGame)
        requires
            game.wf(),
            connections@.len() == game.spec_players().len(),
            forall|k: int|
                0 <= k < connections@.len() ==> (#[trigger] connections@[k]).spec_player()
                    == game.spec_players()[k].id,
            forall|k: int|
                0 <= k < connections@.len() ==> (#[trigger] connections@[k]).queue_owned(),
        ensures
            r.wf(),
            r.spec_game() == game,
            r.spec_connections() == connections@,
    {
        ActiveGame { game, connections }
    }

    /// How many players the game was started with.
    pub fn nb_players(&self) -> (r: usize)
        requires
            self.wf(),
        ensures
            r == self.spec_connections().len(),
    {
        self.connections.len()
    }

    /// Return whether the player behind endpoint `k` is gone.
    pub fn has_resigned(&self, k: usize) -> (r: bool)
        requires
            self.wf(),
            k < self.spec_connections().len(),
        ensures
            r == self.spec_connections()[k as int].spec_resigned(),
    {
        self.connections[k].has_resigned()
    }

    /// The game being played.
    pub fn game(&self) -> (r: &Game)
        ensures
            *r == self.spec_game(),
    {
        &self.game
    }

    /// Drain each endpoint's polled actions and let every still-standing
    /// player act: a resigned or cut-off endpoint resigns its player, any
    /// other applies at most its oldest queued move, in admission order.
    /// Each applied move changes the board exactly as `Game::perform_move`
    /// says; excess moves stay queued for subsequent ticks.
    pub fn process_players_actions(&mut self, polled: &Vec<(Vec<Action>, bool)>)
        requires
            old(self).wf(),
            polled@.len() == old(self).spec_connections().len(),
        ensures
            final(self).wf(),
            final(self).spec_game().spec_turn() == old(self).spec_game().spec_turn(),
            final(self).spec_game().spec_map().spec_width() == old(self).spec_game().spec_map().spec_width(),
            final(self).spec_game().spec_map().spec_height() == old(self).spec_game().spec_map().spec_height(),
            final(self).spec_connections().len() == old(self).spec_connections().len(),
            final(self).spec_game().spec_players().len() == old(self).spec_game().spec_players().len(),
            // endpoints already gone are left alone
            forall|k: int|
                0 <= k < old(self).spec_connections().len() && (#[trigger] old(self).spec_connections()[k]).spec_resigned() ==> final(self).spec_connections()[k]
                    == old(self).spec_connections()[k],
            // the others are drained, and surrender their oldest move
            forall|k: int|
                0 <= k < old(self).spec_connections().len() && !(#[trigger] old(self).spec_connections()[k]).spec_resigned() ==> ({
                    let c = old(self).spec_connections()[k];
                    let after = spec_after_poll(
                        c.spec_pending(),
                        c.spec_resigned(),
                        polled@[k].0@,
                        c.spec_player(),
                        polled@[k].1,
                    );
                    let cf = final(self).spec_connections()[k];
                    &&& cf.spec_player() == c.spec_player()
                    &&& cf.spec_resigned() == after.1
                    &&& cf.spec_pending() == (if after.1 || after.0.len() == 0 {
                        after.0
                    } else {
                        after.0.subrange(1, after.0.len() as int)
                    })
                }),
            // a player whose endpoint went away this tick is marked defeated
            forall|k: int|
                0 <= k < old(self).spec_game().spec_players().len() ==> #[trigger] final(self).spec_game().spec_players()[k] == spec_round_player(
                    old(self).spec_game().spec_players()[k],
                    old(self).spec_connections()[k],
                    polled@[k].0@,
                    polled@[k].1,
                    old(self).spec_game().spec_turn(),
                ),
            // the surrendered moves land on the board in admission order
            final(self).spec_game().spec_map().spec_tiles() == spec_round_tiles(
                old(self).spec_game().spec_map().spec_tiles(),
                old(self).spec_game().spec_map().spec_width(),
                old(self).spec_game().spec_map().spec_height(),
                old(self).spec_game().spec_players(),
                old(self).spec_connections(),
                polled@,
                old(self).spec_connections().len() as int,
            ),
    {
        let ghost tiles0 = self.spec_game().spec_map().spec_tiles();
        let ghost players0 = self.spec_game().spec_players();
        let ghost connections0 = self.spec_connections();
        let ghost w = self.spec_game().spec_map().spec_width();
        let ghost h = self.spec_game().spec_map().spec_height();
        let ghost turn0 = self.spec_game().spec_turn();
        let n = self.connections.len();
        let mut k: usize = 0;
        while k < n
            invariant
                self.wf(),
                n == self.spec_connections().len(),
                k <= n,
                polled@.len() == n,
                tiles0 == old(self).spec_game().spec_map().spec_tiles(),
                players0 == old(self).spec_game().spec_players(),
                connections0 == old(self).spec_connections(),
                connections0.len() == n,
                w == old(self).spec_game().spec_map().spec_width(),
                h == old(self).spec_game().spec_map().spec_height(),
                turn0 == old(self).spec_game().spec_turn(),
                players0.len() == n,
                distinct_ids(players0),
                self.spec_game().spec_turn() == turn0,
                self.spec_game().spec_map().spec_width() == w,
                self.spec_game().spec_map().spec_height() == h,
                self.spec_game().spec_players().len() == n,
                forall|j: int|
                    k <= j < n ==> #[trigger] self.spec_connections()[j] == connections0[j],
                forall|j: int|
                    0 <= j < k && (#[trigger] connections0[j]).spec_resigned()
                        ==> self.spec_connections()[j] == connections0[j],
                forall|j: int|
                    0 <= j < k && !(#[trigger] connections0[j]).spec_resigned()
                        ==> ({
                        let c = connections0[j];
                        let after = spec_after_poll(
                            c.spec_pending(),
                            c.spec_resigned(),
                            polled@[j].0@,
                            c.spec_player(),
                            polled@[j].1,
                        );
                        let cf = self.spec_connections()[j];
                        &&& cf.spec_player() == c.spec_player()
                        &&& cf.spec_resigned() == after.1
                        &&& cf.spec_pending() == (if after.1 || after.0.len() == 0 {
                            after.0
                        } else {
                            after.0.subrange(1, after.0.len() as int)
                        })
                    }),
                forall|j: int|
                    0 <= j < k ==> #[trigger] self.spec_game().spec_players()[j]
                        == spec_round_player(
                        players0[j],
                        connections0[j],
                        polled@[j].0@,
                        polled@[j].1,
                        turn0,
                    ),
                forall|j: int|
                    k <= j < n ==> #[trigger] self.spec_game().spec_players()[j] == players0[j],
                self.spec_game().spec_map().spec_tiles() == spec_round_tiles(
                    tiles0,
                    w,
                    h,
                    players0,
                    connections0,
                    polled@,
                    k as int,
                ),
            decreases n - k,
        {
            let ghost players_pre = self.spec_game().spec_players();
            let ghost tiles_pre = self.spec_game().spec_map().spec_tiles();
            // Do not take any more actions from players that have resigned
            if !self.connections[k].has_resigned() {
                let entry = &polled[k];
                let connection = &mut self.connections[k];
                connection.drain_actions(&entry.0, entry.1);
                let resigned_now = connection.has_resigned();
                let taken = if resigned_now {
                    None
                } else {
                    connection.get_move()
                };
                let player = self.connections[k].player();
                proof {
                    assert(player == players0[k as int].id);
                    assert(has_player(self.spec_game().spec_players(), player)) by {
                        assert(self.spec_game().spec_players()[k as int].id == player);
                    }
                    assert forall|l: int|
                        0 <= l < players0.len() && (#[trigger] players_pre[l]).id
                            == player implies l == k by {
                        if l != k as int {
                            assert(players0[l].id != players0[k as int].id);
                        }
                    }
                }
                if resigned_now {
                    self.game.resign(player);
                    proof {
                        assert(self.spec_game().spec_players()[k as int] == spec_round_player(
                            players0[k as int],
                            connections0[k as int],
                            polled@[k as int].0@,
                            polled@[k as int].1,
                            turn0,
                        ));
                        assert forall|j: int|
                            k + 1 <= j < n implies #[trigger] self.spec_game().spec_players()[j]
                            == players0[j] by {
                            assert(players_pre[j] == players0[j]);
                            assert(players0[j].id != players0[k as int].id);
                        }
                    }
                } else if let Some(mv) = taken {
                    proof {
                        // the drain wrote this endpoint's player into every
                        // queued move
                        assert(mv.player == player);
                    }
                    self.game.perform_move(mv);
                    proof {
                        let applied = spec_move_applied(tiles_pre, w, h, players0, mv);
                        if exists|j: int|
                            0 <= j < players0.len() && (#[trigger] players0[j]).id == mv.player
                                && players0[j].spec_can_move() {
                            let j = choose|j: int|
                                0 <= j < players0.len() && (#[trigger] players0[j]).id
                                    == mv.player && players0[j].spec_can_move();
                            assert(j == k);
                            assert(players_pre[k as int] == players0[k as int]);
                            assert(self.spec_game().spec_map().spec_tiles() == applied);
                        } else {
                            assert(!players0[k as int].spec_can_move());
                            assert(players_pre[k as int] == players0[k as int]);
                            assert(self.spec_game().spec_map().spec_tiles() == tiles_pre);
                        }
                    }
                }
            }
            proof {
                assert(self.spec_game().spec_map().spec_tiles() == spec_round_tiles(
                    tiles0,
                    w,
                    h,
                    players0,
                    connections0,
                    polled@,
                    k + 1,
                ));
            }
            k += 1;
        }
    }

    /// Force the player behind endpoint `k` out: used when their update
    /// channel is full or closed, since a client that misses one update can
    /// never be brought back in step.
    pub fn force_resign(&mut self, k: usize)
        requires
            old(self).wf(),
            k < old(self).spec_connections().len(),
        ensures
            final(self).wf(),
            final(self).spec_game().spec_turn() == old(self).spec_game().spec_turn(),
            final(self).spec_game().spec_map() == old(self).spec_game().spec_map(),
            final(self).spec_connections()[k as int].spec_resigned(),
            final(self).spec_connections()[k as int].spec_pending() == Seq::<Move>::empty(),
            final(self).spec_connections().len() == old(self).spec_connections().len(),
            forall|j: int|
                0 <= j < old(self).spec_connections().len() && j != k ==> final(self).spec_connections()[j] == old(self).spec_connections()[j],
            // the player behind the endpoint is marked defeated now, unless
            // they already were; nobody else moves
            final(self).spec_game().spec_players().len() == old(self).spec_game().spec_players().len(),
            final(self).spec_game().spec_players()[k as int] == (Player {
                defeated_at: if old(self).spec_game().spec_players()[k as int].defeated_at
                    is Some {
                    old(self).spec_game().spec_players()[k as int].defeated_at
                } else {
                    Some(old(self).spec_game().spec_turn() as usize)
                },
                ..old(self).spec_game().spec_players()[k as int]
            }),
            forall|j: int|
                0 <= j < old(self).spec_game().spec_players().len() && j != k ==> final(self).spec_game().spec_players()[j] == old(self).spec_game().spec_players()[j],
    {
        let connection = &mut self.connections[k];
        connection.resign();
        let player = self.connections[k].player();
        proof {
            assert(has_player(self.spec_game().spec_players(), player)) by {
                assert(self.spec_game().spec_players()[k as int].id == player);
            }
        }
        self.game.resign(player);
        proof {
            assert forall|l: int|
                0 <= l < old(self).spec_game().spec_players().len() && (#[trigger] old(self).spec_game().spec_players()[l]).id == player implies l == k by {
                if l != k as int {
                    assert(old(self).spec_game().spec_players()[l].id != old(self).spec_game().spec_players()[k as int].id);
                }
            }
        }
    }

    /// Advance the game clock by one turn, reinforcing what the schedule
    /// owes.
    pub fn incr_turn(&mut self)
        requires
            old(self).wf(),
            old(self).spec_game().spec_turn() < usize::MAX,
        ensures
            final(self).wf(),
            final(self).spec_game().spec_turn() == old(self).spec_game().spec_turn() + 1,
            final(self).spec_connections() == old(self).spec_connections(),
            final(self).spec_game().spec_players() == old(self).spec_game().spec_players(),
            final(self).spec_game().spec_map().spec_width() == old(self).spec_game().spec_map().spec_width(),
            final(self).spec_game().spec_map().spec_height() == old(self).spec_game().spec_map().spec_height(),
            final(self).spec_game().spec_map().spec_tiles().len() == old(self).spec_game().spec_map().spec_tiles().len(),
            // the schedule's reinforcement lands with the new turn
            forall|i: int|
                0 <= i < old(self).spec_game().spec_map().spec_tiles().len() ==> final(self).spec_game().spec_map().spec_tiles()[i] == crate::game::spec_game_reinforce_tile(
                    #[trigger] old(self).spec_game().spec_map().spec_tiles()[i],
                    old(self).spec_game().spec_turn() + 1,
                ),
    {
        self.game.incr_turn();
    }

    /// Render the update for this tick: the dirty tiles, cleared as they
    /// go, and the recounted players. The caller filters it per player and
    /// sends it.
    pub fn get_update(&mut self) -> (u: Update)
        requires
            old(self).wf(),
        ensures
            final(self).wf(),
            final(self).spec_game().spec_turn() == old(self).spec_game().spec_turn(),
            final(self).spec_connections() == old(self).spec_connections(),
            u.turn == old(self).spec_game().spec_turn(),
            u.is_initial_update == (old(self).spec_game().spec_turn() == 0),
            forall|i: int|
                0 <= i < old(self).spec_game().spec_map().spec_tiles().len() ==> #[trigger] final(self).spec_game().spec_map().spec_tiles()[i] == (TileView {
                    dirty: Set::empty(),
                    ..old(self).spec_game().spec_map().spec_tiles()[i]
                }),
            u.players@.len() == old(self).spec_game().spec_players().len(),
            forall|k: int|
                0 <= k < old(self).spec_game().spec_players().len() ==> #[trigger] u.players@[k]
                    == spec_recounted(
                    old(self).spec_game().spec_players()[k],
                    old(self).spec_game().spec_map().spec_tiles(),
                    old(self).spec_game().spec_turn(),
                ),
            pairs_view(u.tiles@) == spec_collected(
                old(self).spec_game().spec_map().spec_tiles(),
                old(self).spec_game().spec_turn() == 0,
            ),
    {
        self.game.get_update()
    }
}

} // verus!
