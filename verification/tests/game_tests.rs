use generals::connection::{Action, ConnectionProxy};
use generals::game::Game;
use generals::grid::Grid;
use generals::map::{Direction, GameMap, Move};
use generals::server::{ActiveGame, PendingGame};
use generals::tile::Tile;

/// A small board for one player: a general with 10 units at 0, a city with
/// 8 units at 1, an open tile with 20 units at 2, all owned by player 1,
/// and a mountain at 3.
fn small_board() -> GameMap {
    let mut grid = Grid::new(|_idx: usize| Tile::new(), 4, 1);
    {
        let tile = grid.get_mut(0);
        tile.make_general();
        tile.set_owner(Some(1));
        tile.set_units(10);
        tile.set_clean();
    }
    {
        let tile = grid.get_mut(1);
        tile.make_city();
        tile.set_owner(Some(1));
        tile.set_units(8);
        tile.set_clean();
    }
    {
        let tile = grid.get_mut(2);
        tile.make_open();
        tile.set_owner(Some(1));
        tile.set_units(20);
        tile.set_clean();
    }
    GameMap::from_grid(grid)
}

#[test]
fn reinforcement_cadence() {
    // Generals and occupied cities gain one unit on every even turn; every
    // owned tile gains one when the turn is a multiple of fifty.
    let mut game = Game::with_map(small_board(), &vec![1]);
    for _ in 0..50 {
        game.incr_turn();
    }
    assert_eq!(game.turn(), 50);
    // 25 even turns, plus the full sweep at turn 50 which they also get
    assert_eq!(game.map().get(0).units(), 35);
    assert_eq!(game.map().get(1).units(), 33);
    // the plain tile only gains on the full sweep
    assert_eq!(game.map().get(2).units(), 21);
}

#[test]
fn update_counts_owned_tiles() {
    // After an update, each player's tile count matches the board exactly.
    let mut game = Game::with_map(small_board(), &vec![1]);
    let update = game.get_update();
    assert_eq!(update.players.len(), 1);
    assert_eq!(update.players[0].id, 1);
    assert_eq!(update.players[0].owned_tiles, 3);
    assert!(update.players[0].defeated_at.is_none());
}

#[test]
fn update_clears_dirty_tiles() {
    // The first update carries the whole board; once the turn has moved
    // past zero, an update with no change in between carries nothing.
    let mut game = Game::with_map(small_board(), &vec![1]);
    let first = game.get_update();
    assert!(first.is_initial_update);
    assert_eq!(first.tiles.len(), 4);

    game.incr_turn();
    // turn 1 owes nobody a reinforcement, and nothing else moved
    let second = game.get_update();
    assert!(!second.is_initial_update);
    assert_eq!(second.tiles.len(), 0);
}

#[test]
fn update_marks_landless_player_defeated() {
    // A player whose id owns nothing on the board is marked defeated by the
    // update sweep at the current turn.
    let mut grid = Grid::new(|_idx: usize| Tile::new(), 2, 1);
    {
        let tile = grid.get_mut(0);
        tile.make_general();
        tile.set_owner(Some(0));
        tile.set_units(1);
        tile.set_clean();
    }
    let mut game = Game::with_map(GameMap::from_grid(grid), &vec![0, 7]);
    let update = game.get_update();
    assert_eq!(update.players[0].defeated_at, None);
    assert_eq!(update.players[1].owned_tiles, 0);
    assert_eq!(update.players[1].defeated_at, Some(0));
}

#[test]
fn filtered_update_hides_the_fog() {
    // Player 2 sees nothing of this board: a filtered initial update
    // withholds every owner and unit count, strips the general down to a
    // plain open tile, and turns the city into a mountain.
    let mut game = Game::with_map(small_board(), &vec![1]);
    let update = game.get_update();
    let for_owner = update.filtered(1);
    // the owner sees every tile as it is, but the mountain carries no info
    assert_eq!(for_owner.tiles.len(), 4);
    assert_eq!(for_owner.tiles[0].1.units(), 10);
    assert!(for_owner.tiles[0].1.is_general());

    let for_stranger = update.filtered(2);
    assert_eq!(for_stranger.tiles.len(), 4);
    let (_, general) = &for_stranger.tiles[0];
    assert_eq!(general.units(), 0);
    assert!(general.is_open());
    assert_eq!(general.owner(), None);
    let (_, city) = &for_stranger.tiles[1];
    assert!(city.is_mountain());
    assert_eq!(city.owner(), None);
    let (_, open) = &for_stranger.tiles[2];
    assert_eq!(open.units(), 0);
    // the fog withholds the owner of every hidden tile, whatever its kind
    assert_eq!(open.owner(), None);
}

#[test]
fn resignation_is_recorded_once() {
    let mut game = Game::with_map(small_board(), &vec![1]);
    game.incr_turn();
    game.incr_turn();
    game.resign(1);
    assert_eq!(game.players()[0].defeated_at, Some(2));
    game.incr_turn();
    game.resign(1);
    // the first resignation stands
    assert_eq!(game.players()[0].defeated_at, Some(2));
}

#[test]
fn generated_generals_are_spread_out() {
    // The generator returns one general per player, pairwise at least ten
    // cells apart, on boards sized with the player count.
    let (generals, map) = GameMap::generate(3);
    assert_eq!(generals.len(), 3);
    let width = map.width();
    let height = map.height();
    assert!((20..=26).contains(&width));
    assert!((20..=26).contains(&height));
    for k in 0..generals.len() {
        let g = map.get(generals[k]);
        assert!(g.is_general());
        for l in 0..generals.len() {
            if k != l {
                let (c1, r1) = (generals[k] % width, generals[k] / width);
                let (c2, r2) = (generals[l] % width, generals[l] / width);
                let dist = c1.abs_diff(c2) + r1.abs_diff(r2);
                assert!(dist >= 10, "generals {} and {} are too close", generals[k], generals[l]);
            }
        }
    }
}

#[test]
fn generated_generals_are_reachable() {
    // Every general can be walked to from the first one over non-mountain
    // tiles.
    let (generals, map) = GameMap::generate(4);
    let width = map.width();
    let height = map.height();
    let total = width * height;
    // breadth-first sweep from the first general over open terrain
    let mut seen = vec![false; total];
    let mut queue = std::collections::VecDeque::new();
    seen[generals[0]] = true;
    queue.push_back(generals[0]);
    while let Some(i) = queue.pop_front() {
        let (c, r) = (i % width, i / width);
        let mut neighbors = Vec::new();
        if r > 0 {
            neighbors.push(i - width);
        }
        if r + 1 < height {
            neighbors.push(i + width);
        }
        if c > 0 {
            neighbors.push(i - 1);
        }
        if c + 1 < width {
            neighbors.push(i + 1);
        }
        for n in neighbors {
            if !seen[n] && !map.get(n).is_mountain() {
                seen[n] = true;
                queue.push_back(n);
            }
        }
    }
    for g in &generals {
        assert!(seen[*g], "general {} is cut off", g);
    }
}

#[test]
fn drained_actions_feed_the_queue() {
    // A move is queued under the endpoint's own player, cancelling clears
    // the queue, and a resignation latches.
    let mut proxy = ConnectionProxy::new(3);
    let actions = vec![
        Action::Move(Move { player: 9, from: 4, direction: Direction::Right }),
        Action::Move(Move { player: 9, from: 5, direction: Direction::Down }),
    ];
    proxy.drain_actions(&actions, false);
    assert!(!proxy.has_resigned());
    let first = proxy.get_move().unwrap();
    assert_eq!(first.player, 3);
    assert_eq!(first.from, 4);
    let second = proxy.get_move().unwrap();
    assert_eq!(second.from, 5);
    assert!(proxy.get_move().is_none());

    let actions = vec![
        Action::Move(Move { player: 9, from: 4, direction: Direction::Right }),
        Action::CancelMoves,
    ];
    proxy.drain_actions(&actions, false);
    assert!(proxy.get_move().is_none());
    assert!(!proxy.has_resigned());

    let actions = vec![
        Action::Resign,
        Action::Move(Move { player: 9, from: 4, direction: Direction::Right }),
    ];
    proxy.drain_actions(&actions, false);
    assert!(proxy.has_resigned());
    assert!(proxy.get_move().is_none());
}

#[test]
fn closed_transport_resigns() {
    let mut proxy = ConnectionProxy::new(0);
    proxy.drain_actions(&vec![], true);
    assert!(proxy.has_resigned());
}

#[test]
fn lobby_promotes_when_full() {
    let mut pending = PendingGame::new();
    pending.add(ConnectionProxy::new(0));
    assert!(!pending.is_ready());
    pending.add(ConnectionProxy::new(1));
    assert!(pending.is_ready());
    let mut active = ActiveGame::from_pending(&mut pending);
    assert_eq!(active.nb_players(), 2);
    assert!(!pending.is_ready());
    assert_eq!(active.game().turn(), 0);

    // a full or closed update channel forces the player out
    active.force_resign(1);
    assert!(active.has_resigned(1));
    assert!(!active.has_resigned(0));
}

#[test]
fn runner_applies_one_move_per_tick() {
    // Two queued moves: one tick applies only the first; the next tick
    // applies the second.
    let mut grid = Grid::new(|_idx: usize| Tile::new(), 4, 1);
    for i in 0..3 {
        let tile = grid.get_mut(i);
        tile.make_open();
    }
    {
        let tile = grid.get_mut(0);
        tile.set_owner(Some(0));
        tile.set_units(9);
        tile.set_clean();
    }
    let game = Game::with_map(GameMap::from_grid(grid), &vec![0]);
    let proxy = ConnectionProxy::new(0);
    let mut active = ActiveGame::from_parts(game, vec![proxy]);

    let polled = vec![(
        vec![
            Action::Move(Move { player: 0, from: 0, direction: Direction::Right }),
            Action::Move(Move { player: 0, from: 1, direction: Direction::Right }),
        ],
        false,
    )];
    active.process_players_actions(&polled);
    assert_eq!(active.game().map().get(0).units(), 1);
    assert_eq!(active.game().map().get(1).units(), 8);
    assert_eq!(active.game().map().get(1).owner(), Some(0));
    assert_eq!(active.game().map().get(2).units(), 0);

    let polled = vec![(vec![], false)];
    active.process_players_actions(&polled);
    assert_eq!(active.game().map().get(1).units(), 1);
    assert_eq!(active.game().map().get(2).units(), 7);
}
