//! The game map: a grid of tiles, the move entry point, the fog-of-war
//! horizon updates, and the reinforcement sweep.

use vstd::prelude::*;

use crate::grid::{
    ext_adjacent, grid_valid_index, spec_down, spec_left, spec_right, spec_up, Grid,
};
use crate::player::PlayerId;
use crate::tile::{
    attack_dst, attack_error, attack_outcome, attack_src, spec_hide_from, spec_incr_units,
    spec_reveal_to, spec_set_owner, InvalidMove, MoveOutcome, Tile, TileKind, TileView,
};

verus! {

/// Represent a move from one tile to another. During a move, units are
/// transferred from one tile to an adjacent tile.
#[derive(Copy, Clone, Debug)]
pub struct Move {
    /// Player that is making the move.
    pub player: PlayerId,
    /// Index of the tile from which troops are being moved.
    pub from: usize,
    /// Direction to which the troops are being moved.
    pub direction: Direction,
}

/// The four directions a move can take.
#[derive(Copy, Clone, Debug, PartialEq, Eq, Structural)]
pub enum Direction {
    Right,
    Left,
    Up,
    Down,
}

/// The index of the tile a move goes to, where there is one.
pub open spec fn spec_move_dst(width: int, height: int, mv: Move) -> Option<int> {
    match mv.direction {
        Direction::Right => spec_right(width, height, mv.from as int),
        Direction::Left => spec_left(width, height, mv.from as int),
        Direction::Up => spec_up(width, height, mv.from as int),
        Direction::Down => spec_down(width, height, mv.from as int),
    }
}

/// Whether some extended neighbor of `idx` is owned by `player`.
pub open spec fn owns_ext_neighbor(
    tiles: Seq<TileView>,
    width: int,
    height: int,
    player: PlayerId,
    idx: int,
) -> bool {
    exists|j: int|
        #[trigger] ext_adjacent(width, height, idx, j) && tiles[j].owner == Some(player)
}

/// The board after the horizon of `player` grows around `idx`: every
/// non-mountain extended neighbor of `idx` is revealed to the player.
pub open spec fn spec_enlarge(
    tiles: Seq<TileView>,
    width: int,
    height: int,
    player: PlayerId,
    idx: int,
) -> Seq<TileView> {
    Seq::new(
        tiles.len(),
        |n: int|
            if ext_adjacent(width, height, idx, n) && tiles[n].kind != TileKind::Mountain {
                spec_reveal_to(tiles[n], player)
            } else {
                tiles[n]
            },
    )
}

/// The board after the horizon of `player` shrinks around `idx`: every
/// non-mountain extended neighbor of `idx` that shows the player, but has no
/// extended neighbor of its own owned by the player, hides from them.
pub open spec fn spec_shrink(
    tiles: Seq<TileView>,
    width: int,
    height: int,
    player: PlayerId,
    idx: int,
) -> Seq<TileView> {
    Seq::new(
        tiles.len(),
        |n: int|
            if ext_adjacent(width, height, idx, n) && tiles[n].kind != TileKind::Mountain
                && tiles[n].visible.contains(player) && !owns_ext_neighbor(
                tiles,
                width,
                height,
                player,
                n,
            ) {
                spec_hide_from(tiles[n], player)
            } else {
                tiles[n]
            },
    )
}

/// One tile of the board after the general of `defeated` falls to
/// `attacker`: tiles of the defeated change hands, and everything the
/// defeated saw becomes visible to the attacker and hidden from the
/// defeated.
pub open spec fn spec_capture_tile(t: TileView, defeated: PlayerId, attacker: PlayerId) -> TileView {
    let t1 = if t.owner == Some(defeated) {
        spec_set_owner(t, Some(attacker))
    } else {
        t
    };
    if t1.visible.contains(defeated) {
        spec_reveal_to(spec_hide_from(t1, defeated), attacker)
    } else {
        t1
    }
}

/// The error `perform_move` answers for a move on the given board, or
/// `None` when the move is accepted; the checks happen in this order.
pub open spec fn spec_perform_err(
    tiles: Seq<TileView>,
    width: int,
    height: int,
    mv: Move,
) -> Option<InvalidMove> {
    if !grid_valid_index(width, height, mv.from as int) {
        Some(InvalidMove::FromInvalidTile)
    } else if spec_move_dst(width, height, mv) is None {
        Some(InvalidMove::ToInvalidTile)
    } else if tiles[mv.from as int].owner != Some(mv.player) {
        Some(InvalidMove::SourceTileNotOwned)
    } else {
        attack_error(tiles[mv.from as int], tiles[spec_move_dst(width, height, mv)->0])
    }
}

/// The board after an accepted move: the two tiles change as the resolver
/// says, and then visibility follows the outcome — nothing more on a
/// stand-off, horizon updates around the destination on a plain capture, and
/// the full territory-and-visibility transfer on a general capture.
pub open spec fn spec_perform_ok(
    tiles: Seq<TileView>,
    width: int,
    height: int,
    mv: Move,
) -> Seq<TileView> {
    let from = mv.from as int;
    let dst = spec_move_dst(width, height, mv)->0;
    let src_v = tiles[from];
    let dst_v = tiles[dst];
    let after = tiles.update(from, attack_src(src_v)).update(dst, attack_dst(src_v, dst_v));
    match attack_outcome(src_v, dst_v) {
        MoveOutcome::StatuQuo => after,
        MoveOutcome::TileCaptured(prev) => {
            let shrunk = match prev {
                Some(p) => spec_shrink(after, width, height, p, dst),
                None => after,
            };
            spec_enlarge(shrunk, width, height, mv.player, dst)
        },
        MoveOutcome::GeneralCaptured(defeated) => spec_cascade(after, defeated, mv.player),
    }
}

/// The whole board after the general of `defeated` falls to `attacker`:
/// every non-mountain tile changes as `spec_capture_tile` says.
pub open spec fn spec_cascade(
    tiles: Seq<TileView>,
    defeated: PlayerId,
    attacker: PlayerId,
) -> Seq<TileView> {
    Seq::new(
        tiles.len(),
        |i: int|
            if tiles[i].kind == TileKind::Mountain {
                tiles[i]
            } else {
                spec_capture_tile(tiles[i], defeated, attacker)
            },
    )
}

/// Whatever holds units holds at least one, and never a mountain: every
/// owned tile of the board is passable and occupied.
pub open spec fn inv_owned(tiles: Seq<TileView>) -> bool {
    forall|i: int|
        0 <= i < tiles.len() && (#[trigger] tiles[i]).owner is Some ==> tiles[i].kind
            != TileKind::Mountain && tiles[i].units >= 1
}

/// Every player sees their own tiles.
pub open spec fn inv_sees(tiles: Seq<TileView>) -> bool {
    forall|i: int|
        0 <= i < tiles.len() && (#[trigger] tiles[i]).owner is Some ==> tiles[i].visible.contains(
            tiles[i].owner->0,
        )
}

/// The fog of war lags behind ownership: whoever owns a tile next to a
/// passable tile sees that tile.
pub open spec fn inv_fog(tiles: Seq<TileView>, width: int, height: int) -> bool {
    forall|i: int, p: PlayerId|
        0 <= i < tiles.len() && grid_valid_index(width, height, i) && tiles[i].kind
            != TileKind::Mountain && #[trigger] owns_ext_neighbor(tiles, width, height, p, i)
            ==> tiles[i].visible.contains(p)
}

/// After the horizon of a player shrinks around a lost tile, the fog
/// accounting holds again there: every surrounding passable tile that still
/// shows the player has an extended neighbor they own.
pub proof fn lemma_shrink_restores_fog(
    tiles: Seq<TileView>,
    width: int,
    height: int,
    player: PlayerId,
    idx: int,
)
    requires
        tiles.len() == width * height,
    ensures
        forall|n: int|
            0 <= n < tiles.len() && ext_adjacent(width, height, idx, n) && (#[trigger] spec_shrink(
                tiles,
                width,
                height,
                player,
                idx,
            )[n]).kind != TileKind::Mountain && spec_shrink(
                tiles,
                width,
                height,
                player,
                idx,
            )[n].visible.contains(player) ==> owns_ext_neighbor(
                spec_shrink(tiles, width, height, player, idx),
                width,
                height,
                player,
                n,
            ),
{
    let result = spec_shrink(tiles, width, height, player, idx);
    assert forall|n: int|
        0 <= n < tiles.len() && ext_adjacent(width, height, idx, n) && (
        #[trigger] result[n]).kind != TileKind::Mountain && result[n].visible.contains(
            player,
        ) implies owns_ext_neighbor(result, width, height, player, n) by {
        if tiles[n].kind != TileKind::Mountain && tiles[n].visible.contains(player)
            && !owns_ext_neighbor(tiles, width, height, player, n) {
            // this tile was hidden, so the player cannot still see it
            assert(result[n] == spec_hide_from(tiles[n], player));
            assert(!result[n].visible.contains(player));
        } else {
            assert(result[n] == tiles[n]);
            assert(owns_ext_neighbor(tiles, width, height, player, n));
            let j = choose|j: int|
                #[trigger] ext_adjacent(width, height, n, j) && tiles[j].owner == Some(player);
            assert(result[j].owner == Some(player));
            assert(owns_ext_neighbor(result, width, height, player, n));
        }
    }
}

/// The exact effect of the horizon shrinking around a lost tile, read per
/// surrounding tile: the player still sees a passable neighbor of `idx`
/// exactly when they saw it before and still own a tile beside it; a tile
/// newly hidden from the player owes them a notification and loses only
/// their view; every other tile is untouched.
pub proof fn lemma_shrink_exact(
    tiles: Seq<TileView>,
    width: int,
    height: int,
    player: PlayerId,
    idx: int,
)
    requires
        tiles.len() == width * height,
    ensures
        forall|n: int|
            0 <= n < tiles.len() && ext_adjacent(width, height, idx, n) && tiles[n].kind
                != TileKind::Mountain ==> ((#[trigger] spec_shrink(
                tiles,
                width,
                height,
                player,
                idx,
            )[n]).visible.contains(player) <==> (tiles[n].visible.contains(player)
                && owns_ext_neighbor(tiles, width, height, player, n))),
        forall|n: int|
            0 <= n < tiles.len() && ext_adjacent(width, height, idx, n) && tiles[n].kind
                != TileKind::Mountain && tiles[n].visible.contains(player) && !owns_ext_neighbor(
                tiles,
                width,
                height,
                player,
                n,
            ) ==> #[trigger] spec_shrink(tiles, width, height, player, idx)[n] == (TileView {
                visible: tiles[n].visible.remove(player),
                dirty: tiles[n].dirty.insert(player),
                ..tiles[n]
            }),
        forall|n: int|
            0 <= n < tiles.len() && !(ext_adjacent(width, height, idx, n) && tiles[n].kind
                != TileKind::Mountain && tiles[n].visible.contains(player) && !owns_ext_neighbor(
                tiles,
                width,
                height,
                player,
                n,
            )) ==> #[trigger] spec_shrink(tiles, width, height, player, idx)[n] == tiles[n],
{
    let result = spec_shrink(tiles, width, height, player, idx);
    assert forall|n: int|
        0 <= n < tiles.len() && ext_adjacent(width, height, idx, n) && tiles[n].kind
            != TileKind::Mountain implies ((#[trigger] result[n]).visible.contains(player) <==> (
    tiles[n].visible.contains(player) && owns_ext_neighbor(tiles, width, height, player, n))) by {
        if tiles[n].visible.contains(player) && !owns_ext_neighbor(tiles, width, height, player, n) {
            assert(result[n] == spec_hide_from(tiles[n], player));
            assert(!result[n].visible.contains(player));
        } else {
            assert(result[n] == tiles[n]);
        }
    }
}

/// Whether a move runs into a defender holding exactly the attacking
/// force: the one family of inputs on which the stand-off leaves an owned
/// tile with nothing on it.
pub open spec fn stand_off_drains_defender(
    tiles: Seq<TileView>,
    width: int,
    height: int,
    mv: Move,
) -> bool {
    let s = tiles[mv.from as int];
    let d = tiles[spec_move_dst(width, height, mv)->0];
    &&& d.owner is Some
    &&& d.owner != s.owner
    &&& d.units == s.units - 1
}

/// An accepted move keeps every owned tile passable and occupied, as long
/// as it is not the exact stand-off in which an enemy defender holds as
/// many units as the attacking force — that defender keeps the tile drained
/// to nothing.
pub proof fn lemma_perform_ok_preserves_owned(
    tiles: Seq<TileView>,
    width: int,
    height: int,
    mv: Move,
)
    requires
        width >= 0,
        height >= 0,
        tiles.len() == width * height,
        spec_perform_err(tiles, width, height, mv) is None,
        inv_owned(tiles),
        !stand_off_drains_defender(tiles, width, height, mv),
    ensures
        inv_owned(spec_perform_ok(tiles, width, height, mv)),
{
    let from = mv.from as int;
    let dst = spec_move_dst(width, height, mv)->0;
    crate::grid::lemma_nonempty(width, height, from);
    crate::grid::lemma_cardinal_neighbor(width, height, from);
    let src_v = tiles[from];
    let dst_v = tiles[dst];
    let after = tiles.update(from, attack_src(src_v)).update(dst, attack_dst(src_v, dst_v));
    let result = spec_perform_ok(tiles, width, height, mv);
    assert(inv_owned(after)) by {
        assert forall|i: int|
            0 <= i < after.len() && (#[trigger] after[i]).owner is Some implies after[i].kind
            != TileKind::Mountain && after[i].units >= 1 by {
            if i != from && i != dst {
                assert(after[i] == tiles[i]);
            }
        }
    }
    match attack_outcome(src_v, dst_v) {
        MoveOutcome::StatuQuo => {},
        MoveOutcome::TileCaptured(prev) => {
            let shrunk = match prev {
                Some(p) => spec_shrink(after, width, height, p, dst),
                None => after,
            };
            assert forall|i: int|
                0 <= i < result.len() && (#[trigger] result[i]).owner is Some implies result[i].kind
                != TileKind::Mountain && result[i].units >= 1 by {
                assert(shrunk[i].owner == after[i].owner && shrunk[i].kind == after[i].kind
                    && shrunk[i].units == after[i].units);
                assert(result[i].owner == shrunk[i].owner && result[i].kind == shrunk[i].kind
                    && result[i].units == shrunk[i].units);
            }
        },
        MoveOutcome::GeneralCaptured(defeated) => {
            assert forall|i: int|
                0 <= i < result.len() && (#[trigger] result[i]).owner is Some implies result[i].kind
                != TileKind::Mountain && result[i].units >= 1 by {
                if after[i].kind != TileKind::Mountain {
                    assert(result[i] == spec_capture_tile(after[i], defeated, mv.player));
                    assert(result[i].kind == after[i].kind && result[i].units == after[i].units);
                    assert(result[i].owner is Some ==> after[i].owner is Some);
                }
            }
        },
    }
}

/// Whether losing the destination blinds its former owner to a holding of
/// theirs beside it: the destination was the only tile near that holding
/// the former owner still owned, so the shrinking horizon hides the holding
/// from its own owner.
pub open spec fn shrink_blinds_owner(
    tiles: Seq<TileView>,
    width: int,
    height: int,
    mv: Move,
) -> bool {
    let dst = spec_move_dst(width, height, mv)->0;
    let s = tiles[mv.from as int];
    let d = tiles[dst];
    match attack_outcome(s, d) {
        MoveOutcome::TileCaptured(prev) => prev is Some && (exists|n: int|
            #[trigger] ext_adjacent(width, height, dst, n) && tiles[n].owner == prev && !(
            exists|j: int|
                #[trigger] ext_adjacent(width, height, n, j) && j != dst && tiles[j].owner
                    == prev)),
        _ => false,
    }
}

/// An accepted move keeps every player seeing their own tiles, and the fog
/// of war trailing ownership, as long as it is not the one capture that
/// takes from a player the only tile they held near another of their
/// holdings — the shrinking horizon then hides that holding from them.
pub proof fn lemma_perform_ok_preserves_sees(
    tiles: Seq<TileView>,
    width: int,
    height: int,
    mv: Move,
)
    requires
        width >= 0,
        height >= 0,
        tiles.len() == width * height,
        spec_perform_err(tiles, width, height, mv) is None,
        inv_owned(tiles),
        inv_sees(tiles),
        inv_fog(tiles, width, height),
        !shrink_blinds_owner(tiles, width, height, mv),
    ensures
        inv_sees(spec_perform_ok(tiles, width, height, mv)),
        inv_fog(spec_perform_ok(tiles, width, height, mv), width, height),
{
    let from = mv.from as int;
    let dst = spec_move_dst(width, height, mv)->0;
    crate::grid::lemma_nonempty(width, height, from);
    crate::grid::lemma_cardinal_neighbor(width, height, from);
    let attacker = mv.player;
    let src_v = tiles[from];
    let dst_v = tiles[dst];
    let after = tiles.update(from, attack_src(src_v)).update(dst, attack_dst(src_v, dst_v));
    let result = spec_perform_ok(tiles, width, height, mv);
    assert(src_v.owner == Some(attacker));
    // the resolver moves units and owners, never visibility
    assert(forall|i: int| 0 <= i < after.len() ==> (#[trigger] after[i]).visible == tiles[i].visible);
    assert(forall|i: int|
        0 <= i < after.len() && i != dst ==> (#[trigger] after[i]).owner == tiles[i].owner);
    assert(forall|i: int|
        0 <= i < after.len() && i != dst ==> (#[trigger] after[i]).kind == tiles[i].kind);
    assert(after[dst].kind != TileKind::Mountain && after[from].kind != TileKind::Mountain);
    assert(forall|i: int|
        0 <= i < after.len() && (#[trigger] after[i]).owner is Some ==> after[i].kind
            != TileKind::Mountain);
    assert(ext_adjacent(width, height, dst, from));
    // whoever owns the destination afterwards already saw it
    assert(after[dst].owner == dst_v.owner || after[dst].owner == Some(attacker));
    assert(owns_ext_neighbor(tiles, width, height, attacker, dst));
    assert(tiles[dst].visible.contains(attacker));
    assert(inv_sees(after)) by {
        assert forall|i: int|
            0 <= i < after.len() && (#[trigger] after[i]).owner is Some implies after[i].visible.contains(
            after[i].owner->0,
        ) by {
            if i != dst {
                assert(after[i].owner == tiles[i].owner);
            }
        }
    }
    match attack_outcome(src_v, dst_v) {
        MoveOutcome::StatuQuo => {
            assert(after[dst].owner == tiles[dst].owner);
            assert(inv_fog(result, width, height)) by {
                assert forall|i: int, p: PlayerId|
                    0 <= i < result.len() && grid_valid_index(width, height, i) && result[i].kind
                        != TileKind::Mountain && #[trigger] owns_ext_neighbor(
                        result,
                        width,
                        height,
                        p,
                        i,
                    ) implies result[i].visible.contains(p) by {
                    let j = choose|j: int|
                        #[trigger] ext_adjacent(width, height, i, j) && result[j].owner == Some(p);
                    assert(tiles[j].owner == Some(p));
                    assert(owns_ext_neighbor(tiles, width, height, p, i));
                }
            }
        },
        MoveOutcome::TileCaptured(prev) => {
            let shrunk = match prev {
                Some(p) => spec_shrink(after, width, height, p, dst),
                None => after,
            };
            // horizon passes leave owners and kinds alone
            assert(forall|i: int|
                0 <= i < after.len() ==> (#[trigger] shrunk[i]).owner == after[i].owner
                    && shrunk[i].kind == after[i].kind);
            assert(forall|i: int|
                0 <= i < after.len() ==> (#[trigger] result[i]).owner == after[i].owner
                    && result[i].kind == after[i].kind);
            // the shrinking horizon never hides a tile from its own owner
            // here: the excluded capture is the only way it could
            assert forall|i: int|
                0 <= i < after.len() && (#[trigger] shrunk[i]).owner is Some implies shrunk[i].visible.contains(
                shrunk[i].owner->0,
            ) by {
                if prev is Some && shrunk[i] != after[i] {
                    let p = prev->0;
                    assert(shrunk[i] == spec_hide_from(after[i], p));
                    if after[i].owner == Some(p) {
                        // the exclusion rules this situation out
                        assert(ext_adjacent(width, height, dst, i));
                        assert(tiles[i].owner == Some(p));
                        assert(!owns_ext_neighbor(after, width, height, p, i));
                        assert(!(exists|j: int|
                            #[trigger] ext_adjacent(width, height, i, j) && j != dst
                                && tiles[j].owner == Some(p))) by {
                            if exists|j: int|
                                #[trigger] ext_adjacent(width, height, i, j) && j != dst
                                    && tiles[j].owner == Some(p) {
                                let j = choose|j: int|
                                    #[trigger] ext_adjacent(width, height, i, j) && j != dst
                                        && tiles[j].owner == Some(p);
                                assert(after[j].owner == Some(p));
                                assert(owns_ext_neighbor(after, width, height, p, i));
                            }
                        }
                        assert(shrink_blinds_owner(tiles, width, height, mv));
                        assert(false);
                    }
                }
            }
            assert(inv_sees(result)) by {
                assert forall|i: int|
                    0 <= i < result.len() && (#[trigger] result[i]).owner is Some implies result[i].visible.contains(
                    result[i].owner->0,
                ) by {
                    assert(shrunk[i].visible.contains(shrunk[i].owner->0));
                    assert(result[i] == shrunk[i] || result[i] == spec_reveal_to(
                        shrunk[i],
                        attacker,
                    ));
                }
            }
            assert(inv_fog(result, width, height)) by {
                assert forall|i: int, p: PlayerId|
                    0 <= i < result.len() && grid_valid_index(width, height, i) && result[i].kind
                        != TileKind::Mountain && #[trigger] owns_ext_neighbor(
                        result,
                        width,
                        height,
                        p,
                        i,
                    ) implies result[i].visible.contains(p) by {
                    let j = choose|j: int|
                        #[trigger] ext_adjacent(width, height, i, j) && result[j].owner == Some(p);
                    if j == dst && after[dst].owner == Some(attacker) && p == attacker {
                        // the growing horizon reveals the neighborhood of
                        // the captured tile to its new owner
                        assert(result[i] == spec_reveal_to(shrunk[i], attacker));
                        assert(result[i].visible.contains(attacker));
                    } else {
                        assert(tiles[j].owner == Some(p));
                        assert(owns_ext_neighbor(tiles, width, height, p, i));
                        assert(tiles[i].visible.contains(p));
                        // the shrinking horizon spares this tile: the same
                        // witness still stands beside it
                        assert(shrunk[i].visible.contains(p)) by {
                            if prev is Some && shrunk[i] != after[i] {
                                assert(shrunk[i] == spec_hide_from(after[i], prev->0));
                                if p == prev->0 {
                                    assert(after[j].owner == Some(p));
                                    assert(owns_ext_neighbor(after, width, height, p, i));
                                    assert(false);
                                }
                            }
                        }
                        assert(result[i] == shrunk[i] || result[i] == spec_reveal_to(
                            shrunk[i],
                            attacker,
                        ));
                    }
                }
            }
        },
        MoveOutcome::GeneralCaptured(defeated) => {
            assert(dst_v.owner == Some(defeated));
            assert(after[dst].owner == Some(attacker));
            assert(defeated != attacker);
            // every tile of the defeated was visible to them, so the sweep
            // hands both the tile and the view over to the attacker
            assert(inv_sees(result)) by {
                assert forall|i: int|
                    0 <= i < result.len() && (#[trigger] result[i]).owner is Some implies result[i].visible.contains(
                    result[i].owner->0,
                ) by {
                    assert(after[i].visible.contains(after[i].owner->0) || after[i].owner
                        is None);
                    if after[i].kind != TileKind::Mountain {
                        assert(result[i] == spec_capture_tile(after[i], defeated, attacker));
                    } else {
                        assert(result[i] == after[i]);
                    }
                }
            }
            assert(inv_fog(result, width, height)) by {
                assert forall|i: int, p: PlayerId|
                    0 <= i < result.len() && grid_valid_index(width, height, i) && result[i].kind
                        != TileKind::Mountain && #[trigger] owns_ext_neighbor(
                        result,
                        width,
                        height,
                        p,
                        i,
                    ) implies result[i].visible.contains(p) by {
                    let j = choose|j: int|
                        #[trigger] ext_adjacent(width, height, i, j) && result[j].owner == Some(p);
                    assert(result[i] == spec_capture_tile(after[i], defeated, attacker));
                    assert(after[j].kind != TileKind::Mountain);
                    assert(result[j] == spec_capture_tile(after[j], defeated, attacker));
                    if p == attacker {
                        if after[j].owner == Some(defeated) || j == dst {
                            // the witness tile came over from the defeated,
                            // whose view of this tile comes along
                            assert(tiles[j].owner == Some(defeated));
                            assert(owns_ext_neighbor(tiles, width, height, defeated, i));
                            assert(tiles[i].visible.contains(defeated));
                            assert(after[i].visible.contains(defeated));
                            assert(result[i].visible.contains(attacker));
                        } else {
                            assert(after[j].owner == Some(attacker));
                            assert(tiles[j].owner == Some(attacker));
                            assert(owns_ext_neighbor(tiles, width, height, attacker, i));
                            assert(tiles[i].visible.contains(attacker));
                            assert(result[i].visible.contains(attacker));
                        }
                    } else {
                        // only the attacker gains tiles in the sweep
                        assert(after[j].owner == Some(p) && p != defeated && j != dst);
                        assert(tiles[j].owner == Some(p));
                        assert(owns_ext_neighbor(tiles, width, height, p, i));
                        assert(tiles[i].visible.contains(p));
                        assert(result[i].visible.contains(p));
                    }
                }
            }
        },
    }
}

/// A reinforcement sweep keeps every owned tile passable and occupied.
pub proof fn lemma_reinforce_preserves_owned(tiles: Seq<TileView>, reinforce_all_tiles: bool)
    requires
        inv_owned(tiles),
    ensures
        inv_owned(
            Seq::new(tiles.len(), |i: int| spec_reinforce_tile(tiles[i], reinforce_all_tiles)),
        ),
{
    let result = Seq::new(tiles.len(), |i: int| spec_reinforce_tile(tiles[i], reinforce_all_tiles));
    assert forall|i: int|
        0 <= i < result.len() && (#[trigger] result[i]).owner is Some implies result[i].kind
        != TileKind::Mountain && result[i].units >= 1 by {
        assert(result[i] == spec_reinforce_tile(tiles[i], reinforce_all_tiles));
    }
}

/// An accepted move never hands a tile to anyone but its maker: afterwards
/// every tile either keeps its owner or is owned by the moving player.
pub proof fn lemma_perform_ok_owners(tiles: Seq<TileView>, width: int, height: int, mv: Move)
    requires
        width >= 0,
        height >= 0,
        tiles.len() == width * height,
        spec_perform_err(tiles, width, height, mv) is None,
    ensures
        spec_perform_ok(tiles, width, height, mv).len() == tiles.len(),
        forall|i: int|
            0 <= i < tiles.len() ==> ((#[trigger] spec_perform_ok(tiles, width, height, mv)[i]).owner
                == tiles[i].owner || spec_perform_ok(tiles, width, height, mv)[i].owner == Some(
                mv.player,
            )),
{
    let from = mv.from as int;
    let dst = spec_move_dst(width, height, mv)->0;
    crate::grid::lemma_nonempty(width, height, from);
    crate::grid::lemma_cardinal_neighbor(width, height, from);
    assert(grid_valid_index(width, height, dst));
    let src_v = tiles[from];
    let dst_v = tiles[dst];
    let after = tiles.update(from, attack_src(src_v)).update(dst, attack_dst(src_v, dst_v));
    let result = spec_perform_ok(tiles, width, height, mv);
    assert(src_v.owner == Some(mv.player));
    assert forall|i: int|
        0 <= i < tiles.len() implies ((#[trigger] after[i]).owner == tiles[i].owner
        || after[i].owner == Some(mv.player)) by {}
    match attack_outcome(src_v, dst_v) {
        MoveOutcome::StatuQuo => {},
        MoveOutcome::TileCaptured(prev) => {
            let shrunk = match prev {
                Some(p) => spec_shrink(after, width, height, p, dst),
                None => after,
            };
            assert forall|i: int|
                0 <= i < tiles.len() implies (#[trigger] shrunk[i]).owner == after[i].owner by {}
            assert forall|i: int|
                0 <= i < tiles.len() implies (#[trigger] result[i]).owner == shrunk[i].owner by {}
        },
        MoveOutcome::GeneralCaptured(defeated) => {
            assert forall|i: int|
                0 <= i < tiles.len() implies ((#[trigger] result[i]).owner == after[i].owner
                || result[i].owner == Some(mv.player)) by {}
        },
    }
}

/// A grid representing the game map.
#[derive(Debug)]
pub struct GameMap(Grid<Tile>);

impl GameMap {
    /// The number of tiles in a row.
    pub closed spec fn spec_width(self) -> int {
        self.0.spec_width()
    }

    /// The number of tiles in a column.
    pub closed spec fn spec_height(self) -> int {
        self.0.spec_height()
    }

    /// The tiles of the map, as their models, in row-major order.
    pub closed spec fn spec_tiles(self) -> Seq<TileView> {
        self.0.spec_tiles().map_values(|t: Tile| t@)
    }

    /// The map holds one tile per cell of its grid.
    pub closed spec fn wf(self) -> bool {
        self.0.wf()
    }

    /// Whether `i` indexes a tile of the map.
    pub open spec fn spec_valid_index(self, i: int) -> bool {
        grid_valid_index(self.spec_width(), self.spec_height(), i)
    }

    /// A well-formed map has exactly one tile model per cell.
    pub proof fn lemma_wf(self)
        requires
            self.wf(),
        ensures
            self.spec_tiles().len() == self.spec_width() * self.spec_height(),
            self.spec_width() >= 0,
            self.spec_height() >= 0,
    {
        self.0.lemma_dims();
    }

    /// Return a random new map with the specified number of generals,
    /// together with the positions of the generals.
    pub fn generate(nb_generals: usize) -> (r: (Vec<usize>, GameMap))
        requires
            1 <= nb_generals <= 8,
        ensures
            r.1.wf(),
            crate::map_generator::MIN_GRID_SIZE + nb_generals <= r.1.spec_width()
                <= crate::map_generator::MIN_GRID_SIZE + nb_generals
                + crate::map_generator::GRID_SIZE_MAX_DELTA,
            crate::map_generator::MIN_GRID_SIZE + nb_generals <= r.1.spec_height()
                <= crate::map_generator::MIN_GRID_SIZE + nb_generals
                + crate::map_generator::GRID_SIZE_MAX_DELTA,
            crate::map_generator::generated_ok(
                r.0@,
                r.1.spec_tiles(),
                r.1.spec_width(),
                r.1.spec_height(),
                nb_generals as int,
            ),
    {
        let grid_builder = crate::map_generator::GridBuilder::new(nb_generals);
        let (generals, grid) = grid_builder.build();
        proof {
            assert(crate::map_generator::grid_views(grid) == grid.spec_tiles().map_values(
                |t: Tile| t@,
            ));
        }
        (generals, GameMap(grid))
    }

    /// The number of tiles on the map.
    pub fn len(&self) -> (r: usize)
        requires
            self.wf(),
        ensures
            r == self.spec_tiles().len(),
    {
        self.0.len()
    }

    /// The number of tiles in a row.
    pub fn width(&self) -> (r: usize)
        ensures
            r == self.spec_width(),
    {
        self.0.width()
    }

    /// The number of tiles in a column.
    pub fn height(&self) -> (r: usize)
        ensures
            r == self.spec_height(),
    {
        self.0.height()
    }

    /// Return whether the map is empty, ie is made of 0 tile.
    pub fn is_empty(&self) -> (r: bool)
        requires
            self.wf(),
        ensures
            r == (self.spec_tiles().len() == 0),
    {
        self.0.is_empty()
    }

    /// Wrap an already-built grid of tiles as a map.
    pub fn from_grid(inner: Grid<Tile>) -> (m: GameMap)
        requires
            inner.wf(),
        ensures
            m.wf(),
            m.spec_width() == inner.spec_width(),
            m.spec_height() == inner.spec_height(),
            m.spec_tiles() == inner.spec_tiles().map_values(|t: Tile| t@),
    {
        GameMap(inner)
    }

    /// Return a reference to the tile at the given index.
    pub fn get(&self, index: usize) -> (r: &Tile)
        requires
            self.wf(),
            self.spec_valid_index(index as int),
        ensures
            r@ == self.spec_tiles()[index as int],
    {
        self.0.get(index)
    }

    /// Return a mutable reference to the tile at the given index.
    pub fn get_mut(&mut self, index: usize) -> (r: &mut Tile)
        requires
            old(self).wf(),
            old(self).spec_valid_index(index as int),
        ensures
            r@ == old(self).spec_tiles()[index as int],
            final(self).spec_tiles() == old(self).spec_tiles().update(
                index as int,
                final(r)@,
            ),
            final(self).spec_width() == old(self).spec_width(),
            final(self).spec_height() == old(self).spec_height(),
            final(self).wf(),
    {
        self.0.get_mut(index)
    }

    /// Update the tiles involved in a move.
    ///
    /// - make sure the move is valid
    /// - perform the move, updating the number of units of both the source
    ///   and destination tile, as well as the owner of the destination tile,
    ///   if it changes as a consequence of the move
    /// - update the visibility of the tiles surrounding the destination tile
    ///
    /// If a general is captured, this method also gives all the tiles that
    /// belonged to the defeated general to the attacker, and updates the
    /// visibility of the attacker.
    pub fn perform_move(&mut self, mv: Move) -> (r: Result<(), InvalidMove>)
        requires
            old(self).wf(),
        ensures
            final(self).wf(),
            final(self).spec_width() == old(self).spec_width(),
            final(self).spec_height() == old(self).spec_height(),
            ({
                let err = spec_perform_err(
                    old(self).spec_tiles(),
                    old(self).spec_width(),
                    old(self).spec_height(),
                    mv,
                );
                match err {
                    Some(e) => r == Result::<(), InvalidMove>::Err(e) && final(self).spec_tiles()
                        == old(self).spec_tiles(),
                    None => r == Result::<(), InvalidMove>::Ok(()) && final(self).spec_tiles()
                        == spec_perform_ok(
                        old(self).spec_tiles(),
                        old(self).spec_width(),
                        old(self).spec_height(),
                        mv,
                    ),
                }
            }),
    {
        let ghost w = self.spec_width();
        let ghost h = self.spec_height();
        let ghost tiles0 = self.spec_tiles();

        // If the source tile is not in the grid, the move is invalid
        if !self.0.is_valid_index(mv.from) {
            return Err(InvalidMove::FromInvalidTile);
        }

        let dst_idx = match mv.direction {
            Direction::Right => self.0.right(mv.from),
            Direction::Left => self.0.left(mv.from),
            Direction::Up => self.0.up(mv.from),
            Direction::Down => self.0.down(mv.from),
        };
        let dst_idx = match dst_idx {
            Some(i) => i,
            None => {
                return Err(InvalidMove::ToInvalidTile);
            },
        };
        proof {
            self.0.lemma_dims();
            crate::grid::lemma_nonempty(w, h, mv.from as int);
            crate::grid::lemma_cardinal_neighbor(w, h, mv.from as int);
            assert(spec_move_dst(w, h, mv) == Some(dst_idx as int));
            assert(ext_adjacent(w, h, mv.from as int, dst_idx as int));
        }

        let source_owned = match self.0.get(mv.from).owner() {
            Some(player) => player == mv.player,
            None => false,
        };
        if !source_owned {
            return Err(InvalidMove::SourceTileNotOwned);
        }

        // Take the source tile out to borrow the destination at the same
        // time; a placeholder mountain keeps the slot while the two tiles
        // fight.
        let mut src = self.0.replace(mv.from, Tile::new());
        let attack_result = {
            let dst = self.0.get_mut(dst_idx);
            src.attack(dst)
        };
        let _ = self.0.replace(mv.from, src);

        let outcome = match attack_result {
            Ok(o) => o,
            Err(e) => {
                proof {
                    assert(self.spec_tiles() =~= tiles0);
                }
                return Err(e);
            },
        };
        let ghost after = tiles0.update(mv.from as int, attack_src(tiles0[mv.from as int])).update(
            dst_idx as int,
            attack_dst(tiles0[mv.from as int], tiles0[dst_idx as int]),
        );
        proof {
            assert(self.spec_tiles() =~= after);
            assert(outcome == attack_outcome(tiles0[mv.from as int], tiles0[dst_idx as int]));
        }

        match outcome {
            // If a general was captured, give all the tiles owned by the
            // defeated general to the attacker, and make all the tiles
            // visible by the defeated general visible by the attacker.
            MoveOutcome::GeneralCaptured(defeated_player) => {
                let ghost cascaded = spec_cascade(after, defeated_player, mv.player);
                let len = self.0.len();
                let mut i: usize = 0;
                while i < len
                    invariant
                        self.wf(),
                        self.spec_width() == w,
                        self.spec_height() == h,
                        len == self.spec_tiles().len(),
                        i <= len,
                        after.len() == len,
                        cascaded == spec_cascade(after, defeated_player, mv.player),
                        cascaded.len() == len,
                        forall|n: int| 0 <= n < i ==> #[trigger] self.spec_tiles()[n] == cascaded[n],
                        forall|n: int| i <= n < len ==> #[trigger] self.spec_tiles()[n] == after[n],
                    decreases len - i,
                {
                    let ghost pre = self.spec_tiles();
                    let t = self.0.get_mut(i);
                    if !t.is_mountain() {
                        let transfer = match t.owner() {
                            Some(p) => p == defeated_player,
                            None => false,
                        };
                        if transfer {
                            t.set_owner(Some(mv.player));
                        }
                        if t.is_visible_by(defeated_player) {
                            t.hide_from(defeated_player);
                            t.reveal_to(mv.player);
                        }
                    }
                    proof {
                        let iv = i as int;
                        assert(pre[iv] == after[iv]);
                        assert(self.spec_tiles()[iv] == cascaded[iv]);
                        assert forall|n: int|
                            0 <= n < i + 1 implies #[trigger] self.spec_tiles()[n]
                            == cascaded[n] by {
                            if n != iv {
                                assert(self.spec_tiles()[n] == pre[n]);
                                assert(pre[n] == cascaded[n]);
                            }
                        }
                        assert forall|n: int|
                            i + 1 <= n < len implies #[trigger] self.spec_tiles()[n]
                            == after[n] by {
                            assert(self.spec_tiles()[n] == pre[n]);
                            assert(pre[n] == after[n]);
                        }
                    }
                    i += 1;
                }
                proof {
                    assert(self.spec_tiles() =~= cascaded);
                    assert(self.spec_tiles() =~= spec_perform_ok(tiles0, w, h, mv));
                }
            },
            // If a regular tile was captured, we just need to extend the
            // player's horizon and reveal a few new tiles.
            MoveOutcome::TileCaptured(defeated_player) => {
                if let Some(defeated_player) = defeated_player {
                    self.shrink_horizon(defeated_player, dst_idx);
                }
                self.enlarge_horizon(mv.player, dst_idx);
                proof {
                    assert(self.spec_tiles() =~= spec_perform_ok(tiles0, w, h, mv));
                }
            },
            // If no tile was captured, the player's visibility does not
            // change, so there's nothing to do.
            MoveOutcome::StatuQuo => {
                proof {
                    assert(self.spec_tiles() =~= spec_perform_ok(tiles0, w, h, mv));
                }
            },
        }
        Ok(())
    }

    /// Make sure the given player can see all the tiles surrounding the
    /// given index. This should be called after the player just conquered
    /// the tile.
    pub fn enlarge_horizon(&mut self, player: PlayerId, idx: usize)
        requires
            old(self).wf(),
            old(self).spec_valid_index(idx as int),
        ensures
            final(self).wf(),
            final(self).spec_width() == old(self).spec_width(),
            final(self).spec_height() == old(self).spec_height(),
            final(self).spec_tiles() == spec_enlarge(
                old(self).spec_tiles(),
                old(self).spec_width(),
                old(self).spec_height(),
                player,
                idx as int,
            ),
    {
        let ghost w = self.spec_width();
        let ghost h = self.spec_height();
        let ghost tiles0 = self.spec_tiles();
        let ghost target = spec_enlarge(tiles0, w, h, player, idx as int);
        proof {
            self.lemma_wf();
        }
        let neighbors = self.0.extended_neighbors(idx);
        let mut k: usize = 0;
        while k < neighbors.len()
            invariant
                self.wf(),
                self.spec_width() == w,
                self.spec_height() == h,
                self.spec_tiles().len() == tiles0.len(),
                tiles0.len() == w * h,
                target == spec_enlarge(tiles0, w, h, player, idx as int),
                target.len() == tiles0.len(),
                k <= neighbors.len(),
                forall|j: int|
                    0 <= j < neighbors.len() ==> grid_valid_index(w, h, #[trigger] neighbors@[j] as int)
                        && ext_adjacent(w, h, idx as int, neighbors@[j] as int),
                forall|n: int|
                    #![trigger self.spec_tiles()[n]]
                    0 <= n < tiles0.len() ==> self.spec_tiles()[n] == tiles0[n]
                        || self.spec_tiles()[n] == target[n],
                forall|j: int|
                    0 <= j < k ==> self.spec_tiles()[#[trigger] neighbors@[j] as int]
                        == target[neighbors@[j] as int],
            decreases neighbors.len() - k,
        {
            let n = neighbors[k];
            let ghost pre = self.spec_tiles();
            let t = self.0.get_mut(n);
            if !t.is_mountain() {
                t.reveal_to(player);
            }
            proof {
                let nv = n as int;
                assert(ext_adjacent(w, h, idx as int, nv));
                assert(target[nv] == (if tiles0[nv].kind != TileKind::Mountain {
                    spec_reveal_to(tiles0[nv], player)
                } else {
                    tiles0[nv]
                }));
                assert(pre[nv] == tiles0[nv] || pre[nv] == target[nv]);
                if pre[nv].kind != TileKind::Mountain {
                    assert(spec_reveal_to(spec_reveal_to(tiles0[nv], player), player)
                        =~= spec_reveal_to(tiles0[nv], player));
                    assert(self.spec_tiles()[nv] == spec_reveal_to(pre[nv], player));
                } else {
                    assert(self.spec_tiles()[nv] == pre[nv]);
                }
                assert(self.spec_tiles()[nv] == target[nv]);
                assert forall|m: int|
                    0 <= m < tiles0.len() implies (#[trigger] self.spec_tiles()[m] == tiles0[m]
                    || self.spec_tiles()[m] == target[m]) by {
                    if m != nv {
                        assert(self.spec_tiles()[m] == pre[m]);
                        assert(pre[m] == tiles0[m] || pre[m] == target[m]);
                    }
                }
                assert forall|j: int|
                    0 <= j < k + 1 implies self.spec_tiles()[#[trigger] neighbors@[j] as int]
                    == target[neighbors@[j] as int] by {
                    if j < k && neighbors@[j] != n {
                        assert(self.spec_tiles()[neighbors@[j] as int] == pre[neighbors@[j] as int]);
                        assert(pre[neighbors@[j] as int] == target[neighbors@[j] as int]);
                    }
                }
            }
            k += 1;
        }
        proof {
            assert forall|n: int| 0 <= n < tiles0.len() implies self.spec_tiles()[n] == target[n] by {
                if ext_adjacent(w, h, idx as int, n) {
                    let j = choose|j: int| 0 <= j < neighbors@.len() && neighbors@[j] == n;
                    assert(self.spec_tiles()[neighbors@[j] as int] == target[neighbors@[j] as int]);
                } else {
                    assert(target[n] == tiles0[n]);
                    assert(self.spec_tiles()[n] == tiles0[n] || self.spec_tiles()[n] == target[n]);
                }
            }
            assert(self.spec_tiles() =~= target);
        }
    }

    /// Reduce the visibility of the tiles that surround the tile at the
    /// given index, for the given player. This should be called after the
    /// player just lost the tile.
    ///
    /// Afterwards every tile around `idx` that still shows the player has an
    /// extended neighbor owned by them: the fog-of-war accounting holds
    /// again around the lost tile.
    fn shrink_horizon(&mut self, player: PlayerId, idx: usize)
        requires
            old(self).wf(),
            old(self).spec_valid_index(idx as int),
        ensures
            final(self).wf(),
            final(self).spec_width() == old(self).spec_width(),
            final(self).spec_height() == old(self).spec_height(),
            final(self).spec_tiles() == spec_shrink(
                old(self).spec_tiles(),
                old(self).spec_width(),
                old(self).spec_height(),
                player,
                idx as int,
            ),
    {
        let ghost w = self.spec_width();
        let ghost h = self.spec_height();
        let ghost tiles0 = self.spec_tiles();
        let ghost target = spec_shrink(tiles0, w, h, player, idx as int);
        proof {
            self.lemma_wf();
        }
        let neighbors = self.0.extended_neighbors(idx);
        let mut k: usize = 0;
        while k < neighbors.len()
            invariant
                self.wf(),
                self.spec_width() == w,
                self.spec_height() == h,
                self.spec_tiles().len() == tiles0.len(),
                tiles0.len() == w * h,
                target == spec_shrink(tiles0, w, h, player, idx as int),
                target.len() == tiles0.len(),
                k <= neighbors.len(),
                forall|j: int|
                    0 <= j < neighbors.len() ==> grid_valid_index(w, h, #[trigger] neighbors@[j] as int)
                        && ext_adjacent(w, h, idx as int, neighbors@[j] as int),
                forall|n: int|
                    0 <= n < tiles0.len() ==> (#[trigger] self.spec_tiles()[n]).owner
                        == tiles0[n].owner && self.spec_tiles()[n].kind == tiles0[n].kind,
                forall|n: int|
                    #![trigger self.spec_tiles()[n]]
                    0 <= n < tiles0.len() ==> self.spec_tiles()[n] == tiles0[n]
                        || self.spec_tiles()[n] == target[n],
                forall|j: int|
                    0 <= j < k ==> self.spec_tiles()[#[trigger] neighbors@[j] as int]
                        == target[neighbors@[j] as int],
            decreases neighbors.len() - k,
        {
            let n = neighbors[k];
            let ghost pre = self.spec_tiles();
            proof {
                let nv = n as int;
                assert(owns_ext_neighbor(pre, w, h, player, nv) == owns_ext_neighbor(
                    tiles0,
                    w,
                    h,
                    player,
                    nv,
                )) by {
                    if owns_ext_neighbor(pre, w, h, player, nv) {
                        let j = choose|j: int|
                            #[trigger] ext_adjacent(w, h, nv, j) && pre[j].owner == Some(player);
                        assert(tiles0[j].owner == Some(player));
                        assert(owns_ext_neighbor(tiles0, w, h, player, nv));
                    }
                    if owns_ext_neighbor(tiles0, w, h, player, nv) {
                        let j = choose|j: int|
                            #[trigger] ext_adjacent(w, h, nv, j) && tiles0[j].owner == Some(
                                player,
                            );
                        assert(pre[j].owner == Some(player));
                        assert(owns_ext_neighbor(pre, w, h, player, nv));
                    }
                }
            }
            let visible = {
                let t = self.0.get(n);
                !t.is_mountain() && t.is_visible_by(player)
            };
            if visible && !self.owns_extended_neighbor(player, n) {
                let t = self.0.get_mut(n);
                t.hide_from(player);
            }
            proof {
                let nv = n as int;
                assert(ext_adjacent(w, h, idx as int, nv));
                assert(pre[nv] == tiles0[nv] || pre[nv] == target[nv]);
                assert(self.spec_tiles()[nv] == target[nv]);
                assert forall|m: int|
                    0 <= m < tiles0.len() implies (#[trigger] self.spec_tiles()[m] == tiles0[m]
                    || self.spec_tiles()[m] == target[m]) by {
                    if m != nv {
                        assert(self.spec_tiles()[m] == pre[m]);
                        assert(pre[m] == tiles0[m] || pre[m] == target[m]);
                    }
                }
                assert forall|m: int|
                    0 <= m < tiles0.len() implies (#[trigger] self.spec_tiles()[m]).owner
                    == tiles0[m].owner && self.spec_tiles()[m].kind == tiles0[m].kind by {
                    if m != nv {
                        assert(self.spec_tiles()[m] == pre[m]);
                        assert(pre[m].owner == tiles0[m].owner && pre[m].kind == tiles0[m].kind);
                    }
                }
                assert forall|j: int|
                    0 <= j < k + 1 implies self.spec_tiles()[#[trigger] neighbors@[j] as int]
                    == target[neighbors@[j] as int] by {
                    if j < k && neighbors@[j] != n {
                        assert(self.spec_tiles()[neighbors@[j] as int] == pre[neighbors@[j] as int]);
                        assert(pre[neighbors@[j] as int] == target[neighbors@[j] as int]);
                    }
                }
            }
            k += 1;
        }
        proof {
            assert forall|n: int| 0 <= n < tiles0.len() implies self.spec_tiles()[n] == target[n] by {
                if ext_adjacent(w, h, idx as int, n) {
                    let j = choose|j: int| 0 <= j < neighbors@.len() && neighbors@[j] == n;
                    assert(self.spec_tiles()[neighbors@[j] as int] == target[neighbors@[j] as int]);
                } else {
                    assert(target[n] == tiles0[n]);
                    assert(self.spec_tiles()[n] == tiles0[n] || self.spec_tiles()[n] == target[n]);
                }
            }
            assert(self.spec_tiles() =~= target);
        }
    }

    /// Return whether the given player owns any of the tiles that surround
    /// the given tile. This is used to know whether that player can view the
    /// given tile or if it's in the fog of war.
    fn owns_extended_neighbor(&self, player: PlayerId, idx: usize) -> (r: bool)
        requires
            self.wf(),
            self.spec_valid_index(idx as int),
        ensures
            r == owns_ext_neighbor(
                self.spec_tiles(),
                self.spec_width(),
                self.spec_height(),
                player,
                idx as int,
            ),
    {
        let ghost w = self.spec_width();
        let ghost h = self.spec_height();
        let neighbors = self.0.extended_neighbors(idx);
        let mut k: usize = 0;
        while k < neighbors.len()
            invariant
                self.wf(),
                k <= neighbors.len(),
                w == self.spec_width(),
                h == self.spec_height(),
                forall|j: int|
                    0 <= j < neighbors.len() ==> grid_valid_index(w, h, #[trigger] neighbors@[j] as int)
                        && ext_adjacent(w, h, idx as int, neighbors@[j] as int),
                forall|j: int|
                    (exists|k2: int| 0 <= k2 < neighbors@.len() && neighbors@[k2] == j)
                        <==> ext_adjacent(w, h, idx as int, j),
                forall|j: int|
                    0 <= j < k ==> self.spec_tiles()[neighbors@[j] as int].owner != Some(player),
            decreases neighbors.len() - k,
        {
            let n = neighbors[k];
            let owned = match self.0.get(n).owner() {
                Some(q) => q == player,
                None => false,
            };
            if owned {
                proof {
                    assert(ext_adjacent(w, h, idx as int, n as int)
                        && self.spec_tiles()[n as int].owner == Some(player));
                }
                return true;
            }
            k += 1;
        }
        proof {
            assert forall|j: int|
                !(#[trigger] ext_adjacent(w, h, idx as int, j) && self.spec_tiles()[j].owner
                    == Some(player)) by {
                if ext_adjacent(w, h, idx as int, j) {
                    let k2 = choose|k2: int|
                        0 <= k2 < neighbors@.len() && neighbors@[k2] == j;
                    assert(self.spec_tiles()[neighbors@[k2] as int].owner != Some(player));
                }
            }
        }
        false
    }

    /// Increment the number of units of the tiles that are owned by players.
    /// If `reinforce_all_tiles` is `false`, then only the generals and the
    /// occupied cities are reinforced, otherwise all the owned tiles are.
    pub fn reinforce(&mut self, reinforce_all_tiles: bool)
        requires
            old(self).wf(),
        ensures
            final(self).wf(),
            final(self).spec_width() == old(self).spec_width(),
            final(self).spec_height() == old(self).spec_height(),
            final(self).spec_tiles().len() == old(self).spec_tiles().len(),
            forall|i: int|
                0 <= i < old(self).spec_tiles().len() ==> final(self).spec_tiles()[i]
                    == spec_reinforce_tile(old(self).spec_tiles()[i], reinforce_all_tiles),
    {
        let ghost tiles0 = self.spec_tiles();
        let len = self.0.len();
        let mut i: usize = 0;
        while i < len
            invariant
                self.wf(),
                self.spec_width() == old(self).spec_width(),
                self.spec_height() == old(self).spec_height(),
                len == self.spec_tiles().len(),
                tiles0.len() == len,
                i <= len,
                forall|n: int|
                    0 <= n < i ==> #[trigger] self.spec_tiles()[n] == spec_reinforce_tile(
                        tiles0[n],
                        reinforce_all_tiles,
                    ),
                forall|n: int| i <= n < len ==> #[trigger] self.spec_tiles()[n] == tiles0[n],
            decreases len - i,
        {
            let ghost pre = self.spec_tiles();
            let t = self.0.get_mut(i);
            if !t.is_mountain() {
                let occupied = t.owner().is_some();
                if (occupied && reinforce_all_tiles) || t.is_general() || (t.is_city()
                    && occupied) {
                    t.incr_units(1);
                }
            }
            proof {
                let iv = i as int;
                assert(pre[iv] == tiles0[iv]);
                assert(self.spec_tiles()[iv] == spec_reinforce_tile(
                    tiles0[iv],
                    reinforce_all_tiles,
                ));
                assert forall|n: int|
                    0 <= n < i + 1 implies #[trigger] self.spec_tiles()[n] == spec_reinforce_tile(
                    tiles0[n],
                    reinforce_all_tiles,
                ) by {
                    if n != iv {
                        assert(self.spec_tiles()[n] == pre[n]);
                        assert(pre[n] == spec_reinforce_tile(tiles0[n], reinforce_all_tiles));
                    }
                }
                assert forall|n: int|
                    i + 1 <= n < len implies #[trigger] self.spec_tiles()[n] == tiles0[n] by {
                    assert(self.spec_tiles()[n] == pre[n]);
                    assert(pre[n] == tiles0[n]);
                }
            }
            i += 1;
        }
    }
}

/// One tile of the board after a reinforcement sweep: generals always gain a
/// unit, occupied cities always gain one, other occupied tiles gain one only
/// on a full sweep.
pub open spec fn spec_reinforce_tile(t: TileView, reinforce_all_tiles: bool) -> TileView {
    if t.kind != TileKind::Mountain && ((t.owner is Some && reinforce_all_tiles) || t.kind
        == TileKind::General || (t.kind == TileKind::City && t.owner is Some)) {
        spec_incr_units(t, 1)
    } else {
        t
    }
}

} // verus!
