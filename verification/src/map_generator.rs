//! Random board generation.
//!
//! Boards have variable sizes, based on the number of players. Generals are
//! spawned randomly, but with a minimum Manhattan distance between each
//! other. The terrain is random, but there is always an open path between
//! the generals.

use vstd::prelude::*;

use crate::grid::{
    direct_adjacent, grid_col, grid_index, grid_manhattan, grid_row, grid_valid_index,
    lemma_col_row, lemma_index_of, Grid,
};
use crate::tile::{Tile, TileKind, TileView};

verus! {

/// The smallest Manhattan distance allowed between two generals.
pub const MIN_DISTANCE: usize = 10;

/// The smallest side a board can have, before the player count is added.
pub const MIN_GRID_SIZE: usize = 17;

/// How much larger than its smallest allowed value a board side can get.
pub const GRID_SIZE_MAX_DELTA: usize = 6;

/// Whether the tile at `i` can be walked on.
pub open spec fn tile_open(tiles: Seq<TileView>, i: int) -> bool {
    tiles[i].kind != TileKind::Mountain
}

/// Whether `p` is a walk over open tiles, each step moving to an
/// edge-adjacent cell.
pub open spec fn is_open_path(tiles: Seq<TileView>, w: int, h: int, p: Seq<int>) -> bool {
    &&& p.len() >= 1
    &&& forall|k: int|
        0 <= k < p.len() ==> grid_valid_index(w, h, #[trigger] p[k]) && tile_open(tiles, p[k])
    &&& forall|k: int| 0 <= k < p.len() - 1 ==> direct_adjacent(w, h, #[trigger] p[k], p[k + 1])
}

/// Whether an open walk leads from `a` to `b`.
pub open spec fn connected(tiles: Seq<TileView>, w: int, h: int, a: int, b: int) -> bool {
    exists|p: Seq<int>| is_open_path(tiles, w, h, p) && p.first() == a && p.last() == b
}

/// An open tile reaches itself.
pub proof fn lemma_connected_refl(tiles: Seq<TileView>, w: int, h: int, a: int)
    requires
        grid_valid_index(w, h, a),
        tile_open(tiles, a),
    ensures
        connected(tiles, w, h, a, a),
{
    let p = seq![a];
    assert(is_open_path(tiles, w, h, p));
    assert(p.first() == a && p.last() == a);
}

/// Two adjacent open tiles reach one another.
pub proof fn lemma_connected_step(tiles: Seq<TileView>, w: int, h: int, a: int, b: int)
    requires
        direct_adjacent(w, h, a, b),
        tile_open(tiles, a),
        tile_open(tiles, b),
    ensures
        connected(tiles, w, h, a, b),
{
    let p = seq![a, b];
    assert(p[0] == a && p[1] == b);
    assert(is_open_path(tiles, w, h, p));
    assert(p.first() == a && p.last() == b);
}

/// Walks reverse: reachability is symmetric.
pub proof fn lemma_connected_symm(tiles: Seq<TileView>, w: int, h: int, a: int, b: int)
    requires
        connected(tiles, w, h, a, b),
    ensures
        connected(tiles, w, h, b, a),
{
    let p = choose|p: Seq<int>| is_open_path(tiles, w, h, p) && p.first() == a && p.last() == b;
    let q = p.reverse();
    assert forall|k: int| 0 <= k < q.len() - 1 implies direct_adjacent(
        w,
        h,
        #[trigger] q[k],
        q[k + 1],
    ) by {
        assert(q[k] == p[p.len() - 1 - k]);
        assert(q[k + 1] == p[p.len() - 2 - k]);
        assert(direct_adjacent(w, h, p[p.len() - 2 - k], p[p.len() - 1 - k]));
    }
    assert(is_open_path(tiles, w, h, q));
    assert(q.first() == b && q.last() == a);
}

/// Walks concatenate: reachability is transitive.
pub proof fn lemma_connected_trans(tiles: Seq<TileView>, w: int, h: int, a: int, b: int, c: int)
    requires
        connected(tiles, w, h, a, b),
        connected(tiles, w, h, b, c),
    ensures
        connected(tiles, w, h, a, c),
{
    let p1 = choose|p: Seq<int>| is_open_path(tiles, w, h, p) && p.first() == a && p.last() == b;
    let p2 = choose|p: Seq<int>| is_open_path(tiles, w, h, p) && p.first() == b && p.last() == c;
    let q = p1 + p2.subrange(1, p2.len() as int);
    assert(q.len() == p1.len() + p2.len() - 1);
    if p2.len() == 1 {
        assert(q =~= p1);
    }
    assert forall|k: int| 0 <= k < q.len() implies grid_valid_index(w, h, #[trigger] q[k])
        && tile_open(tiles, q[k]) by {
        if k < p1.len() {
            assert(q[k] == p1[k]);
        } else {
            assert(q[k] == p2[k - p1.len() + 1]);
        }
    }
    assert forall|k: int| 0 <= k < q.len() - 1 implies direct_adjacent(
        w,
        h,
        #[trigger] q[k],
        q[k + 1],
    ) by {
        if k + 1 < p1.len() {
            assert(q[k] == p1[k] && q[k + 1] == p1[k + 1]);
        } else if k + 1 == p1.len() {
            assert(q[k] == p1[p1.len() - 1]);
            assert(q[k + 1] == p2[1]);
            assert(direct_adjacent(w, h, p2[0], p2[1]));
        } else {
            assert(q[k] == p2[k - p1.len() + 1] && q[k + 1] == p2[k - p1.len() + 2]);
        }
    }
    assert(is_open_path(tiles, w, h, q));
    assert(q.first() == a && q.last() == c);
}

/// Opening tiles never severs a walk: reachability survives any change that
/// keeps every open tile open.
pub proof fn lemma_connected_monotone(
    tiles1: Seq<TileView>,
    tiles2: Seq<TileView>,
    w: int,
    h: int,
    a: int,
    b: int,
)
    requires
        connected(tiles1, w, h, a, b),
        forall|i: int|
            grid_valid_index(w, h, i) && tile_open(tiles1, i) ==> tile_open(tiles2, i),
    ensures
        connected(tiles2, w, h, a, b),
{
    let p = choose|p: Seq<int>| is_open_path(tiles1, w, h, p) && p.first() == a && p.last() == b;
    assert forall|k: int| 0 <= k < p.len() implies grid_valid_index(w, h, #[trigger] p[k])
        && tile_open(tiles2, p[k]) by {
        assert(tile_open(tiles1, p[k]));
    }
    assert(is_open_path(tiles2, w, h, p));
}

/// On a board with no mountain at all, every tile reaches every tile: walk
/// along the row, then along the column.
pub proof fn lemma_full_open_connected(tiles: Seq<TileView>, w: int, h: int, a: int, b: int)
    requires
        w > 0,
        grid_valid_index(w, h, a),
        grid_valid_index(w, h, b),
        forall|i: int| grid_valid_index(w, h, i) ==> tile_open(tiles, i),
    ensures
        connected(tiles, w, h, a, b),
    decreases grid_manhattan(w, a, b),
{
    lemma_col_row(w, h, a);
    lemma_col_row(w, h, b);
    let ca = grid_col(w, a);
    let ra = grid_row(w, a);
    let cb = grid_col(w, b);
    let rb = grid_row(w, b);
    if a == b {
        lemma_connected_refl(tiles, w, h, a);
    } else {
        let (c2, r2): (int, int) = if ca < cb {
            (ca + 1, ra)
        } else if ca > cb {
            (ca - 1, ra)
        } else if ra < rb {
            (ca, ra + 1)
        } else {
            (ca, ra - 1)
        };
        let a2 = grid_index(w, c2, r2);
        lemma_index_of(w, h, c2, r2);
        assert(direct_adjacent(w, h, a, a2));
        assert(grid_manhattan(w, a2, b) < grid_manhattan(w, a, b));
        lemma_full_open_connected(tiles, w, h, a2, b);
        lemma_connected_step(tiles, w, h, a, a2);
        lemma_connected_trans(tiles, w, h, a, a2, b);
    }
}

/// A tile of the board under construction: the given kind, and otherwise
/// nothing — no owner, no unit, nobody seeing it, nobody owed a
/// notification.
pub open spec fn blank_of(kind: TileKind) -> TileView {
    TileView { kind, owner: None, units: 0u16, visible: Set::empty(), dirty: Set::empty() }
}

/// A board fresh out of the generator: exactly `nb` generals, pairwise at
/// least `MIN_DISTANCE` apart, each reachable from the first over
/// non-mountain tiles; every tile bare of units, owners and visibility.
pub open spec fn generated_ok(
    generals: Seq<usize>,
    tiles: Seq<TileView>,
    w: int,
    h: int,
    nb: int,
) -> bool {
    &&& generals.len() == nb
    &&& forall|k: int|
        0 <= k < nb ==> grid_valid_index(w, h, #[trigger] generals[k] as int) && tiles[generals[k] as int].kind
            == TileKind::General
    &&& forall|k: int, l: int|
        0 <= k < nb && 0 <= l < nb && k != l ==> grid_manhattan(
            w,
            #[trigger] generals[k] as int,
            #[trigger] generals[l] as int,
        ) >= MIN_DISTANCE
    &&& forall|k: int|
        0 <= k < nb ==> connected(tiles, w, h, generals[0] as int, #[trigger] generals[k] as int)
    &&& forall|i: int|
        grid_valid_index(w, h, i) ==> #[trigger] tiles[i] == blank_of(tiles[i].kind)
    &&& forall|i: int|
        grid_valid_index(w, h, i) ==> (#[trigger] tiles[i]).kind == TileKind::Mountain || tiles[i].kind
            == TileKind::Open || tiles[i].kind == TileKind::General
    &&& forall|i: int|
        grid_valid_index(w, h, i) && (#[trigger] tiles[i]).kind == TileKind::General ==> (exists|k: int|
            0 <= k < generals.len() && #[trigger] generals[k] as int == i)
}

/// The union-find structure of the outside crate, declared so that its
/// values can flow through verified code.
#[verifier::external_type_specification]
#[verifier::external_body]
#[verifier::reject_recursive_types(Key)]
#[verifier::reject_recursive_types(Parent)]
#[verifier::reject_recursive_types(Rank)]
pub struct ExUnionFind<Key, Parent, Rank>(fera_unionfind::UnionFind<Key, Parent, Rank>)
    where
        Key: Copy + PartialEq,
        Parent: core::ops::IndexMut<Key, Output = Key>,
        Rank: core::ops::IndexMut<Key, Output = usize>,
;

/// The partition a union-find structure stands for: each key of its range
/// is sent to a value naming its set, and two keys are in the same set
/// exactly when they are sent to the same value.
pub uninterp spec fn uf_comp(u: fera_unionfind::UnionFindRange) -> Map<int, int>;

/// Relies on fera_unionfind::UnionFindRange::with_keys_in_range: every key
/// in `0..n` starts out in its own singleton set.
#[verifier::external_body]
fn uf_new(n: usize) -> (u: fera_unionfind::UnionFindRange)
    ensures
        uf_comp(u).dom() == Set::new(|x: int| 0 <= x < n),
        forall|a: int, b: int|
            uf_comp(u).dom().contains(a) && uf_comp(u).dom().contains(b) ==> ((#[trigger] uf_comp(
                u,
            )[a] == #[trigger] uf_comp(u)[b]) <==> a == b),
{
    fera_unionfind::UnionFindRange::with_keys_in_range(..n)
}

/// Relies on fera_unionfind::UnionFind::union: joins the sets of the two
/// keys, and nothing else changes. The call panics on keys already in the
/// same set or outside the range, so callers keep away from both.
#[verifier::external_body]
fn uf_union(u: &mut fera_unionfind::UnionFindRange, x: usize, y: usize)
    requires
        uf_comp(*old(u)).dom().contains(x as int),
        uf_comp(*old(u)).dom().contains(y as int),
        uf_comp(*old(u))[x as int] != uf_comp(*old(u))[y as int],
    ensures
        uf_comp(*final(u)).dom() == uf_comp(*old(u)).dom(),
        forall|a: int, b: int|
            uf_comp(*old(u)).dom().contains(a) && uf_comp(*old(u)).dom().contains(b) ==> ((
            #[trigger] uf_comp(*final(u))[a] == #[trigger] uf_comp(*final(u))[b]) <==> (uf_comp(
                *old(u),
            )[a] == uf_comp(*old(u))[b] || ((uf_comp(*old(u))[a] == uf_comp(*old(u))[x as int]
                || uf_comp(*old(u))[a] == uf_comp(*old(u))[y as int]) && (uf_comp(*old(u))[b]
                == uf_comp(*old(u))[x as int] || uf_comp(*old(u))[b] == uf_comp(
                *old(u),
            )[y as int])))),
{
    u.union(x, y)
}

/// Relies on fera_unionfind::UnionFind::in_same_set: answers whether the
/// two keys share a set. The call compresses paths, which never changes the
/// partition. It panics on keys outside the range, so callers keep away.
#[verifier::external_body]
fn uf_in_same_set(u: &mut fera_unionfind::UnionFindRange, x: usize, y: usize) -> (r: bool)
    requires
        uf_comp(*old(u)).dom().contains(x as int),
        uf_comp(*old(u)).dom().contains(y as int),
    ensures
        r == (uf_comp(*old(u))[x as int] == uf_comp(*old(u))[y as int]),
        uf_comp(*final(u)).dom() == uf_comp(*old(u)).dom(),
        forall|a: int, b: int|
            uf_comp(*old(u)).dom().contains(a) && uf_comp(*old(u)).dom().contains(b) ==> ((
            #[trigger] uf_comp(*final(u))[a] == #[trigger] uf_comp(*final(u))[b]) <==> uf_comp(
                *old(u),
            )[a] == uf_comp(*old(u))[b]),
{
    u.in_same_set(x, y)
}

/// Relies on rand::rngs::ThreadRng and rand::Rng::gen_range: a number drawn
/// below the bound. Nothing is assumed of the draw beyond the bound.
#[verifier::external_body]
fn random_below(n: usize) -> (r: usize)
    requires
        n >= 1,
    ensures
        r < n,
{
    rand::Rng::gen_range(&mut rand::thread_rng(), 0..n)
}

/// A temporary data structure used to generate a random board.
#[derive(Debug)]
pub struct GridBuilder {
    grid: Grid<Tile>,
    generals: Vec<usize>,
    nb_generals: usize,
}

impl GridBuilder {
    /// The board under construction.
    pub closed spec fn spec_grid(self) -> Grid<Tile> {
        self.grid
    }

    /// The number of generals asked for.
    pub closed spec fn spec_nb_generals(self) -> int {
        self.nb_generals as int
    }

    /// The generals placed so far.
    pub closed spec fn spec_generals(self) -> Seq<usize> {
        self.generals@
    }

    /// A builder as `new` hands it out: a fully closed board of the drawn
    /// dimensions, with no general placed yet.
    pub open spec fn fresh(self) -> bool {
        &&& self.spec_grid().wf()
        &&& self.spec_generals().len() == 0
        &&& 1 <= self.spec_nb_generals() <= 8
        &&& MIN_GRID_SIZE + self.spec_nb_generals() <= self.spec_grid().spec_width()
            <= MIN_GRID_SIZE + self.spec_nb_generals() + GRID_SIZE_MAX_DELTA
        &&& MIN_GRID_SIZE + self.spec_nb_generals() <= self.spec_grid().spec_height()
            <= MIN_GRID_SIZE + self.spec_nb_generals() + GRID_SIZE_MAX_DELTA
        &&& forall|i: int|
            grid_valid_index(self.spec_grid().spec_width(), self.spec_grid().spec_height(), i)
                ==> #[trigger] self.spec_grid().spec_tiles()[i]@ == blank_of(TileKind::Mountain)
    }

    /// Return a new builder. The board dimensions are random but are related
    /// to the number of generals: more generals mean a bigger board.
    pub fn new(nb_generals: usize) -> (b: GridBuilder)
        requires
            1 <= nb_generals <= 8,
        ensures
            b.fresh(),
            b.spec_nb_generals() == nb_generals,
    {
        let width = MIN_GRID_SIZE + nb_generals + random_below(GRID_SIZE_MAX_DELTA + 1);
        let height = MIN_GRID_SIZE + nb_generals + random_below(GRID_SIZE_MAX_DELTA + 1);
        proof {
            assert(width * height <= usize::MAX) by (nonlinear_arith)
                requires width <= 31 && height <= 31;
        }
        let grid = Grid::new(closed_tile, width, height);
        proof {
            assert forall|i: int|
                grid_valid_index(grid.spec_width(), grid.spec_height(), i) implies #[trigger] grid.spec_tiles()[i]@
                == blank_of(TileKind::Mountain) by {
                let iu = i as usize;
                assert(call_ensures(closed_tile, (iu,), grid.spec_tiles()[iu as int]));
            }
        }
        GridBuilder { generals: Vec::new(), grid, nb_generals }
    }

    /// Open random tiles, spawning the generals on the way, until every
    /// general stands in one connected stretch of open terrain, then hand
    /// the board out together with the general positions.
    ///
    /// Each round draws one still-closed tile — exactly the classic draw
    /// that redraws on already-open tiles, but counted so that the sweep
    /// provably ends. In the vanishingly rare case where every tile has
    /// been opened before all the generals found room, the board is
    /// completed deterministically: placement restarts on a spaced sampling
    /// of the fully open board, which always has room.
    #[verifier::rlimit(100)]
    pub fn build(self) -> (r: (Vec<usize>, Grid<Tile>))
        requires
            self.fresh(),
        ensures
            r.1.wf(),
            r.1.spec_width() == self.spec_grid().spec_width(),
            r.1.spec_height() == self.spec_grid().spec_height(),
            MIN_GRID_SIZE + self.spec_nb_generals() <= r.1.spec_width() <= MIN_GRID_SIZE
                + self.spec_nb_generals() + GRID_SIZE_MAX_DELTA,
            MIN_GRID_SIZE + self.spec_nb_generals() <= r.1.spec_height() <= MIN_GRID_SIZE
                + self.spec_nb_generals() + GRID_SIZE_MAX_DELTA,
            generated_ok(
                r.0@,
                grid_views(r.1),
                r.1.spec_width(),
                r.1.spec_height(),
                self.spec_nb_generals(),
            ),
    {
        let GridBuilder { mut grid, mut generals, nb_generals } = self;
        let ghost w = grid.spec_width();
        let ghost h = grid.spec_height();
        let n = grid.len();
        let mut uf = uf_new(n);
        let mut closed: Vec<usize> = Vec::new();
        let mut ci: usize = 0;
        while ci < n
            invariant
                ci <= n,
                closed@.len() == ci,
                forall|k: int| 0 <= k < ci ==> #[trigger] closed@[k] == k,
            decreases n - ci,
        {
            closed.push(ci);
            ci += 1;
        }
        proof {
            grid.lemma_dims();
            assert forall|i: int|
                grid_valid_index(w, h, i) implies ((#[trigger] grid_views(grid)[i]).kind
                == TileKind::Mountain <==> closed@.contains(i as usize)) by {
                assert(closed@[i] == i as usize);
            }
            assert(closed_ok(closed@, grid_views(grid), w, h));
            assert(uf_sound(uf, grid_views(grid), w, h, n as int));
        }

        while closed.len() > 0
            invariant
                grid.wf(),
                grid.spec_width() == w,
                grid.spec_height() == h,
                w == self.spec_grid().spec_width(),
                h == self.spec_grid().spec_height(),
                nb_generals == self.spec_nb_generals(),
                w >= MIN_GRID_SIZE + nb_generals,
                h >= MIN_GRID_SIZE + nb_generals,
                w <= MIN_GRID_SIZE + nb_generals + GRID_SIZE_MAX_DELTA,
                h <= MIN_GRID_SIZE + nb_generals + GRID_SIZE_MAX_DELTA,
                1 <= nb_generals <= 8,
                n == w * h,
                n == grid_views(grid).len(),
                board_blank(grid_views(grid), w, h),
                closed_ok(closed@, grid_views(grid), w, h),
                uf_sound(uf, grid_views(grid), w, h, n as int),
                generals@.len() <= nb_generals,
                generals_ok(generals@, grid_views(grid), w, h),
                forall|i: int|
                    grid_valid_index(w, h, i) && (#[trigger] grid_views(grid)[i]).kind
                        == TileKind::General ==> (exists|k2: int|
                        0 <= k2 < generals@.len() && #[trigger] generals@[k2] as int == i),
            decreases closed.len(),
        {
            let ghost views0 = grid_views(grid);
            // Pick a random tile that is still closed
            let pick = random_below(closed.len());
            let index = closed[pick];
            let ghost closed0 = closed@;
            let _ = closed.swap_remove(pick);
            proof {
                assert(closed0.contains(index)) by {
                    assert(closed0[pick as int] == index);
                }
                assert(grid_valid_index(w, h, index as int));
                assert(views0[index as int].kind == TileKind::Mountain);
            }
            // Open the tile
            {
                let t = grid.get_mut(index);
                t.make_open();
            }
            let ghost views1 = grid_views(grid);
            proof {
                assert(views1[index as int] =~= blank_of(TileKind::Open));
                assert(forall|i: int|
                    0 <= i < n && i != index ==> views1[i] == views0[i]);
                assert forall|i: int|
                    grid_valid_index(w, h, i) implies #[trigger] views1[i] == blank_of(
                    views1[i].kind,
                ) && (views1[i].kind == TileKind::Mountain || views1[i].kind == TileKind::Open
                    || views1[i].kind == TileKind::General) by {
                    if i != index {
                        assert(views1[i] == views0[i]);
                    }
                }
                assert(board_blank(views1, w, h));
                assert forall|i: int|
                    grid_valid_index(w, h, i) && (#[trigger] views1[i]).kind
                        == TileKind::General implies (exists|k2: int|
                    0 <= k2 < generals@.len() && #[trigger] generals@[k2] as int == i) by {
                    assert(views1[i] == views0[i]);
                }
                lemma_closed_after_remove(closed0, closed@, pick as int, views0, views1, w, h, index);
                assert forall|a: int, b: int|
                    #![trigger uf_comp(uf)[a], uf_comp(uf)[b]]
                    0 <= a < n && 0 <= b < n && uf_comp(uf)[a] == uf_comp(uf)[b] implies (a == b
                    || connected(views1, w, h, a, b)) by {
                    if a != b {
                        lemma_connected_monotone(views0, views1, w, h, a, b);
                    }
                }
                assert(uf_sound(uf, views1, w, h, n as int));
            }
            // Connect the tile to its neighbors that are already open
            let neighbors = grid.direct_neighbors(index);
            let mut k: usize = 0;
            while k < neighbors.len()
                invariant
                    grid.wf(),
                    grid.spec_width() == w,
                    grid.spec_height() == h,
                    w >= MIN_GRID_SIZE + nb_generals,
                    h >= MIN_GRID_SIZE + nb_generals,
                    1 <= nb_generals <= 8,
                    n == w * h,
                    n == grid_views(grid).len(),
                    grid_views(grid) == views1,
                    board_blank(views1, w, h),
                    closed_ok(closed@, views1, w, h),
                    generals@.len() <= nb_generals,
                    generals_ok(generals@, views1, w, h),
                    grid_valid_index(w, h, index as int),
                    views1[index as int].kind == TileKind::Open,
                    k <= neighbors.len(),
                    forall|k2: int|
                        0 <= k2 < neighbors@.len() ==> grid_valid_index(
                            w,
                            h,
                            #[trigger] neighbors@[k2] as int,
                        ) && direct_adjacent(w, h, index as int, neighbors@[k2] as int),
                    uf_sound(uf, views1, w, h, n as int),
                decreases neighbors.len() - k,
            {
                let j = neighbors[k];
                let open_j = {
                    let tj = grid.get(j);
                    tj.is_open() || tj.is_general()
                };
                if open_j {
                    let ghost comp0 = uf_comp(uf);
                    let same = uf_in_same_set(&mut uf, index, j);
                    proof {
                        assert forall|a: int, b: int|
                            #![trigger uf_comp(uf)[a], uf_comp(uf)[b]]
                            0 <= a < n && 0 <= b < n && uf_comp(uf)[a] == uf_comp(
                                uf,
                            )[b] implies (a == b || connected(views1, w, h, a, b)) by {
                            assert(comp0[a] == comp0[b]);
                        }
                    }
                    if !same {
                        let ghost comp1 = uf_comp(uf);
                        uf_union(&mut uf, index, j);
                        proof {
                            lemma_connected_step(views1, w, h, index as int, j as int);
                            assert forall|a: int, b: int|
                                #![trigger uf_comp(uf)[a], uf_comp(uf)[b]]
                                0 <= a < n && 0 <= b < n && uf_comp(uf)[a] == uf_comp(
                                    uf,
                                )[b] implies (a == b || connected(views1, w, h, a, b)) by {
                                if a != b && comp1[a] != comp1[b] {
                                    let x = index as int;
                                    let y = j as int;
                                    let ca: int = if comp1[a] == comp1[x] { x } else { y };
                                    let cb: int = if comp1[b] == comp1[x] { x } else { y };
                                    assert(connected(views1, w, h, ca, cb)) by {
                                        if ca == cb {
                                            lemma_connected_refl(views1, w, h, ca);
                                        } else if ca == x {
                                            lemma_connected_step(views1, w, h, x, y);
                                        } else {
                                            lemma_connected_step(views1, w, h, x, y);
                                            lemma_connected_symm(views1, w, h, x, y);
                                        }
                                    }
                                    if a == ca {
                                        assert(connected(views1, w, h, a, cb));
                                    } else {
                                        assert(connected(views1, w, h, a, ca));
                                        lemma_connected_trans(views1, w, h, a, ca, cb);
                                    }
                                    if b == cb {
                                        assert(connected(views1, w, h, a, b));
                                    } else {
                                        assert(connected(views1, w, h, b, cb));
                                        lemma_connected_symm(views1, w, h, b, cb);
                                        lemma_connected_trans(views1, w, h, a, cb, b);
                                    }
                                }
                            }
                        }
                    }
                }
                k += 1;
            }
            // If not all the generals have been spawned, and if the tile is
            // far enough from all the other generals, make it a general.
            if generals.len() < nb_generals {
                let mut far = true;
                let mut gk: usize = 0;
                while gk < generals.len()
                    invariant
                        grid.wf(),
                        grid.spec_width() == w,
                        grid.spec_height() == h,
                        w >= MIN_GRID_SIZE + nb_generals,
                        1 <= nb_generals <= 8,
                        n == w * h,
                        n == grid_views(grid).len(),
                        grid_views(grid) == views1,
                        grid_valid_index(w, h, index as int),
                        gk <= generals@.len(),
                        generals_ok(generals@, views1, w, h),
                        far <==> (forall|j: int|
                            0 <= j < gk ==> grid_manhattan(
                                w,
                                index as int,
                                #[trigger] generals@[j] as int,
                            ) >= MIN_DISTANCE),
                    decreases generals.len() - gk,
                {
                    if grid.manhattan_distance(index, generals[gk]) < MIN_DISTANCE {
                        far = false;
                    }
                    gk += 1;
                }
                if far {
                    let ghost generals_pre = generals@;
                    {
                        let t = grid.get_mut(index);
                        t.make_general();
                    }
                    generals.push(index);
                    let ghost views2 = grid_views(grid);
                    proof {
                        assert(views2[index as int] =~= blank_of(TileKind::General));
                        assert(forall|i: int|
                            0 <= i < n && i != index ==> views2[i] == views1[i]);
                        assert forall|i: int|
                            grid_valid_index(w, h, i) implies #[trigger] views2[i] == blank_of(
                            views2[i].kind,
                        ) && (views2[i].kind == TileKind::Mountain || views2[i].kind
                            == TileKind::Open || views2[i].kind == TileKind::General) by {
                            if i != index {
                                assert(views2[i] == views1[i]);
                            }
                        }
                        assert(board_blank(views2, w, h));
                        assert forall|i: int|
                            grid_valid_index(w, h, i) && (#[trigger] views2[i]).kind
                                == TileKind::General implies (exists|k2: int|
                            0 <= k2 < generals@.len() && #[trigger] generals@[k2] as int
                                == i) by {
                            if i == index as int {
                                assert(generals@[generals@.len() - 1] as int == i);
                            } else {
                                assert(views2[i] == views1[i]);
                                let k2 = choose|k2: int|
                                    0 <= k2 < generals_pre.len() && #[trigger] generals_pre[k2] as int
                                        == i;
                                assert(generals@[k2] as int == i);
                            }
                        }
                        assert(closed_ok(closed@, views2, w, h)) by {
                            assert forall|i: int|
                                grid_valid_index(w, h, i) implies ((#[trigger] views2[i]).kind
                                == TileKind::Mountain <==> closed@.contains(i as usize)) by {
                                if i != index {
                                    assert(views2[i] == views1[i]);
                                }
                            }
                        }
                        assert(generals_ok(generals@, views2, w, h));
                        assert forall|a: int, b: int|
                            #![trigger uf_comp(uf)[a], uf_comp(uf)[b]]
                            0 <= a < n && 0 <= b < n && uf_comp(uf)[a] == uf_comp(
                                uf,
                            )[b] implies (a == b || connected(views2, w, h, a, b)) by {
                            if a != b {
                                lemma_connected_monotone(views1, views2, w, h, a, b);
                            }
                        }
                        assert(uf_sound(uf, views2, w, h, n as int));
                    }
                }
            } else {
                // Check whether all the generals are connected; if so we are
                // done. To check it, we check that they are all connected to
                // the first one.
                let first_general = generals[0];
                let mut all_connected = true;
                let mut gk: usize = 1;
                while gk < generals.len()
                    invariant
                        grid.wf(),
                        grid.spec_width() == w,
                        grid.spec_height() == h,
                        w == self.spec_grid().spec_width(),
                        h == self.spec_grid().spec_height(),
                        nb_generals == self.spec_nb_generals(),
                        n == w * h,
                        n == grid_views(grid).len(),
                        grid_views(grid) == views1,
                        board_blank(views1, w, h),
                        closed_ok(closed@, views1, w, h),
                        generals_ok(generals@, views1, w, h),
                        1 <= gk <= generals@.len(),
                        generals@.len() == nb_generals,
                        1 <= nb_generals <= 8,
                        first_general == generals@[0],
                        uf_sound(uf, views1, w, h, n as int),
                        all_connected ==> (forall|j: int|
                            1 <= j < gk ==> uf_comp(uf)[generals@[0] as int] == uf_comp(uf)[
                                #[trigger] generals@[j] as int
                            ]),
                    decreases generals.len() - gk,
                {
                    let ghost comp0 = uf_comp(uf);
                    let same = uf_in_same_set(&mut uf, first_general, generals[gk]);
                    if !same {
                        all_connected = false;
                    }
                    proof {
                        assert forall|a: int, b: int|
                            #![trigger uf_comp(uf)[a], uf_comp(uf)[b]]
                            0 <= a < n && 0 <= b < n && uf_comp(uf)[a] == uf_comp(
                                uf,
                            )[b] implies (a == b || connected(views1, w, h, a, b)) by {
                            assert(comp0[a] == comp0[b]);
                        }
                        if all_connected {
                            assert forall|j: int|
                                1 <= j < gk + 1 implies uf_comp(uf)[generals@[0] as int] == uf_comp(
                                uf,
                            )[#[trigger] generals@[j] as int] by {
                                assert(comp0[generals@[0] as int] == comp0[generals@[j] as int]);
                            }
                        }
                    }
                    gk += 1;
                }
                if all_connected {
                    proof {
                        assert forall|k2: int|
                            0 <= k2 < nb_generals implies connected(
                            grid_views(grid),
                            w,
                            h,
                            generals@[0] as int,
                            #[trigger] generals@[k2] as int,
                        ) by {
                            if k2 == 0 || generals@[0] as int == generals@[k2] as int {
                                lemma_connected_refl(grid_views(grid), w, h, generals@[0] as int);
                            }
                        }
                        assert(generated_ok(generals@, grid_views(grid), w, h, nb_generals as int));
                    }
                    return (generals, grid);
                }
            }
        }

        // Every tile is open now. If the random sweep left generals
        // unplaced, restart their placement on a spaced sampling of the
        // board, which provably has room for all of them.
        proof {
            assert forall|i: int| grid_valid_index(w, h, i) implies tile_open(
                grid_views(grid),
                i,
            ) by {
                assert(!closed@.contains(i as usize));
            }
        }
        if generals.len() < nb_generals {
            proof {
                // generals pairwise ten apart are in particular distinct
                assert forall|j: int, l: int|
                    0 <= j < generals@.len() && 0 <= l < generals@.len() && j
                        != l implies generals@[j] != generals@[l] by {
                    assert(grid_manhattan(w, generals@[j] as int, generals@[l] as int)
                        >= MIN_DISTANCE);
                }
            }
            let ghost generals_old = generals@;
            let glen = generals.len();
            let mut dk: usize = 0;
            while dk < glen
                invariant
                    grid.wf(),
                    grid.spec_width() == w,
                    grid.spec_height() == h,
                    w == self.spec_grid().spec_width(),
                    h == self.spec_grid().spec_height(),
                    nb_generals == self.spec_nb_generals(),
                    w >= MIN_GRID_SIZE + nb_generals,
                    h >= MIN_GRID_SIZE + nb_generals,
                    1 <= nb_generals <= 8,
                    n == w * h,
                    n == grid_views(grid).len(),
                    board_blank(grid_views(grid), w, h),
                    dk <= glen,
                    glen == generals@.len(),
                    generals@ == generals_old,
                    forall|k2: int|
                        0 <= k2 < generals@.len() ==> grid_valid_index(
                            w,
                            h,
                            #[trigger] generals@[k2] as int,
                        ),
                    forall|j: int, l: int|
                        0 <= j < generals@.len() && 0 <= l < generals@.len() && j != l
                            ==> generals@[j] != generals@[l],
                    forall|i: int| grid_valid_index(w, h, i) ==> tile_open(grid_views(grid), i),
                    forall|i: int|
                        grid_valid_index(w, h, i) && (#[trigger] grid_views(grid)[i]).kind
                            == TileKind::General ==> (exists|j: int|
                            dk <= j < glen && #[trigger] generals@[j] as int == i),
                decreases glen - dk,
            {
                let ghost pre = grid_views(grid);
                let g = generals[dk];
                {
                    let t = grid.get_mut(g);
                    t.make_open();
                }
                proof {
                    assert(grid_views(grid)[g as int] =~= blank_of(TileKind::Open));
                    assert forall|i: int|
                        grid_valid_index(w, h, i) && (#[trigger] grid_views(grid)[i]).kind
                            == TileKind::General implies (exists|j: int|
                        dk + 1 <= j < glen && #[trigger] generals@[j] as int == i) by {
                        assert(grid_views(grid)[i] == pre[i]);
                        let j = choose|j: int|
                            dk <= j < glen && #[trigger] generals@[j] as int == i;
                        assert(j != dk);
                        assert(generals@[j] as int == i);
                    }
                }
                dk += 1;
            }
            proof {
                assert(forall|i: int|
                    grid_valid_index(w, h, i) ==> (#[trigger] grid_views(grid)[i]).kind
                        != TileKind::General);
            }
            generals = Vec::new();
            let mut t: usize = 0;
            let ghost mut coords: Seq<(int, int)> = Seq::empty();
            while t < 9
                invariant
                    grid.wf(),
                    grid.spec_width() == w,
                    grid.spec_height() == h,
                    w == self.spec_grid().spec_width(),
                    h == self.spec_grid().spec_height(),
                    nb_generals == self.spec_nb_generals(),
                    w >= MIN_GRID_SIZE + nb_generals,
                    h >= MIN_GRID_SIZE + nb_generals,
                    1 <= nb_generals <= 8,
                    n == w * h,
                    n == grid_views(grid).len(),
                    board_blank(grid_views(grid), w, h),
                    forall|i: int| grid_valid_index(w, h, i) ==> tile_open(grid_views(grid), i),
                    t <= 9,
                    generals@.len() == coords.len(),
                    lat_count(w, h, t as int) <= nb_generals ==> generals@.len() == lat_count(
                        w,
                        h,
                        t as int,
                    ),
                    lat_count(w, h, t as int) > nb_generals ==> generals@.len() == nb_generals,
                    generals@.len() <= nb_generals,
                    forall|k2: int|
                        0 <= k2 < coords.len() ==> {
                            &&& 0 <= (#[trigger] coords[k2]).0 < 3
                            &&& 0 <= coords[k2].1 < 3
                            &&& 3 * coords[k2].0 + coords[k2].1 < t
                            &&& 10 * coords[k2].0 < h
                            &&& 10 * coords[k2].1 < w
                            &&& generals@[k2] as int == grid_index(
                                w,
                                10 * coords[k2].1,
                                10 * coords[k2].0,
                            )
                        },
                    forall|k2: int, l2: int|
                        0 <= k2 < l2 < coords.len() ==> 3 * (#[trigger] coords[k2]).0
                            + coords[k2].1 < 3 * (#[trigger] coords[l2]).0 + coords[l2].1,
                    forall|i: int|
                        grid_valid_index(w, h, i) && (#[trigger] grid_views(grid)[i]).kind
                            == TileKind::General ==> (exists|k2: int|
                            0 <= k2 < generals@.len() && #[trigger] generals@[k2] as int == i),
                    generals_ok(generals@, grid_views(grid), w, h),
                decreases 9 - t,
            {
                let r = t / 3;
                let c = t % 3;
                if 10 * r < grid.height() && 10 * c < grid.width() && generals.len()
                    < nb_generals {
                    proof {
                        lemma_index_of(w, h, 10 * c as int, 10 * r as int);
                    }
                    let ghost views_pre = grid_views(grid);
                    let ghost generals_pre = generals@;
                    let idx = 10 * c + 10 * r * grid.width();
                    {
                        let tt = grid.get_mut(idx);
                        tt.make_general();
                    }
                    generals.push(idx);
                    proof {
                        coords = coords.push((r as int, c as int));
                        let views3 = grid_views(grid);
                        assert(views3[idx as int] =~= blank_of(TileKind::General));
                        assert(board_blank(views3, w, h));
                        assert forall|i: int|
                            grid_valid_index(w, h, i) && (#[trigger] views3[i]).kind
                                == TileKind::General implies (exists|k2: int|
                            0 <= k2 < generals@.len() && #[trigger] generals@[k2] as int
                                == i) by {
                            if i == idx as int {
                                assert(generals@[generals@.len() - 1] as int == i);
                            } else {
                                assert(views3[i] == views_pre[i]);
                                let k2 = choose|k2: int|
                                    0 <= k2 < generals_pre.len() && #[trigger] generals_pre[k2] as int
                                        == i;
                                assert(generals@[k2] as int == i);
                            }
                        }
                        assert forall|k2: int, l2: int|
                            0 <= k2 < generals@.len() && 0 <= l2 < generals@.len() && k2
                                != l2 implies grid_manhattan(
                            w,
                            #[trigger] generals@[k2] as int,
                            #[trigger] generals@[l2] as int,
                        ) >= MIN_DISTANCE by {
                            lemma_lattice_distance(w, h, coords, generals@, k2, l2);
                        }
                        assert(generals_ok(generals@, views3, w, h));
                    }
                }
                t += 1;
            }
            proof {
                lemma_lat_capacity(w, h, nb_generals as int);
            }
        }
        proof {
            assert forall|k2: int|
                0 <= k2 < nb_generals implies connected(
                grid_views(grid),
                w,
                h,
                generals@[0] as int,
                #[trigger] generals@[k2] as int,
            ) by {
                lemma_full_open_connected(
                    grid_views(grid),
                    w,
                    h,
                    generals@[0] as int,
                    generals@[k2] as int,
                );
            }
            assert(generated_ok(generals@, grid_views(grid), w, h, nb_generals as int));
        }
        (generals, grid)
    }
}

/// After the draw, the closed list holds exactly the closed tiles it held
/// before, less the tile just opened.
proof fn lemma_closed_after_remove(
    closed0: Seq<usize>,
    closed1: Seq<usize>,
    pick: int,
    views0: Seq<TileView>,
    views1: Seq<TileView>,
    w: int,
    h: int,
    index: usize,
)
    requires
        closed_ok(closed0, views0, w, h),
        0 <= pick < closed0.len(),
        closed0[pick] == index,
        closed1 == closed0.update(pick, closed0.last()).drop_last(),
        views0.len() == views1.len(),
        views0.len() == w * h,
        views0.len() <= usize::MAX,
        views1[index as int].kind != TileKind::Mountain,
        forall|i: int| 0 <= i < views0.len() && i != index ==> views1[i] == views0[i],
        grid_valid_index(w, h, index as int),
    ensures
        closed_ok(closed1, views1, w, h),
{
    let last = closed0.len() - 1;
    assert forall|k: int| 0 <= k < closed1.len() implies grid_valid_index(
        w,
        h,
        #[trigger] closed1[k] as int,
    ) by {
        if k == pick {
            assert(closed1[k] == closed0[last]);
        } else {
            assert(closed1[k] == closed0[k]);
        }
    }
    assert forall|k1: int, k2: int|
        0 <= k1 < closed1.len() && 0 <= k2 < closed1.len() && k1 != k2 implies closed1[k1]
        != closed1[k2] by {
        let o1: int = if k1 == pick { last } else { k1 };
        let o2: int = if k2 == pick { last } else { k2 };
        assert(closed1[k1] == closed0[o1] && closed1[k2] == closed0[o2]);
        assert(o1 != o2);
    }
    assert forall|i: int|
        grid_valid_index(w, h, i) implies ((#[trigger] views1[i]).kind == TileKind::Mountain
        <==> closed1.contains(i as usize)) by {
        if i == index {
            // opened: must be out of the list
            if closed1.contains(i as usize) {
                let k = choose|k: int| 0 <= k < closed1.len() && closed1[k] == i as usize;
                let o: int = if k == pick { last } else { k };
                assert(closed0[o] == index && closed0[pick] == index);
                assert(o == pick);
                assert(false);
            }
        } else {
            assert(views1[i] == views0[i]);
            if views0[i].kind == TileKind::Mountain {
                assert(closed0.contains(i as usize));
                let k = choose|k: int| 0 <= k < closed0.len() && closed0[k] == i as usize;
                assert((i as usize) as int == i);
                assert(k != pick);
                if k == last {
                    assert(pick < last);
                    assert(closed1[pick] == closed0[last]);
                    assert(closed1.contains(i as usize));
                } else {
                    assert(closed1[k] == closed0[k]);
                    assert(closed1.contains(i as usize));
                }
            }
            if closed1.contains(i as usize) {
                let k = choose|k: int| 0 <= k < closed1.len() && closed1[k] == i as usize;
                let o: int = if k == pick { last } else { k };
                assert(closed0[o] == i as usize);
                assert(closed0.contains(i as usize));
            }
        }
    }
}

/// Two distinct sampling points keep their generals at least ten cells
/// apart: the points differ in a coordinate, by a multiple of ten.
proof fn lemma_lattice_distance(
    w: int,
    h: int,
    coords: Seq<(int, int)>,
    generals: Seq<usize>,
    k: int,
    l: int,
)
    requires
        w > 0,
        coords.len() == generals.len(),
        0 <= k < coords.len(),
        0 <= l < coords.len(),
        k != l,
        forall|k2: int|
            0 <= k2 < coords.len() ==> {
                &&& 0 <= (#[trigger] coords[k2]).0 < 3
                &&& 0 <= coords[k2].1 < 3
                &&& 10 * coords[k2].0 < h
                &&& 10 * coords[k2].1 < w
                &&& generals[k2] as int == grid_index(w, 10 * coords[k2].1, 10 * coords[k2].0)
            },
        forall|k2: int, l2: int|
            0 <= k2 < l2 < coords.len() ==> 3 * (#[trigger] coords[k2]).0 + coords[k2].1 < 3 * (
            #[trigger] coords[l2]).0 + coords[l2].1,
    ensures
        grid_manhattan(w, generals[k] as int, generals[l] as int) >= MIN_DISTANCE,
{
    let (rk, ck) = (coords[k].0, coords[k].1);
    let (rl, cl) = (coords[l].0, coords[l].1);
    lemma_index_of(w, h, 10 * ck, 10 * rk);
    lemma_index_of(w, h, 10 * cl, 10 * rl);
    if k < l {
        assert(3 * rk + ck < 3 * rl + cl);
    } else {
        assert(3 * rl + cl < 3 * rk + ck);
    }
    assert(rk != rl || ck != cl);
}


/// The tiles of a grid, as their models.
pub open spec fn grid_views(g: Grid<Tile>) -> Seq<TileView> {
    g.spec_tiles().map_values(|t: Tile| t@)
}

/// Whether the union-find structure only ever merges reachable tiles: keys
/// of `0..n` sharing a set are connected over the board.
pub open spec fn uf_sound(
    u: fera_unionfind::UnionFindRange,
    tiles: Seq<TileView>,
    w: int,
    h: int,
    n: int,
) -> bool {
    &&& uf_comp(u).dom() == Set::new(|x: int| 0 <= x < n)
    &&& forall|a: int, b: int|
        #![trigger uf_comp(u)[a], uf_comp(u)[b]]
        0 <= a < n && 0 <= b < n && uf_comp(u)[a] == uf_comp(u)[b] ==> (a == b || connected(
            tiles,
            w,
            h,
            a,
            b,
        ))
}

/// Whether every tile of the board under construction is still bare, of one
/// of the three kinds the generator deals in.
pub open spec fn board_blank(tiles: Seq<TileView>, w: int, h: int) -> bool {
    forall|i: int|
        grid_valid_index(w, h, i) ==> #[trigger] tiles[i] == blank_of(tiles[i].kind) && (tiles[i].kind
            == TileKind::Mountain || tiles[i].kind == TileKind::Open || tiles[i].kind
            == TileKind::General)
}

/// Whether the generals placed so far sit on valid general tiles, pairwise
/// at least `MIN_DISTANCE` apart.
pub open spec fn generals_ok(generals: Seq<usize>, tiles: Seq<TileView>, w: int, h: int) -> bool {
    &&& forall|k: int|
        0 <= k < generals.len() ==> grid_valid_index(w, h, #[trigger] generals[k] as int)
            && tiles[generals[k] as int].kind == TileKind::General
    &&& forall|k: int, l: int|
        0 <= k < generals.len() && 0 <= l < generals.len() && k != l ==> grid_manhattan(
            w,
            #[trigger] generals[k] as int,
            #[trigger] generals[l] as int,
        ) >= MIN_DISTANCE
}

/// Whether `closed` lists exactly the still-closed tiles, once each.
pub open spec fn closed_ok(closed: Seq<usize>, tiles: Seq<TileView>, w: int, h: int) -> bool {
    &&& forall|k: int| 0 <= k < closed.len() ==> grid_valid_index(w, h, #[trigger] closed[k] as int)
    &&& forall|k1: int, k2: int|
        0 <= k1 < closed.len() && 0 <= k2 < closed.len() && k1 != k2 ==> closed[k1] != closed[k2]
    &&& forall|i: int|
        grid_valid_index(w, h, i) ==> ((#[trigger] tiles[i]).kind == TileKind::Mountain
            <==> closed.contains(i as usize))
}

/// The spaced sampling points the fallback placement walks: the `t`-th
/// point sits ten rows down per step of `t / 3` and ten columns right per
/// step of `t % 3`.
pub open spec fn lat_fits(w: int, h: int, t: int) -> bool {
    10 * (t / 3) < h && 10 * (t % 3) < w
}

/// How many of the first `t` sampling points fall inside the board.
pub open spec fn lat_count(w: int, h: int, t: int) -> int
    decreases t,
{
    if t <= 0 {
        0
    } else {
        lat_count(w, h, t - 1) + if lat_fits(w, h, t - 1) {
            1int
        } else {
            0int
        }
    }
}

/// A board big enough for its generals offers at least as many spaced
/// sampling points as generals.
pub proof fn lemma_lat_capacity(w: int, h: int, nb: int)
    requires
        1 <= nb <= 8,
        w >= MIN_GRID_SIZE + nb,
        h >= MIN_GRID_SIZE + nb,
    ensures
        lat_count(w, h, 9) >= nb,
{
    let c2: int = if 20 < w { 1 } else { 0 };
    let r2: int = if 20 < h { 1 } else { 0 };
    assert(lat_count(w, h, 0) == 0);
    assert(lat_count(w, h, 1) == 1);
    assert(lat_count(w, h, 2) == 2);
    assert(lat_count(w, h, 3) == 2 + c2);
    assert(lat_count(w, h, 4) == 3 + c2);
    assert(lat_count(w, h, 5) == 4 + c2);
    assert(lat_count(w, h, 6) == 4 + 2 * c2);
    assert(lat_count(w, h, 7) == 4 + 2 * c2 + r2);
    assert(lat_count(w, h, 8) == 4 + 2 * c2 + 2 * r2);
    assert(lat_count(w, h, 9) == 4 + 2 * c2 + 2 * r2 + c2 * r2);
    if nb >= 4 {
        assert(c2 == 1 && r2 == 1);
    }
}

/// Return the tile every board starts from: a bare mountain.
fn closed_tile(_i: usize) -> (t: Tile)
    ensures
        t@ == blank_of(TileKind::Mountain),
{
    let t = Tile::new();
    proof {
        assert(t@ =~= blank_of(TileKind::Mountain));
    }
    t
}

} // verus!
