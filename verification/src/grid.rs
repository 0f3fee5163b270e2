//! A rectangular, row-major grid: index arithmetic, 4- and 8-neighborhood
//! queries, and Manhattan distance.

use vstd::prelude::*;
use vstd::arithmetic::div_mod::{lemma_fundamental_div_mod, lemma_fundamental_div_mod_converse};

verus! {

/// Whether `i` indexes a cell of a `width` by `height` grid.
pub open spec fn grid_valid_index(width: int, height: int, i: int) -> bool {
    0 <= i < width * height
}

/// The column of index `i` in a grid of the given width.
pub open spec fn grid_col(width: int, i: int) -> int {
    i % width
}

/// The row of index `i` in a grid of the given width.
pub open spec fn grid_row(width: int, i: int) -> int {
    i / width
}

/// The index of the cell at the given column and row.
pub open spec fn grid_index(width: int, col: int, row: int) -> int {
    col + row * width
}

/// The difference `a - b` without sign.
pub open spec fn dist(a: int, b: int) -> int {
    if a <= b { b - a } else { a - b }
}

/// The Manhattan distance between the cells at `i1` and `i2`.
pub open spec fn grid_manhattan(width: int, i1: int, i2: int) -> int {
    dist(grid_col(width, i1), grid_col(width, i2)) + dist(grid_row(width, i1), grid_row(width, i2))
}

/// Whether `j` is one of the up to four cells sharing an edge with `i`.
pub open spec fn direct_adjacent(width: int, height: int, i: int, j: int) -> bool {
    &&& grid_valid_index(width, height, i)
    &&& grid_valid_index(width, height, j)
    &&& dist(grid_col(width, i), grid_col(width, j)) + dist(grid_row(width, i), grid_row(width, j))
        == 1
}

/// Whether `j` is one of the up to eight cells surrounding `i`.
pub open spec fn ext_adjacent(width: int, height: int, i: int, j: int) -> bool {
    &&& grid_valid_index(width, height, i)
    &&& grid_valid_index(width, height, j)
    &&& i != j
    &&& dist(grid_col(width, i), grid_col(width, j)) <= 1
    &&& dist(grid_row(width, i), grid_row(width, j)) <= 1
}

/// The neighbor of `i` one row up, where there is one.
pub open spec fn spec_up(width: int, height: int, i: int) -> Option<int> {
    if !grid_valid_index(width, height, i) || grid_row(width, i) == 0 {
        None
    } else {
        Some(grid_index(width, grid_col(width, i), grid_row(width, i) - 1))
    }
}

/// The neighbor of `i` one row down, where there is one.
pub open spec fn spec_down(width: int, height: int, i: int) -> Option<int> {
    if !grid_valid_index(width, height, i) || grid_row(width, i) == height - 1 {
        None
    } else {
        Some(grid_index(width, grid_col(width, i), grid_row(width, i) + 1))
    }
}

/// The neighbor of `i` one column to the left, where there is one.
pub open spec fn spec_left(width: int, height: int, i: int) -> Option<int> {
    if !grid_valid_index(width, height, i) || grid_col(width, i) == 0 {
        None
    } else {
        Some(grid_index(width, grid_col(width, i) - 1, grid_row(width, i)))
    }
}

/// The neighbor of `i` one column to the right, where there is one.
pub open spec fn spec_right(width: int, height: int, i: int) -> Option<int> {
    if !grid_valid_index(width, height, i) || grid_col(width, i) == width - 1 {
        None
    } else {
        Some(grid_index(width, grid_col(width, i) + 1, grid_row(width, i)))
    }
}

/// The neighbor of `i` diagonally up and left, where there is one.
pub open spec fn spec_up_left(width: int, height: int, i: int) -> Option<int> {
    if !grid_valid_index(width, height, i) || grid_col(width, i) == 0 || grid_row(width, i) == 0 {
        None
    } else {
        Some(grid_index(width, grid_col(width, i) - 1, grid_row(width, i) - 1))
    }
}

/// The neighbor of `i` diagonally up and right, where there is one.
pub open spec fn spec_up_right(width: int, height: int, i: int) -> Option<int> {
    if !grid_valid_index(width, height, i) || grid_col(width, i) == width - 1 || grid_row(width, i)
        == 0 {
        None
    } else {
        Some(grid_index(width, grid_col(width, i) + 1, grid_row(width, i) - 1))
    }
}

/// The neighbor of `i` diagonally down and left, where there is one.
pub open spec fn spec_down_left(width: int, height: int, i: int) -> Option<int> {
    if !grid_valid_index(width, height, i) || grid_col(width, i) == 0 || grid_row(width, i)
        == height - 1 {
        None
    } else {
        Some(grid_index(width, grid_col(width, i) - 1, grid_row(width, i) + 1))
    }
}

/// The neighbor of `i` diagonally down and right, where there is one.
pub open spec fn spec_down_right(width: int, height: int, i: int) -> Option<int> {
    if !grid_valid_index(width, height, i) || grid_col(width, i) == width - 1 || grid_row(width, i)
        == height - 1 {
        None
    } else {
        Some(grid_index(width, grid_col(width, i) + 1, grid_row(width, i) + 1))
    }
}

/// A value standing for a neighbor option, as a sequence: empty when there
/// is no neighbor on that side.
pub open spec fn opt_seq(o: Option<int>) -> Seq<int> {
    match o {
        Some(x) => seq![x],
        None => Seq::empty(),
    }
}

/// The direct neighbors of `i`, in the fixed order up, left, right, down.
pub open spec fn spec_direct_neighbors(width: int, height: int, i: int) -> Seq<int> {
    opt_seq(spec_up(width, height, i)) + opt_seq(spec_left(width, height, i)) + opt_seq(
        spec_right(width, height, i),
    ) + opt_seq(spec_down(width, height, i))
}

/// The extended neighbors of `i`, in the fixed order up-left, up, up-right,
/// left, right, down-left, down, down-right.
pub open spec fn spec_extended_neighbors(width: int, height: int, i: int) -> Seq<int> {
    opt_seq(spec_up_left(width, height, i)) + opt_seq(spec_up(width, height, i)) + opt_seq(
        spec_up_right(width, height, i),
    ) + opt_seq(spec_left(width, height, i)) + opt_seq(spec_right(width, height, i)) + opt_seq(
        spec_down_left(width, height, i),
    ) + opt_seq(spec_down(width, height, i)) + opt_seq(spec_down_right(width, height, i))
}

/// A grid with a valid index has at least one column and one row.
pub proof fn lemma_nonempty(width: int, height: int, i: int)
    requires
        width >= 0,
        height >= 0,
        grid_valid_index(width, height, i),
    ensures
        width > 0,
        height > 0,
{
    assert(width > 0 && height > 0) by (nonlinear_arith)
        requires width >= 0 && height >= 0 && 0 <= i < width * height;
}

/// A valid index splits into a column below `width` and a row below
/// `height`, and is recovered from them.
pub proof fn lemma_col_row(width: int, height: int, i: int)
    requires
        width > 0,
        grid_valid_index(width, height, i),
    ensures
        0 <= grid_col(width, i) < width,
        0 <= grid_row(width, i) < height,
        grid_index(width, grid_col(width, i), grid_row(width, i)) == i,
{
    lemma_fundamental_div_mod(i, width);
    assert(0 <= i % width < width) by (nonlinear_arith)
        requires width > 0 && i >= 0;
    assert(i / width >= 0) by (nonlinear_arith)
        requires width > 0 && i >= 0;
    assert(i / width < height) by (nonlinear_arith)
        requires
            width > 0,
            i < width * height,
            i == width * (i / width) + i % width,
            0 <= i % width,
    ;
    assert(width * (i / width) == (i / width) * width) by (nonlinear_arith);
}

/// The index of a cell given by column and row is valid, and yields back
/// that column and row.
pub proof fn lemma_index_of(width: int, height: int, col: int, row: int)
    requires
        width > 0,
        0 <= col < width,
        0 <= row < height,
    ensures
        grid_valid_index(width, height, grid_index(width, col, row)),
        grid_col(width, grid_index(width, col, row)) == col,
        grid_row(width, grid_index(width, col, row)) == row,
{
    lemma_fundamental_div_mod_converse(col + row * width, width, row, col);
    assert(col + row * width < width * height) by (nonlinear_arith)
        requires width > 0 && 0 <= col < width && 0 <= row < height;
    assert(col + row * width >= 0) by (nonlinear_arith)
        requires width > 0 && 0 <= col && 0 <= row;
}

/// The cells surrounding `i` are exactly those listed by
/// `spec_extended_neighbors`.
pub proof fn lemma_extended_neighbors_iff(width: int, height: int, i: int, j: int)
    requires
        width > 0,
        grid_valid_index(width, height, i),
    ensures
        spec_extended_neighbors(width, height, i).contains(j) <==> ext_adjacent(
            width,
            height,
            i,
            j,
        ),
{
    broadcast use vstd::seq_lib::group_seq_properties;

    lemma_col_row(width, height, i);
    let c = grid_col(width, i);
    let r = grid_row(width, i);
    if c >= 1 {
        lemma_index_of(width, height, c - 1, r);
    }
    if c + 1 < width {
        lemma_index_of(width, height, c + 1, r);
    }
    if r >= 1 {
        lemma_index_of(width, height, c, r - 1);
        if c >= 1 {
            lemma_index_of(width, height, c - 1, r - 1);
        }
        if c + 1 < width {
            lemma_index_of(width, height, c + 1, r - 1);
        }
    }
    if r + 1 < height {
        lemma_index_of(width, height, c, r + 1);
        if c >= 1 {
            lemma_index_of(width, height, c - 1, r + 1);
        }
        if c + 1 < width {
            lemma_index_of(width, height, c + 1, r + 1);
        }
    }
    if ext_adjacent(width, height, i, j) {
        lemma_col_row(width, height, j);
        assert(j == grid_index(width, grid_col(width, j), grid_row(width, j)));
        assert(spec_extended_neighbors(width, height, i).contains(j));
    }
    if spec_extended_neighbors(width, height, i).contains(j) {
        assert(ext_adjacent(width, height, i, j));
    }
}

/// The cells sharing an edge with `i` are exactly those listed by
/// `spec_direct_neighbors`.
pub proof fn lemma_direct_neighbors_iff(width: int, height: int, i: int, j: int)
    requires
        width > 0,
        grid_valid_index(width, height, i),
    ensures
        spec_direct_neighbors(width, height, i).contains(j) <==> direct_adjacent(
            width,
            height,
            i,
            j,
        ),
{
    broadcast use vstd::seq_lib::group_seq_properties;

    lemma_col_row(width, height, i);
    let c = grid_col(width, i);
    let r = grid_row(width, i);
    if c >= 1 {
        lemma_index_of(width, height, c - 1, r);
    }
    if c + 1 < width {
        lemma_index_of(width, height, c + 1, r);
    }
    if r >= 1 {
        lemma_index_of(width, height, c, r - 1);
    }
    if r + 1 < height {
        lemma_index_of(width, height, c, r + 1);
    }
    if direct_adjacent(width, height, i, j) {
        lemma_col_row(width, height, j);
        assert(j == grid_index(width, grid_col(width, j), grid_row(width, j)));
        assert(spec_direct_neighbors(width, height, i).contains(j));
    }
    if spec_direct_neighbors(width, height, i).contains(j) {
        assert(direct_adjacent(width, height, i, j));
    }
}

/// A cardinal neighbor answer, when it exists, names a distinct valid cell
/// sharing an edge with `i`, which is in particular one of its surrounding
/// cells.
pub proof fn lemma_cardinal_neighbor(width: int, height: int, i: int)
    requires
        width > 0,
    ensures
        spec_up(width, height, i) matches Some(j) ==> direct_adjacent(width, height, i, j)
            && ext_adjacent(width, height, i, j),
        spec_down(width, height, i) matches Some(j) ==> direct_adjacent(width, height, i, j)
            && ext_adjacent(width, height, i, j),
        spec_left(width, height, i) matches Some(j) ==> direct_adjacent(width, height, i, j)
            && ext_adjacent(width, height, i, j),
        spec_right(width, height, i) matches Some(j) ==> direct_adjacent(width, height, i, j)
            && ext_adjacent(width, height, i, j),
{
    if grid_valid_index(width, height, i) {
        lemma_col_row(width, height, i);
        let c = grid_col(width, i);
        let r = grid_row(width, i);
        if c >= 1 {
            lemma_index_of(width, height, c - 1, r);
        }
        if c + 1 < width {
            lemma_index_of(width, height, c + 1, r);
        }
        if r >= 1 {
            lemma_index_of(width, height, c, r - 1);
        }
        if r + 1 < height {
            lemma_index_of(width, height, c, r + 1);
        }
    }
}

/// A row-major grid of cells of type `T`.
#[derive(Debug)]
pub struct Grid<T> {
    tiles: Vec<T>,
    width: usize,
    height: usize,
}

impl<T> Grid<T> {
    /// The cells of the grid, in row-major order.
    pub closed spec fn spec_tiles(self) -> Seq<T> {
        self.tiles@
    }

    /// The number of cells in a row.
    pub closed spec fn spec_width(self) -> int {
        self.width as int
    }

    /// The number of cells in a column.
    pub closed spec fn spec_height(self) -> int {
        self.height as int
    }

    /// The grid holds exactly one cell per coordinate pair.
    pub open spec fn wf(self) -> bool {
        self.spec_tiles().len() == self.spec_width() * self.spec_height()
    }

    /// Grid dimensions are counts: never negative.
    pub proof fn lemma_dims(self)
        ensures
            self.spec_width() >= 0,
            self.spec_height() >= 0,
    {
    }

    /// Whether `i` indexes a cell of this grid.
    pub open spec fn spec_valid_index(self, i: int) -> bool {
        grid_valid_index(self.spec_width(), self.spec_height(), i)
    }

    /// Return a new grid of the given dimensions whose cell at each index
    /// holds what `factory` returns for it.
    pub fn new<F: Fn(usize) -> T>(factory: F, width: usize, height: usize) -> (g: Grid<T>)
        requires
            width * height <= usize::MAX,
            forall|i: usize| i < width * height ==> call_requires(factory, (i,)),
        ensures
            g.wf(),
            g.spec_width() == width,
            g.spec_height() == height,
            forall|i: usize|
                i < width * height ==> call_ensures(factory, (i,), #[trigger] g.spec_tiles()[i as int]),
    {
        let nb_tiles = width * height;
        let mut tiles: Vec<T> = Vec::new();
        let mut i: usize = 0;
        while i < nb_tiles
            invariant
                i <= nb_tiles,
                nb_tiles == width * height <= usize::MAX,
                tiles@.len() == i,
                forall|k: usize| k < i ==> call_requires(factory, (k,)),
                forall|k: usize| i <= k < nb_tiles ==> call_requires(factory, (k,)),
                forall|k: usize| k < i ==> call_ensures(factory, (k,), #[trigger] tiles@[k as int]),
            decreases nb_tiles - i,
        {
            let t = factory(i);
            tiles.push(t);
            i += 1;
        }
        Grid { tiles, width, height }
    }

    /// Return the Manhattan distance between the cells at `i1` and `i2`.
    pub fn manhattan_distance(&self, i1: usize, i2: usize) -> (d: usize)
        requires
            self.wf(),
            self.spec_width() > 0,
            self.spec_valid_index(i1 as int),
            self.spec_valid_index(i2 as int),
        ensures
            d == grid_manhattan(self.spec_width(), i1 as int, i2 as int),
    {
        let total = self.tiles.len();
        proof {
            lemma_col_row(self.spec_width(), self.spec_height(), i1 as int);
            lemma_col_row(self.spec_width(), self.spec_height(), i2 as int);
            assert((self.spec_width() - 1) + (self.spec_height() - 1) <= self.spec_width()
                * self.spec_height() - 1) by (nonlinear_arith)
                requires self.spec_width() >= 1 && self.spec_height() >= 1;
        }
        let (c1, l1) = self.coordinates(i1);
        let (c2, l2) = self.coordinates(i2);
        let x = if c1 <= c2 { c2 - c1 } else { c1 - c2 };
        let y = if l1 <= l2 { l2 - l1 } else { l1 - l2 };
        x + y
    }

    /// Return all the cells, in row-major order.
    pub fn tiles(&self) -> (r: &[T])
        ensures
            r@ == self.spec_tiles(),
    {
        self.tiles.as_slice()
    }

    /// Return a reference to the cell at the given index.
    pub fn get(&self, index: usize) -> (r: &T)
        requires
            self.wf(),
            self.spec_valid_index(index as int),
        ensures
            *r == self.spec_tiles()[index as int],
    {
        &self.tiles[index]
    }

    /// Return a mutable reference to the cell at the given index.
    pub fn get_mut(&mut self, index: usize) -> (r: &mut T)
        requires
            old(self).wf(),
            old(self).spec_valid_index(index as int),
        ensures
            *r == old(self).spec_tiles()[index as int],
            final(self).spec_tiles() == old(self).spec_tiles().update(index as int, *final(r)),
            final(self).spec_width() == old(self).spec_width(),
            final(self).spec_height() == old(self).spec_height(),
            final(self).wf(),
    {
        &mut self.tiles[index]
    }

    /// Replace the cell at the given index, returning the cell it held.
    pub fn replace(&mut self, index: usize, cell: T) -> (r: T)
        requires
            old(self).wf(),
            old(self).spec_valid_index(index as int),
        ensures
            r == old(self).spec_tiles()[index as int],
            final(self).spec_tiles() == old(self).spec_tiles().update(index as int, cell),
            final(self).spec_width() == old(self).spec_width(),
            final(self).spec_height() == old(self).spec_height(),
            final(self).wf(),
    {
        let mut cell = cell;
        self.tiles.set_and_swap(index, &mut cell);
        cell
    }

    /// The index of the cell at the given column and row.
    fn index(&self, column: usize, line: usize) -> (r: usize)
        requires
            self.wf(),
            0 <= column < self.spec_width(),
            0 <= line < self.spec_height(),
        ensures
            r == grid_index(self.spec_width(), column as int, line as int),
            self.spec_valid_index(r as int),
    {
        let total = self.tiles.len();
        proof {
            lemma_index_of(self.spec_width(), self.spec_height(), column as int, line as int);
            assert(column + line * self.spec_width() < total);
        }
        column + line * self.width
    }

    /// Return whether `i` indexes a cell of this grid.
    pub fn is_valid_index(&self, i: usize) -> (r: bool)
        requires
            self.wf(),
        ensures
            r == self.spec_valid_index(i as int),
    {
        i < self.tiles.len()
    }

    /// Return the column and row of the cell at `i`.
    fn coordinates(&self, i: usize) -> (r: (usize, usize))
        requires
            self.wf(),
            self.spec_width() > 0,
            self.spec_valid_index(i as int),
        ensures
            r.0 == grid_col(self.spec_width(), i as int),
            r.1 == grid_row(self.spec_width(), i as int),
            0 <= r.0 < self.spec_width(),
            0 <= r.1 < self.spec_height(),
    {
        proof {
            lemma_col_row(self.spec_width(), self.spec_height(), i as int);
        }
        (self.column(i), self.line(i))
    }

    /// Return the column of the cell at `i`.
    fn column(&self, i: usize) -> (r: usize)
        requires
            self.spec_width() > 0,
        ensures
            r == grid_col(self.spec_width(), i as int),
    {
        i % self.width
    }

    /// Return the row of the cell at `i`.
    fn line(&self, i: usize) -> (r: usize)
        requires
            self.spec_width() > 0,
        ensures
            r == grid_row(self.spec_width(), i as int),
    {
        i / self.width
    }

    /// Return the index of the neighbor diagonally up and left of `i`, if
    /// there is one.
    pub fn up_left(&self, index: usize) -> (r: Option<usize>)
        requires
            self.wf(),
        ensures
            opt_matches(r, spec_up_left(self.spec_width(), self.spec_height(), index as int)),
    {
        if !self.is_valid_index(index) {
            return None;
        }
        proof {
            lemma_nonempty(self.spec_width(), self.spec_height(), index as int);
        }
        let (column, line) = self.coordinates(index);
        if column == 0 || line == 0 {
            return None;
        }
        Some(self.index(column - 1, line - 1))
    }

    /// Return the index of the neighbor directly above `i`, if there is one.
    pub fn up(&self, index: usize) -> (r: Option<usize>)
        requires
            self.wf(),
        ensures
            opt_matches(r, spec_up(self.spec_width(), self.spec_height(), index as int)),
    {
        if !self.is_valid_index(index) {
            return None;
        }
        proof {
            lemma_nonempty(self.spec_width(), self.spec_height(), index as int);
        }
        let (column, line) = self.coordinates(index);
        if line == 0 {
            return None;
        }
        Some(self.index(column, line - 1))
    }

    /// Return the index of the neighbor diagonally up and right of `i`, if
    /// there is one.
    pub fn up_right(&self, index: usize) -> (r: Option<usize>)
        requires
            self.wf(),
        ensures
            opt_matches(r, spec_up_right(self.spec_width(), self.spec_height(), index as int)),
    {
        if !self.is_valid_index(index) {
            return None;
        }
        proof {
            lemma_nonempty(self.spec_width(), self.spec_height(), index as int);
        }
        let (column, line) = self.coordinates(index);
        if column == self.width - 1 || line == 0 {
            return None;
        }
        Some(self.index(column + 1, line - 1))
    }

    /// Return the index of the neighbor to the left of `i`, if there is one.
    pub fn left(&self, index: usize) -> (r: Option<usize>)
        requires
            self.wf(),
        ensures
            opt_matches(r, spec_left(self.spec_width(), self.spec_height(), index as int)),
    {
        if !self.is_valid_index(index) {
            return None;
        }
        proof {
            lemma_nonempty(self.spec_width(), self.spec_height(), index as int);
        }
        let (column, line) = self.coordinates(index);
        if column == 0 {
            return None;
        }
        Some(self.index(column - 1, line))
    }

    /// Return the index of the neighbor to the right of `i`, if there is
    /// one.
    pub fn right(&self, index: usize) -> (r: Option<usize>)
        requires
            self.wf(),
        ensures
            opt_matches(r, spec_right(self.spec_width(), self.spec_height(), index as int)),
    {
        if !self.is_valid_index(index) {
            return None;
        }
        proof {
            lemma_nonempty(self.spec_width(), self.spec_height(), index as int);
        }
        let (column, line) = self.coordinates(index);
        if column == self.width - 1 {
            return None;
        }
        Some(self.index(column + 1, line))
    }

    /// Return the index of the neighbor diagonally down and left of `i`, if
    /// there is one.
    pub fn down_left(&self, index: usize) -> (r: Option<usize>)
        requires
            self.wf(),
        ensures
            opt_matches(r, spec_down_left(self.spec_width(), self.spec_height(), index as int)),
    {
        if !self.is_valid_index(index) {
            return None;
        }
        proof {
            lemma_nonempty(self.spec_width(), self.spec_height(), index as int);
        }
        let (column, line) = self.coordinates(index);
        if column == 0 || line == self.height - 1 {
            return None;
        }
        Some(self.index(column - 1, line + 1))
    }

    /// Return the index of the neighbor directly below `i`, if there is one.
    pub fn down(&self, index: usize) -> (r: Option<usize>)
        requires
            self.wf(),
        ensures
            opt_matches(r, spec_down(self.spec_width(), self.spec_height(), index as int)),
    {
        if !self.is_valid_index(index) {
            return None;
        }
        proof {
            lemma_nonempty(self.spec_width(), self.spec_height(), index as int);
        }
        let (column, line) = self.coordinates(index);
        if line == self.height - 1 {
            return None;
        }
        Some(self.index(column, line + 1))
    }

    /// Return the index of the neighbor diagonally down and right of `i`, if
    /// there is one.
    pub fn down_right(&self, index: usize) -> (r: Option<usize>)
        requires
            self.wf(),
        ensures
            opt_matches(r, spec_down_right(self.spec_width(), self.spec_height(), index as int)),
    {
        if !self.is_valid_index(index) {
            return None;
        }
        proof {
            lemma_nonempty(self.spec_width(), self.spec_height(), index as int);
        }
        let (column, line) = self.coordinates(index);
        if column == self.width - 1 || line == self.height - 1 {
            return None;
        }
        Some(self.index(column + 1, line + 1))
    }

    /// Return the number of cells in a row.
    pub fn width(&self) -> (r: usize)
        ensures
            r == self.spec_width(),
    {
        self.width
    }

    /// Return the number of cells in a column.
    pub fn height(&self) -> (r: usize)
        ensures
            r == self.spec_height(),
    {
        self.height
    }

    /// Return the number of cells.
    pub fn len(&self) -> (r: usize)
        requires
            self.wf(),
        ensures
            r == self.spec_width() * self.spec_height(),
    {
        self.tiles.len()
    }

    /// Return whether the grid has no cell.
    pub fn is_empty(&self) -> (r: bool)
        requires
            self.wf(),
        ensures
            r == (self.spec_width() * self.spec_height() == 0),
    {
        self.tiles.len() == 0
    }

    /// Return the indices of the cells sharing an edge with `i`, in the
    /// fixed order up, left, right, down.
    pub fn direct_neighbors(&self, index: usize) -> (r: Vec<usize>)
        requires
            self.wf(),
        ensures
            seq_as_int(r@) == spec_direct_neighbors(
                self.spec_width(),
                self.spec_height(),
                index as int,
            ),
            forall|j: int|
                (exists|k: int| 0 <= k < r@.len() && r@[k] == j) <==> direct_adjacent(
                    self.spec_width(),
                    self.spec_height(),
                    index as int,
                    j,
                ),
            forall|k: int| 0 <= k < r@.len() ==> self.spec_valid_index(#[trigger] r@[k] as int),
    {
        let mut r: Vec<usize> = Vec::new();
        if let Some(n) = self.up(index) {
            r.push(n);
        }
        if let Some(n) = self.left(index) {
            r.push(n);
        }
        if let Some(n) = self.right(index) {
            r.push(n);
        }
        if let Some(n) = self.down(index) {
            r.push(n);
        }
        proof {
            let w = self.spec_width();
            let h = self.spec_height();
            assert(seq_as_int(r@) =~= spec_direct_neighbors(w, h, index as int));
            if grid_valid_index(w, h, index as int) {
                lemma_nonempty(w, h, index as int);
                assert forall|j: int|
                    (exists|k: int| 0 <= k < r@.len() && r@[k] == j) <==> direct_adjacent(
                        w,
                        h,
                        index as int,
                        j,
                    ) by {
                    lemma_direct_neighbors_iff(w, h, index as int, j);
                    if spec_direct_neighbors(w, h, index as int).contains(j) {
                        let k = choose|k: int|
                            0 <= k < seq_as_int(r@).len() && seq_as_int(r@)[k] == j;
                        assert(seq_as_int(r@)[k] == r@[k] as int);
                        assert(r@[k] == j);
                    }
                    if exists|k: int| 0 <= k < r@.len() && r@[k] == j {
                        let k = choose|k: int| 0 <= k < r@.len() && r@[k] == j;
                        assert(seq_as_int(r@)[k] == r@[k] as int);
                        assert(spec_direct_neighbors(w, h, index as int).contains(j));
                    }
                }
                assert forall|k: int| 0 <= k < r@.len() implies self.spec_valid_index(
                    #[trigger] r@[k] as int,
                ) by {
                    assert(seq_as_int(r@)[k] == r@[k] as int);
                    assert(spec_direct_neighbors(w, h, index as int).contains(r@[k] as int));
                    lemma_direct_neighbors_iff(w, h, index as int, r@[k] as int);
                }
            }
        }
        r
    }

    /// Return the indices of the up to eight cells surrounding `i`, in the
    /// fixed order up-left, up, up-right, left, right, down-left, down,
    /// down-right.
    pub fn extended_neighbors(&self, index: usize) -> (r: Vec<usize>)
        requires
            self.wf(),
        ensures
            seq_as_int(r@) == spec_extended_neighbors(
                self.spec_width(),
                self.spec_height(),
                index as int,
            ),
            forall|j: int|
                (exists|k: int| 0 <= k < r@.len() && r@[k] == j) <==> ext_adjacent(
                    self.spec_width(),
                    self.spec_height(),
                    index as int,
                    j,
                ),
            forall|k: int| 0 <= k < r@.len() ==> self.spec_valid_index(#[trigger] r@[k] as int),
    {
        let mut r: Vec<usize> = Vec::new();
        if let Some(n) = self.up_left(index) {
            r.push(n);
        }
        if let Some(n) = self.up(index) {
            r.push(n);
        }
        if let Some(n) = self.up_right(index) {
            r.push(n);
        }
        if let Some(n) = self.left(index) {
            r.push(n);
        }
        if let Some(n) = self.right(index) {
            r.push(n);
        }
        if let Some(n) = self.down_left(index) {
            r.push(n);
        }
        if let Some(n) = self.down(index) {
            r.push(n);
        }
        if let Some(n) = self.down_right(index) {
            r.push(n);
        }
        proof {
            let w = self.spec_width();
            let h = self.spec_height();
            assert(seq_as_int(r@) =~= spec_extended_neighbors(w, h, index as int));
            if grid_valid_index(w, h, index as int) {
                lemma_nonempty(w, h, index as int);
                assert forall|j: int|
                    (exists|k: int| 0 <= k < r@.len() && r@[k] == j) <==> ext_adjacent(
                        w,
                        h,
                        index as int,
                        j,
                    ) by {
                    lemma_extended_neighbors_iff(w, h, index as int, j);
                    if spec_extended_neighbors(w, h, index as int).contains(j) {
                        let k = choose|k: int|
                            0 <= k < seq_as_int(r@).len() && seq_as_int(r@)[k] == j;
                        assert(seq_as_int(r@)[k] == r@[k] as int);
                        assert(r@[k] == j);
                    }
                    if exists|k: int| 0 <= k < r@.len() && r@[k] == j {
                        let k = choose|k: int| 0 <= k < r@.len() && r@[k] == j;
                        assert(seq_as_int(r@)[k] == r@[k] as int);
                        assert(spec_extended_neighbors(w, h, index as int).contains(j));
                    }
                }
                assert forall|k: int| 0 <= k < r@.len() implies self.spec_valid_index(
                    #[trigger] r@[k] as int,
                ) by {
                    assert(seq_as_int(r@)[k] == r@[k] as int);
                    assert(spec_extended_neighbors(w, h, index as int).contains(r@[k] as int));
                    lemma_extended_neighbors_iff(w, h, index as int, r@[k] as int);
                }
            }
        }
        r
    }
}

/// Whether an executable neighbor answer carries the same value as its
/// model.
pub open spec fn opt_matches(r: Option<usize>, s: Option<int>) -> bool {
    match r {
        Some(x) => s == Some(x as int),
        None => s is None,
    }
}

/// The sequence of indices, as unbounded integers.
pub open spec fn seq_as_int(s: Seq<usize>) -> Seq<int> {
    s.map_values(|x: usize| x as int)
}

} // verus!
