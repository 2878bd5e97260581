//! Conway's Game of Life on a bounded rectangular grid.
use vstd::prelude::*;

verus! {

/// Row offset of the `k`-th neighbour direction, scanning the 3x3 block row by row
/// and skipping its centre.
pub open spec fn offset_row(k: int) -> int {
    if k < 3 {
        -1
    } else if k < 5 {
        0
    } else {
        1
    }
}

/// Column offset of the `k`-th neighbour direction.
pub open spec fn offset_col(k: int) -> int {
    if k == 0 || k == 3 || k == 5 {
        -1
    } else if k == 1 || k == 6 {
        0
    } else {
        1
    }
}

/// The in-grid neighbours of `(row, col)` reached by the directions `k..8`, in order.
pub open spec fn neighbours_from(row: int, col: int, rows: int, cols: int, k: int) -> Seq<(usize, usize)>
    decreases 8 - k,
{
    if k >= 8 {
        seq![]
    } else {
        let r = row + offset_row(k);
        let c = col + offset_col(k);
        let rest = neighbours_from(row, col, rows, cols, k + 1);
        if 0 <= r < rows && 0 <= c < cols {
            seq![(r as usize, c as usize)] + rest
        } else {
            rest
        }
    }
}

/// Iterator over the in-grid neighbours of one cell.
pub struct SimpleIter {
    cur_row: usize,
    cur_col: usize,
    rows: usize,
    cols: usize,
    dim_idx: usize,
}

impl SimpleIter {
    /// The positions that this iterator has still to yield, in order.
    pub closed spec fn remaining(&self) -> Seq<(usize, usize)> {
        neighbours_from(
            self.cur_row as int,
            self.cur_col as int,
            self.rows as int,
            self.cols as int,
            self.dim_idx as int,
        )
    }

    pub closed spec fn rows(&self) -> nat {
        self.rows as nat
    }

    pub closed spec fn cols(&self) -> nat {
        self.cols as nat
    }

    fn new(row: usize, col: usize, rows: usize, cols: usize) -> (r: Self)
        ensures
            r.remaining() == neighbours_from(row as int, col as int, rows as int, cols as int, 0),
            r.rows() == rows,
            r.cols() == cols,
    {
        SimpleIter { cur_row: row, cur_col: col, rows, cols, dim_idx: 0 }
    }

    /// The neighbour in direction `k`, if it lies inside the grid.
    fn step_to(&self, k: usize) -> (r: Option<(usize, usize)>)
        requires
            k < 8,
        ensures
            ({
                let nr = self.cur_row + offset_row(k as int);
                let nc = self.cur_col + offset_col(k as int);
                if 0 <= nr < self.rows && 0 <= nc < self.cols {
                    r == Some((nr as usize, nc as usize))
                } else {
                    r is None
                }
            }),
    {
        let row_ok: bool;
        let nr: usize;
        if k < 3 {
            row_ok = self.cur_row >= 1 && self.cur_row - 1 < self.rows;
            nr = if self.cur_row >= 1 { self.cur_row - 1 } else { 0 };
        } else if k < 5 {
            row_ok = self.cur_row < self.rows;
            nr = self.cur_row;
        } else {
            row_ok = self.cur_row < usize::MAX && self.cur_row + 1 < self.rows;
            nr = if self.cur_row < usize::MAX { self.cur_row + 1 } else { 0 };
        }
        let col_ok: bool;
        let nc: usize;
        if k == 0 || k == 3 || k == 5 {
            col_ok = self.cur_col >= 1 && self.cur_col - 1 < self.cols;
            nc = if self.cur_col >= 1 { self.cur_col - 1 } else { 0 };
        } else if k == 1 || k == 6 {
            col_ok = self.cur_col < self.cols;
            nc = self.cur_col;
        } else {
            col_ok = self.cur_col < usize::MAX && self.cur_col + 1 < self.cols;
            nc = if self.cur_col < usize::MAX { self.cur_col + 1 } else { 0 };
        }
        if row_ok && col_ok {
            Some((nr, nc))
        } else {
            None
        }
    }

    /// Yields the next in-grid neighbour, or `None` once all eight directions are used.
    pub fn next(&mut self) -> (r: Option<(usize, usize)>)
        ensures
            final(self).rows() == old(self).rows(),
            final(self).cols() == old(self).cols(),
            old(self).remaining().len() == 0 ==> r is None && final(self).remaining().len() == 0,
            old(self).remaining().len() > 0 ==> r == Some(old(self).remaining()[0])
                && final(self).remaining() == old(self).remaining().drop_first(),
            r is Some ==> r.unwrap().0 < old(self).rows() && r.unwrap().1 < old(self).cols(),
    {
        while self.dim_idx < 8
            invariant
                self.cur_row == old(self).cur_row,
                self.cur_col == old(self).cur_col,
                self.rows == old(self).rows,
                self.cols == old(self).cols,
                self.remaining() == old(self).remaining(),
            decreases 8 - self.dim_idx,
        {
            let k = self.dim_idx;
            self.dim_idx = self.dim_idx + 1;
            let step = self.step_to(k);
            if let Some(p) = step {
                return Some(p);
            }
        }
        None
    }
}

/// A rectangular grid stored row by row.
#[derive(Clone, PartialEq, Eq)]
pub struct Grid<T> {
    rows: usize,
    cols: usize,
    grid: Vec<T>,
}

/// `r * cols + c` enumerates the cells of a `rows x cols` grid in row-major order.
proof fn lemma_row_major_before(r: int, c: int, i: int, j: int, cols: int)
    requires
        0 <= r,
        0 <= c,
        0 <= j,
        (r < i && c < cols) || (r == i && c < j),
    ensures
        r * cols + c < i * cols + j,
{
    if r < i {
        assert(r * cols + c < i * cols + j) by (nonlinear_arith)
            requires
                r < i,
                0 <= c < cols,
                0 <= j,
        ;
    }
}

proof fn lemma_row_major_bound(r: int, c: int, rows: int, cols: int)
    requires
        0 <= r < rows,
        0 <= c < cols,
    ensures
        r * cols + c < rows * cols,
{
    lemma_row_major_before(r, c, rows, 0, cols);
    assert(rows * cols + 0 == rows * cols);
}

impl<T: Copy + Default> Grid<T> {
    pub closed spec fn rows(&self) -> nat {
        self.rows as nat
    }

    pub closed spec fn cols(&self) -> nat {
        self.cols as nat
    }

    /// The cells, row after row.
    pub closed spec fn cells(&self) -> Seq<T> {
        self.grid@
    }

    /// Every cell of the grid is stored.
    pub open spec fn well_formed(&self) -> bool {
        self.cells().len() == self.rows() * self.cols()
    }

    pub open spec fn cell(&self, row: int, col: int) -> T {
        self.cells()[row * self.cols() + col]
    }

    /// A grid of `rows x cols` default cells.
    pub fn new(rows: usize, cols: usize) -> (r: Self)
        requires
            rows * cols <= usize::MAX,
        ensures
            r.rows() == rows,
            r.cols() == cols,
            r.well_formed(),
    {
        let total = rows * cols;
        let mut grid: Vec<T> = Vec::with_capacity(total);
        let mut k: usize = 0;
        while k < total
            invariant
                k <= total,
                grid.len() == k,
            decreases total - k,
        {
            grid.push(T::default());
            k = k + 1;
        }
        Grid { rows, cols, grid }
    }

    /// A grid whose cells are copied from `grid`, row after row.
    pub fn from_slice(grid: &[T], rows: usize, cols: usize) -> (r: Self)
        ensures
            r.rows() == rows,
            r.cols() == cols,
            r.cells() == grid@,
    {
        let mut cells: Vec<T> = Vec::new();
        let mut k: usize = 0;
        while k < grid.len()
            invariant
                k <= grid@.len(),
                cells@ == grid@.subrange(0, k as int),
            decreases grid@.len() - k,
        {
            cells.push(grid[k]);
            k = k + 1;
        }
        assert(grid@.subrange(0, grid@.len() as int) =~= grid@);
        Grid { rows, cols, grid: cells }
    }

    pub fn size(&self) -> (r: (usize, usize))
        ensures
            r.0 == self.rows(),
            r.1 == self.cols(),
    {
        (self.rows, self.cols)
    }

    pub fn get(&self, row: usize, col: usize) -> (r: &T)
        requires
            self.well_formed(),
            row < self.rows(),
            col < self.cols(),
        ensures
            *r == self.cell(row as int, col as int),
    {
        let n = self.grid.len();
        proof {
            lemma_row_major_bound(row as int, col as int, self.rows as int, self.cols as int);
        }
        &self.grid[row * self.cols + col]
    }

    pub fn set(&mut self, value: T, row: usize, col: usize)
        requires
            old(self).well_formed(),
            row < old(self).rows(),
            col < old(self).cols(),
        ensures
            final(self).rows() == old(self).rows(),
            final(self).cols() == old(self).cols(),
            final(self).cells() == old(self).cells().update(
                row * old(self).cols() + col,
                value,
            ),
    {
        let n = self.grid.len();
        proof {
            lemma_row_major_bound(row as int, col as int, self.rows as int, self.cols as int);
        }
        let idx = row * self.cols + col;
        self.grid.set(idx, value);
    }

    /// The in-grid neighbours of `(row, col)`.
    pub fn neighbours(&self, row: usize, col: usize) -> (r: SimpleIter)
        ensures
            r.remaining() == neighbours_from(
                row as int,
                col as int,
                self.rows() as int,
                self.cols() as int,
                0,
            ),
            r.rows() == self.rows(),
            r.cols() == self.cols(),
    {
        SimpleIter::new(row, col, self.rows, self.cols)
    }
}

#[derive(Clone, Copy, PartialEq, Eq, Structural)]
pub enum Cell {
    Dead,
    Alive,
}

impl Default for Cell {
    fn default() -> (r: Self)
        ensures
            r == Cell::Dead,
    {
        Cell::Dead
    }
}

/// How many of the listed positions hold a live cell.
pub open spec fn alive_count(g: Grid<Cell>, ps: Seq<(usize, usize)>) -> nat
    decreases ps.len(),
{
    if ps.len() == 0 {
        0
    } else {
        let here: nat = if g.cell(ps[0].0 as int, ps[0].1 as int) == Cell::Alive {
            1
        } else {
            0
        };
        here + alive_count(g, ps.drop_first())
    }
}

/// The number of live neighbours of `(row, col)`.
pub open spec fn live_neighbours(g: Grid<Cell>, row: int, col: int) -> nat {
    alive_count(g, neighbours_from(row, col, g.rows() as int, g.cols() as int, 0))
}

/// The rules of the game: a live cell survives with two or three live neighbours, a dead
/// cell comes alive with exactly three; every other cell is dead in the next generation.
pub open spec fn next_cell(current: Cell, live: nat) -> Cell {
    match current {
        Cell::Dead => if live == 3 {
            Cell::Alive
        } else {
            Cell::Dead
        },
        Cell::Alive => if live < 2 || live > 3 {
            Cell::Dead
        } else {
            Cell::Alive
        },
    }
}

/// The grid one generation after `g`.
pub open spec fn next_generation(g: Grid<Cell>, h: Grid<Cell>) -> bool {
    &&& h.rows() == g.rows()
    &&& h.cols() == g.cols()
    &&& h.well_formed()
    &&& forall|r: int, c: int|
        0 <= r < g.rows() && 0 <= c < g.cols() ==> #[trigger] h.cell(r, c) == next_cell(
            g.cell(r, c),
            live_neighbours(g, r, c),
        )
}

#[derive(PartialEq, Eq)]
pub struct GameOfLife {
    grid: Grid<Cell>,
}

impl GameOfLife {
    pub closed spec fn grid(&self) -> Grid<Cell> {
        self.grid
    }

    pub fn from_grid(grid: Grid<Cell>) -> (r: Self)
        ensures
            r.grid() == grid,
    {
        GameOfLife { grid }
    }

    pub fn get_grid(&self) -> (r: &Grid<Cell>)
        ensures
            *r == self.grid(),
    {
        &self.grid
    }

    /// Counts the live neighbours of `(row, col)`.
    fn count_live(&self, row: usize, col: usize) -> (r: usize)
        requires
            self.grid.well_formed(),
        ensures
            r == live_neighbours(self.grid, row as int, col as int),
    {
        let mut it = self.grid.neighbours(row, col);
        let ghost all = it.remaining();
        let mut count: usize = 0;
        proof {
            lemma_neighbours_len(row as int, col as int, self.grid.rows() as int, self.grid.cols() as int, 0);
        }
        loop
            invariant
                self.grid.well_formed(),
                it.rows() == self.grid.rows(),
                it.cols() == self.grid.cols(),
                count <= 8 - it.remaining().len(),
                it.remaining().len() <= 8,
                count + alive_count(self.grid, it.remaining()) == alive_count(self.grid, all),
                all == neighbours_from(
                    row as int,
                    col as int,
                    self.grid.rows() as int,
                    self.grid.cols() as int,
                    0,
                ),
            decreases it.remaining().len(),
        {
            match it.next() {
                Some(p) => {
                    if *self.grid.get(p.0, p.1) == Cell::Alive {
                        count = count + 1;
                    }
                },
                None => {
                    return count;
                },
            }
        }
    }

    /// Advances the game by one generation.
    pub fn step(&mut self)
        requires
            old(self).grid().well_formed(),
        ensures
            next_generation(old(self).grid(), final(self).grid()),
    {
        let rows = self.grid.rows;
        let cols = self.grid.cols;
        let mut cells: Vec<Cell> = Vec::new();
        let mut i: usize = 0;
        while i < rows
            invariant
                self.grid.well_formed(),
                rows == self.grid.rows(),
                cols == self.grid.cols(),
                i <= rows,
                cells.len() == i * cols,
                forall|r: int, c: int|
                    0 <= r < i && 0 <= c < cols ==> #[trigger] cells@[r * cols + c] == next_cell(
                        self.grid.cell(r, c),
                        live_neighbours(self.grid, r, c),
                    ),
            decreases rows - i,
        {
            let mut j: usize = 0;
            while j < cols
                invariant
                    self.grid.well_formed(),
                    rows == self.grid.rows(),
                    cols == self.grid.cols(),
                    i < rows,
                    j <= cols,
                    cells.len() == i * cols + j,
                    forall|r: int, c: int|
                        (0 <= r < i && 0 <= c < cols) || (r == i && 0 <= c < j)
                            ==> #[trigger] cells@[r * cols + c] == next_cell(
                            self.grid.cell(r, c),
                            live_neighbours(self.grid, r, c),
                        ),
                decreases cols - j,
            {
                let live = self.count_live(i, j);
                let cur = *self.grid.get(i, j);
                let next = match cur {
                    Cell::Dead => if live == 3 {
                        Cell::Alive
                    } else {
                        Cell::Dead
                    },
                    Cell::Alive => if live < 2 || live > 3 {
                        Cell::Dead
                    } else {
                        Cell::Alive
                    },
                };
                proof {
                    lemma_row_major_bound(i as int, j as int, rows as int, cols as int);
                }
                let ghost before = cells@;
                cells.push(next);
                proof {
                    assert forall|r: int, c: int|
                        (0 <= r < i && 0 <= c < cols) || (r == i && 0 <= c < j + 1)
                            implies #[trigger] cells@[r * cols + c] == next_cell(
                            self.grid.cell(r, c),
                            live_neighbours(self.grid, r, c),
                        ) by {
                        if r == i && c == j {
                        } else {
                            lemma_row_major_before(r, c, i as int, j as int, cols as int);
                            assert(cells@[r * cols + c] == before[r * cols + c]);
                        }
                    }
                }
                j = j + 1;
            }
            proof {
                assert(i * cols + cols == (i + 1) * cols) by (nonlinear_arith);
            }
            i = i + 1;
        }
        self.grid = Grid { rows, cols, grid: cells };
    }
}

/// At most eight directions are examined.
proof fn lemma_neighbours_len(row: int, col: int, rows: int, cols: int, k: int)
    requires
        0 <= k <= 8,
    ensures
        neighbours_from(row, col, rows, cols, k).len() <= 8 - k,
    decreases 8 - k,
{
    if k < 8 {
        lemma_neighbours_len(row, col, rows, cols, k + 1);
    }
}

} // verus!
