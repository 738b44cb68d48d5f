//! The mathematical model of a universe: a torus of cells, the neighbour
//! count, the transition rule and the generation step, and what stamping,
//! toggling and clearing mean. Nothing here is executable; the contracts
//! of the executable universe are stated over this model.

use vstd::arithmetic::div_mod::*;
use vstd::arithmetic::mul::*;
use vstd::prelude::*;

verus! {

/// A generation: the dimensions and one boolean per cell in row-major order,
/// so the cell at `(row, col)` sits at `row * width + col`.
pub struct Grid {
    pub width: nat,
    pub height: nat,
    pub cells: Seq<bool>,
}

/// 1 for a live cell, 0 for a dead one.
pub open spec fn one_if(alive: bool) -> nat {
    if alive {
        1
    } else {
        0
    }
}

/// The transition rule: a cell is alive in the next generation exactly when
/// it has three live neighbours, or is alive now and has two.
pub open spec fn survives(alive: bool, live_neighbors: nat) -> bool {
    live_neighbors == 3 || (alive && live_neighbors == 2)
}

/// The glyph that stands for a cell in text: a hollow square for a live
/// cell, a filled one for a dead cell.
pub open spec fn glyph(alive: bool) -> char {
    if alive {
        '◻'
    } else {
        '◼'
    }
}

impl Grid {
    /// There is exactly one entry per cell.
    pub open spec fn wf(self) -> bool {
        self.cells.len() == self.width * self.height
    }

    /// Whether the grid has any cell at all.
    pub open spec fn inhabited(self) -> bool {
        self.width > 0 && self.height > 0
    }

    /// Whether `(row, col)` names a cell without wrapping.
    pub open spec fn in_range(self, row: int, col: int) -> bool {
        0 <= row < self.height && 0 <= col < self.width
    }

    /// The row on the torus that `row` wraps to.
    pub open spec fn wrap_row(self, row: int) -> int {
        row % (self.height as int)
    }

    /// The column on the torus that `col` wraps to.
    pub open spec fn wrap_col(self, col: int) -> int {
        col % (self.width as int)
    }

    /// The place of an in-range cell in `cells`.
    pub open spec fn index(self, row: int, col: int) -> int {
        row * self.width + col
    }

    /// The state of an in-range cell.
    pub open spec fn at(self, row: int, col: int) -> bool {
        self.cells[self.index(row, col)]
    }

    /// The state of the cell that `(row, col)` names on the torus: any pair
    /// of integers names a cell, rows wrapping modulo the height and columns
    /// modulo the width. A grid without cells has no live cell.
    pub open spec fn alive(self, row: int, col: int) -> bool {
        self.inhabited() && self.at(self.wrap_row(row), self.wrap_col(col))
    }

    /// How many of the eight cells around `(row, col)` are alive. Each of the
    /// eight offsets counts on its own, also where the torus is so small
    /// that two of them name the same cell.
    pub open spec fn neighbors(self, row: int, col: int) -> nat {
        one_if(self.alive(row - 1, col - 1)) + one_if(self.alive(row - 1, col)) + one_if(
            self.alive(row - 1, col + 1),
        ) + one_if(self.alive(row, col - 1)) + one_if(self.alive(row, col + 1)) + one_if(
            self.alive(row + 1, col - 1),
        ) + one_if(self.alive(row + 1, col)) + one_if(self.alive(row + 1, col + 1))
    }

    /// Whether `(row, col)` is alive in the next generation.
    pub open spec fn next_alive(self, row: int, col: int) -> bool {
        survives(self.alive(row, col), self.neighbors(row, col))
    }

    /// The next generation: every cell decided by the rule from this
    /// generation alone.
    pub open spec fn step(self) -> Grid {
        Grid {
            width: self.width,
            height: self.height,
            cells: Seq::new(
                self.cells.len(),
                |i: int| self.next_alive(i / (self.width as int), i % (self.width as int)),
            ),
        }
    }

    /// The generation reached after `n` steps.
    pub open spec fn steps(self, n: nat) -> Grid
        decreases n,
    {
        if n == 0 {
            self
        } else {
            self.step().steps((n - 1) as nat)
        }
    }

    /// A grid of the given dimensions whose cells are alive as `draws` says,
    /// in row-major order. A cell for which `draws` has no entry is dead;
    /// entries beyond the last cell are ignored.
    pub open spec fn seeded(width: nat, height: nat, draws: Seq<bool>) -> Grid {
        Grid {
            width,
            height,
            cells: Seq::new(width * height, |i: int| i < draws.len() && draws[i]),
        }
    }

    /// The glyphs of one row, after a line break.
    pub open spec fn row_text(self, row: int) -> Seq<char> {
        seq!['\n'] + Seq::new(self.width, |col: int| glyph(self.at(row, col)))
    }

    /// The text of the first `rows` rows.
    pub open spec fn rows_text(self, rows: nat) -> Seq<char>
        decreases rows,
    {
        if rows == 0 {
            Seq::empty()
        } else {
            self.rows_text((rows - 1) as nat) + self.row_text(rows - 1)
        }
    }

    /// The grid as text: for each row a line break and then one glyph per
    /// cell. A grid without cells is the empty text.
    pub open spec fn rendered(self) -> Seq<char> {
        if self.width == 0 {
            Seq::empty()
        } else {
            self.rows_text(self.height)
        }
    }

    /// The same dimensions, every cell dead.
    pub open spec fn cleared(self) -> Grid {
        Grid {
            width: self.width,
            height: self.height,
            cells: Seq::new(self.cells.len(), |i: int| false),
        }
    }

    /// Whether every cell is dead.
    pub open spec fn all_dead(self) -> bool {
        forall|i: int| 0 <= i < self.cells.len() ==> !#[trigger] self.cells[i]
    }

    /// The grid with the cell that `(row, col)` names on the torus flipped.
    /// A grid without cells stays as it is.
    pub open spec fn toggled(self, row: int, col: int) -> Grid {
        if self.inhabited() {
            let i = self.index(self.wrap_row(row), self.wrap_col(col));
            Grid { width: self.width, height: self.height, cells: self.cells.update(i, !self.cells[i]) }
        } else {
            self
        }
    }

    /// The grid with the cell that `(row, col)` names on the torus alive and
    /// the others as they were. A grid without cells stays as it is.
    pub open spec fn lit(self, row: int, col: int) -> Grid {
        if self.inhabited() {
            let i = self.index(self.wrap_row(row), self.wrap_col(col));
            Grid { width: self.width, height: self.height, cells: self.cells.update(i, true) }
        } else {
            self
        }
    }

    /// Whether `(a, b)` and `(row, col)` name the same cell on the torus.
    pub open spec fn same_cell(self, a: int, b: int, row: int, col: int) -> bool {
        self.wrap_row(a) == self.wrap_row(row) && self.wrap_col(b) == self.wrap_col(col)
    }

    /// Whether one of the listed coordinates names the cell `(row, col)`.
    pub open spec fn listed(self, marks: Seq<(int, int)>, row: int, col: int) -> bool {
        exists|k: int|
            0 <= k < marks.len() && self.same_cell((#[trigger] marks[k]).0, marks[k].1, row, col)
    }

    /// The grid with every listed cell alive and the others as they were.
    pub open spec fn marked(self, marks: Seq<(int, int)>) -> Grid {
        Grid {
            width: self.width,
            height: self.height,
            cells: Seq::new(
                self.cells.len(),
                |i: int|
                    self.cells[i] || self.listed(
                        marks,
                        i / (self.width as int),
                        i % (self.width as int),
                    ),
            ),
        }
    }

    /// Whether a live entry of `pattern`, laid out with its first entry at
    /// `(top, left)` and wrapped round the torus, lands on `(row, col)`.
    pub open spec fn covered(
        self,
        pattern: Seq<Seq<bool>>,
        top: int,
        left: int,
        row: int,
        col: int,
    ) -> bool {
        exists|i: int, j: int|
            0 <= i < pattern.len() && 0 <= j < pattern[i].len() && #[trigger] pattern[i][j]
                && self.same_cell(top + i, left + j, row, col)
    }

    /// The grid with `pattern` merged in at `(top, left)`: a cell is alive
    /// afterwards exactly when it was alive before or a live entry of the
    /// pattern lands on it. Dead entries of the pattern change nothing.
    pub open spec fn stamped(self, pattern: Seq<Seq<bool>>, top: int, left: int) -> Grid {
        Grid {
            width: self.width,
            height: self.height,
            cells: Seq::new(
                self.cells.len(),
                |i: int|
                    self.cells[i] || self.covered(
                        pattern,
                        top,
                        left,
                        i / (self.width as int),
                        i % (self.width as int),
                    ),
            ),
        }
    }
}

/// An in-range cell has a place in `cells`, and the place determines the
/// cell: dividing it by the width gives the row back, the remainder the
/// column.
pub proof fn lemma_index_of_cell(g: Grid, row: int, col: int)
    requires
        g.wf(),
        g.in_range(row, col),
    ensures
        0 <= g.index(row, col) < g.cells.len(),
        g.index(row, col) / (g.width as int) == row,
        g.index(row, col) % (g.width as int) == col,
{
    let w = g.width as int;
    let h = g.height as int;
    assert(0 <= row * w) by {
        lemma_mul_nonnegative(row, w);
    }
    assert(row * w + w <= h * w) by {
        lemma_mul_inequality(row + 1, h, w);
        lemma_mul_is_distributive_add_other_way(w, row, 1);
    }
    assert(h * w == w * h) by {
        lemma_mul_is_commutative(h, w);
    }
    lemma_fundamental_div_mod_converse(row * w + col, w, row, col);
}

/// Every place in `cells` belongs to exactly one in-range cell.
pub proof fn lemma_cell_of_index(g: Grid, i: int)
    requires
        g.wf(),
        0 <= i < g.cells.len(),
    ensures
        g.width > 0,
        g.in_range(i / (g.width as int), i % (g.width as int)),
        g.index(i / (g.width as int), i % (g.width as int)) == i,
{
    let w = g.width as int;
    let h = g.height as int;
    if w == 0 {
        assert(w * h == 0) by {
            lemma_mul_basics(h);
        }
    }
    lemma_fundamental_div_mod(i, w);
    lemma_mod_pos_bound(i, w);
    assert(0 <= i / w) by {
        lemma_div_pos_is_pos(i, w);
    }
    assert(i / w < h) by {
        lemma_mul_is_commutative(h, w);
        lemma_div_by_multiple_is_strongly_ordered(i, h * w, h, w);
        lemma_div_by_multiple(h, w);
    }
    assert(w * (i / w) == (i / w) * w) by {
        lemma_mul_is_commutative(w, i / w);
    }
}

/// Wrapping a coordinate that is in range, or one step outside it.
pub proof fn lemma_wrap_near(x: int, n: int)
    requires
        0 <= x < n,
    ensures
        x % n == x,
        (x - 1) % n == (if x == 0 {
            n - 1
        } else {
            x - 1
        }),
        (x + 1) % n == (if x == n - 1 {
            0
        } else {
            x + 1
        }),
{
    lemma_fundamental_div_mod_converse(x, n, 0, x);
    if x == 0 {
        lemma_fundamental_div_mod_converse(x - 1, n, -1, n - 1);
    } else {
        lemma_fundamental_div_mod_converse(x - 1, n, 0, x - 1);
    }
    if x == n - 1 {
        lemma_fundamental_div_mod_converse(x + 1, n, 1, 0);
    } else {
        lemma_fundamental_div_mod_converse(x + 1, n, 0, x + 1);
    }
}

/// A grid with a cell has a positive width and height; one without has no
/// entry in `cells`.
pub proof fn lemma_inhabited(g: Grid)
    requires
        g.wf(),
    ensures
        g.inhabited() <==> g.cells.len() > 0,
{
    let w = g.width as int;
    let h = g.height as int;
    if g.inhabited() {
        lemma_mul_strictly_positive(w, h);
    } else {
        lemma_mul_basics(w);
        lemma_mul_basics(h);
    }
}

/// Any pair of integers names an in-range cell once wrapped.
pub proof fn lemma_wrap_in_range(g: Grid, row: int, col: int)
    requires
        g.inhabited(),
    ensures
        g.in_range(g.wrap_row(row), g.wrap_col(col)),
{
    lemma_mod_bound(row, g.height as int);
    lemma_mod_bound(col, g.width as int);
}

/// A place in `cells` belongs to the cell that `(a, b)` names exactly when
/// `(a, b)` wraps to the row and column of that place.
pub proof fn lemma_same_cell_index(g: Grid, a: int, b: int, i: int)
    requires
        g.wf(),
        0 <= i < g.cells.len(),
    ensures
        g.inhabited(),
        g.same_cell(a, b, i / (g.width as int), i % (g.width as int)) <==> g.index(
            g.wrap_row(a),
            g.wrap_col(b),
        ) == i,
{
    lemma_inhabited(g);
    lemma_cell_of_index(g, i);
    let r = i / (g.width as int);
    let c = i % (g.width as int);
    lemma_wrap_near(r, g.height as int);
    lemma_wrap_near(c, g.width as int);
    lemma_wrap_in_range(g, a, b);
    lemma_index_of_cell(g, g.wrap_row(a), g.wrap_col(b));
}

} // verus!
