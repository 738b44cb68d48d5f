//! The executable universe: a torus of cells packed into a bit set, with the
//! generation step and the operations that change single cells or stamp
//! patterns.

use crate::bitset::{bits_of, disable_all, packed};
use crate::grid::{
    glyph, lemma_cell_of_index, lemma_index_of_cell, lemma_inhabited, lemma_wrap_near, one_if,
    survives, Grid,
};
use crate::patterns::{
    glider, lemma_mark_entry, lemma_mark_nothing, lemma_stamp_entry, lemma_stamp_nothing,
    lemma_stamp_rows, lemma_stamp_wrapped, pulsar, pulsar_bars, pulsar_gap, pulsar_posts,
};
use fixedbitset::FixedBitSet;
use vstd::arithmetic::div_mod::{
    lemma_add_mod_noop_right, lemma_mod_add_multiples_vanish, lemma_sub_mod_noop,
};
use vstd::prelude::*;
use vstd::string::StringExecFns;

verus! {

/// A universe of the Game of Life. Its dimensions are fixed when it is made.
pub struct Universe {
    width: u32,
    height: u32,
    cells: FixedBitSet,
}

impl View for Universe {
    type V = Grid;

    /// The generation that the universe currently holds.
    closed spec fn view(&self) -> Grid {
        Grid {
            width: self.width as nat,
            height: self.height as nat,
            cells: bits_of(self.cells),
        }
    }
}

/// The next state of a cell from its current state and the number of its
/// live neighbours.
pub fn next_state(cell: bool, live_neighbors: u8) -> (next: bool)
    ensures
        next == survives(cell, live_neighbors as nat),
{
    match (cell, live_neighbors) {
        // A live cell with fewer than two live neighbours dies.
        (true, x) if x < 2 => false,
        // A live cell with two or three live neighbours lives on.
        (true, 2) | (true, 3) => true,
        // A live cell with more than three live neighbours dies.
        (true, x) if x > 3 => false,
        // A dead cell with exactly three live neighbours becomes alive.
        (false, 3) => true,
        // Every other cell stays as it is.
        (other, _) => other,
    }
}

/// The coordinate `back` steps before `x` on a ring of `n`.
fn wrapped_back(x: u32, back: u32, n: u32) -> (wrapped: u32)
    requires
        n > 0,
    ensures
        wrapped == (x - back) % (n as int),
        wrapped < n,
{
    let from: u64 = (x % n) as u64;
    let by: u64 = (back % n) as u64;
    let wrapped: u64 = (from + n as u64 - by) % (n as u64);
    proof {
        lemma_mod_add_multiples_vanish(from - by, n as int);
        lemma_sub_mod_noop(x as int, back as int, n as int);
    }
    wrapped as u32
}

/// The coordinate one step after `x` on a ring of `n`.
fn wrapped_next(x: u32, n: u32) -> (wrapped: u32)
    requires
        x < n,
    ensures
        wrapped == (x + 1) % (n as int),
        wrapped < n,
{
    proof {
        lemma_wrap_near(x as int, n as int);
    }
    if x == n - 1 {
        0
    } else {
        x + 1
    }
}

/// The coordinates of a list of cells as integers.
pub open spec fn coordinates(cells: Seq<(u32, u32)>) -> Seq<(int, int)> {
    Seq::new(cells.len(), |k: int| (cells[k].0 as int, cells[k].1 as int))
}

impl Universe {
    /// The bit set holds one bit per cell of the grid, and their number fits
    /// the machine's index type.
    pub open spec fn wf(&self) -> bool {
        self@.wf() && self@.cells.len() <= usize::MAX
    }

    /// Makes a universe of `width` by `height` cells. Cell `i`, in row-major
    /// order, starts alive where `alive[i]` says so; a cell for which
    /// `alive` has no entry starts dead.
    pub fn new(width: u32, height: u32, alive: &[bool]) -> (universe: Universe)
        requires
            width * height <= usize::MAX,
        ensures
            universe.wf(),
            universe@ == Grid::seeded(width as nat, height as nat, alive@),
    {
        let size = (width as usize) * (height as usize);
        let mut cells = FixedBitSet::with_capacity(size);
        let mut i: usize = 0;
        while i < size
            invariant
                i <= size,
                bits_of(cells).len() == size,
                forall|k: int|
                    0 <= k < i ==> #[trigger] bits_of(cells)[k] == (k < alive@.len() && alive@[k]),
            decreases size - i,
        {
            let draw = i < alive.len() && alive[i];
            cells.set(i, draw);
            i += 1;
        }
        proof {
            assert(bits_of(cells) =~= Grid::seeded(width as nat, height as nat, alive@).cells);
        }
        Universe { width, height, cells }
    }

    /// Gives every cell a new state, as `new` does: cell `i` is alive
    /// afterwards where `alive[i]` says so, and dead where `alive` has no
    /// entry for it. The dimensions stay.
    pub fn reset(&mut self, alive: &[bool])
        requires
            old(self).wf(),
        ensures
            final(self).wf(),
            final(self)@ == Grid::seeded(old(self)@.width, old(self)@.height, alive@),
            final(self)@.width == old(self)@.width,
            final(self)@.height == old(self)@.height,
    {
        let size = self.cells.len();
        let mut i: usize = 0;
        while i < size
            invariant
                i <= size,
                old(self).wf(),
                self.width == old(self).width,
                self.height == old(self).height,
                bits_of(self.cells).len() == size,
                size == old(self)@.cells.len(),
                forall|k: int|
                    0 <= k < i ==> #[trigger] bits_of(self.cells)[k] == (k < alive@.len()
                        && alive@[k]),
            decreases size - i,
        {
            let draw = i < alive.len() && alive[i];
            self.cells.set(i, draw);
            i += 1;
        }
        proof {
            assert(bits_of(self.cells) =~= Grid::seeded(
                old(self)@.width,
                old(self)@.height,
                alive@,
            ).cells);
        }
    }

    /// Flips the cell that `(row, col)` names on the torus: a row or column
    /// past the edge wraps round. A universe without cells stays empty.
    pub fn toggle_cell(&mut self, row: u32, col: u32)
        requires
            old(self).wf(),
        ensures
            final(self).wf(),
            final(self)@ == old(self)@.toggled(row as int, col as int),
            final(self)@.width == old(self)@.width,
            final(self)@.height == old(self)@.height,
    {
        if self.width == 0 || self.height == 0 {
            return ;
        }
        let idx = self.get_index(row % self.height, col % self.width);
        let cell = self.cells.contains(idx);
        self.cells.set(idx, !cell);
    }

    /// Makes every listed cell alive and leaves the others as they were. A
    /// coordinate past the edge wraps round the torus; one that is listed
    /// twice counts once. A universe without cells stays empty.
    pub fn set_cells(&mut self, cells: &[(u32, u32)])
        requires
            old(self).wf(),
        ensures
            final(self).wf(),
            final(self)@ == old(self)@.marked(coordinates(cells@)),
            final(self)@.width == old(self)@.width,
            final(self)@.height == old(self)@.height,
    {
        let ghost start = self@;
        let ghost marks = coordinates(cells@);
        proof {
            assert(marks.take(0) =~= Seq::empty());
            lemma_mark_nothing(start);
        }
        let mut k: usize = 0;
        while k < cells.len()
            invariant
                self.wf(),
                start.wf(),
                start == old(self)@,
                marks == coordinates(cells@),
                self@.width == start.width,
                self@.height == start.height,
                k <= cells.len(),
                self@ == start.marked(marks.take(k as int)),
            decreases cells.len() - k,
        {
            let (row, col) = cells[k];
            proof {
                lemma_mark_entry(start, marks, k as int);
            }
            if self.width != 0 && self.height != 0 {
                let idx = self.get_index(row % self.height, col % self.width);
                self.cells.set(idx, true);
            }
            k += 1;
        }
        proof {
            assert(marks.take(marks.len() as int) =~= marks);
        }
    }

    /// Makes every cell dead. The dimensions stay.
    pub fn empty_cells(&mut self)
        requires
            old(self).wf(),
        ensures
            final(self).wf(),
            final(self)@ == old(self)@.cleared(),
            final(self)@.all_dead(),
            final(self)@.width == old(self)@.width,
            final(self)@.height == old(self)@.height,
    {
        disable_all(&mut self.cells);
    }

    /// The number of columns.
    pub fn width(&self) -> (width: u32)
        ensures
            width == self@.width,
    {
        self.width
    }

    /// The number of rows.
    pub fn height(&self) -> (height: u32)
        ensures
            height == self@.height,
    {
        self.height
    }

    /// The bit set that holds the cells: bit `row * width + col` is the
    /// cell at `(row, col)`.
    pub fn get_cells(&self) -> (set: &FixedBitSet)
        ensures
            bits_of(*set) == self@.cells,
    {
        &self.cells
    }

    /// The cells as the packed words that store them, for a reader that
    /// takes them bit by bit: cell `i` in row-major order is bit `i % 32` of
    /// word `i / 32`.
    pub fn cells(&self) -> (blocks: &[u32])
        ensures
            packed(blocks@, self@.cells),
    {
        self.cells.as_slice()
    }

    /// The universe as text: for each row a line break and then one glyph
    /// per cell, a hollow square for a live cell and a filled one for a dead
    /// cell. A universe without cells gives the empty text.
    pub fn render(&self) -> (text: String)
        requires
            self.wf(),
        ensures
            text@ == self@.rendered(),
    {
        let mut text = String::new();
        if self.width == 0 {
            return text;
        }
        let mut row: u32 = 0;
        while row < self.height
            invariant
                self.wf(),
                self.width > 0,
                row <= self.height,
                text@ == self@.rows_text(row as nat),
            decreases self.height - row,
        {
            let ghost above = text@;
            text.append("\n");
            proof {
                reveal_strlit("\n");
                assert(text@ =~= above + seq!['\n'] + Seq::new(
                    0,
                    |c: int| glyph(self@.at(row as int, c)),
                ));
            }
            let mut col: u32 = 0;
            while col < self.width
                invariant
                    self.wf(),
                    row < self.height,
                    col <= self.width,
                    above == self@.rows_text(row as nat),
                    text@ == above + seq!['\n'] + Seq::new(
                        col as nat,
                        |c: int| glyph(self@.at(row as int, c)),
                    ),
                decreases self.width - col,
            {
                let index = self.get_index(row, col);
                let symbol = if self.cells.contains(index) {
                    "◻"
                } else {
                    "◼"
                };
                text.append(symbol);
                proof {
                    reveal_strlit("◻");
                    reveal_strlit("◼");
                    assert(symbol@ =~= seq![glyph(self@.at(row as int, col as int))]);
                    assert(text@ =~= above + seq!['\n'] + Seq::new(
                        (col + 1) as nat,
                        |c: int| glyph(self@.at(row as int, c)),
                    ));
                }
                col += 1;
            }
            proof {
                assert(text@ =~= above + self@.row_text(row as int));
            }
            row += 1;
        }
        text
    }

    /// Advances the universe by one generation. Every cell of the new
    /// generation is decided from the old one alone.
    pub fn tick(&mut self)
        requires
            old(self).wf(),
        ensures
            final(self).wf(),
            final(self)@ == old(self)@.step(),
            final(self)@.width == old(self)@.width,
            final(self)@.height == old(self)@.height,
    {
        let mut next_cells = self.cells.clone();
        let ghost now = self@;
        let mut row: u32 = 0;
        while row < self.height
            invariant
                self.wf(),
                self@ == now,
                *self == *old(self),
                row <= self.height,
                bits_of(next_cells).len() == now.cells.len(),
                forall|r: int, c: int|
                    0 <= r < row && 0 <= c < self.width ==> bits_of(next_cells)[#[trigger] now.index(
                        r,
                        c,
                    )] == now.next_alive(r, c),
            decreases self.height - row,
        {
            let mut col: u32 = 0;
            while col < self.width
                invariant
                    self.wf(),
                    self@ == now,
                    *self == *old(self),
                    row < self.height,
                    col <= self.width,
                    bits_of(next_cells).len() == now.cells.len(),
                    forall|r: int, c: int|
                        (0 <= r < row && 0 <= c < self.width) || (r == row && 0 <= c < col)
                            ==> bits_of(next_cells)[#[trigger] now.index(r, c)] == now.next_alive(
                            r,
                            c,
                        ),
                decreases self.width - col,
            {
                let index = self.get_index(row, col);
                let cell = self.cells.contains(index);
                let live_neighbors = self.live_neighbor_count(row, col);
                let next_cell = next_state(cell, live_neighbors);
                let ghost before = bits_of(next_cells);
                next_cells.set(index, next_cell);
                proof {
                    lemma_wrap_near(row as int, self.height as int);
                    lemma_wrap_near(col as int, self.width as int);
                    assert forall|r: int, c: int|
                        (0 <= r < row && 0 <= c < self.width) || (r == row && 0 <= c < col + 1)
                        implies bits_of(next_cells)[#[trigger] now.index(r, c)] == now.next_alive(
                        r,
                        c,
                    ) by {
                        lemma_index_of_cell(now, r, c);
                        lemma_index_of_cell(now, row as int, col as int);
                        if r == row && c == col {
                        } else {
                            assert(now.index(r, c) != index);
                            assert(before[now.index(r, c)] == now.next_alive(r, c));
                        }
                    }
                }
                col += 1;
            }
            row += 1;
        }
        proof {
            let next = now.step();
            assert forall|i: int| 0 <= i < next.cells.len() implies bits_of(next_cells)[i]
                == next.cells[i] by {
                lemma_cell_of_index(now, i);
                let r = i / (now.width as int);
                let c = i % (now.width as int);
                assert(bits_of(next_cells)[now.index(r, c)] == now.next_alive(r, c));
            }
            assert(bits_of(next_cells) =~= next.cells);
        }
        self.cells = next_cells;
    }

    /// Merges one row of a pattern into the cells, starting at the in-range
    /// cell `(row, from)` and going right, round the torus: a live entry of
    /// `source` makes its cell alive, a dead entry leaves its cell alone.
    fn set_iter(&mut self, row: u32, from: u32, source: &[bool])
        requires
            old(self).wf(),
            old(self)@.in_range(row as int, from as int),
        ensures
            final(self).wf(),
            final(self)@ == old(self)@.stamped(seq![source@], row as int, from as int),
    {
        let ghost start = self@;
        let mut col = from;
        let mut idx: usize = 0;
        proof {
            assert(source@.take(0) =~= Seq::empty());
            lemma_stamp_nothing(start, row as int, from as int);
            lemma_wrap_near(from as int, self.width as int);
        }
        while idx < source.len()
            invariant
                self.wf(),
                start.wf(),
                start == old(self)@,
                self@.width == start.width,
                self@.height == start.height,
                idx <= source.len(),
                row < self.height,
                col < self.width,
                col == (from + idx) % (self.width as int),
                self@ == start.stamped(seq![source@.take(idx as int)], row as int, from as int),
            decreases source.len() - idx,
        {
            let ghost before = self@;
            if source[idx] {
                let index = self.get_index(row, col);
                self.cells.set(index, true);
            }
            proof {
                lemma_stamp_entry(start, source@, idx as int, row as int, from as int);
                lemma_wrap_near(row as int, self.height as int);
                lemma_add_mod_noop_right(1, from + idx, self.width as int);
                lemma_wrap_near(col as int, self.width as int);
            }
            col = wrapped_next(col, self.width);
            idx += 1;
        }
        proof {
            assert(source@.take(source@.len() as int) =~= source@);
        }
    }

    /// Stamps a glider whose centre is the cell that `(row, col)` names on
    /// the torus. The five live cells of the glider become alive; every
    /// other cell stays as it was. A universe without cells stays empty.
    pub fn put_glider(&mut self, row: u32, col: u32)
        requires
            old(self).wf(),
        ensures
            final(self).wf(),
            final(self)@ == old(self)@.stamped(glider(), row - 1, col - 1),
            final(self)@.width == old(self)@.width,
            final(self)@.height == old(self)@.height,
    {
        let ghost start = self@;
        let ghost top = row - 1;
        let ghost left = col - 1;
        if self.width == 0 || self.height == 0 {
            proof {
                lemma_inhabited(start);
                assert(start.stamped(glider(), top, left).cells =~= start.cells);
            }
            return ;
        }
        let col_left = wrapped_back(col, 1, self.width);

        let glider_top = [false, true, false];
        let row_top = wrapped_back(row, 1, self.height);
        proof {
            lemma_wrap_near(row_top as int, self.height as int);
            lemma_wrap_near(col_left as int, self.width as int);
        }
        self.set_iter(row_top, col_left, glider_top.as_slice());
        let ghost first = self@;
        proof {
            lemma_stamp_wrapped(start, seq![glider_top@], top, left, row_top as int, col_left as int);
        }

        let glider_middle = [false, false, true];
        let row_middle = wrapped_next(row_top, self.height);
        self.set_iter(row_middle, col_left, glider_middle.as_slice());
        let ghost second = self@;
        proof {
            lemma_wrap_near(row_middle as int, self.height as int);
            lemma_add_mod_noop_right(1, top, self.height as int);
            lemma_stamp_wrapped(
                first,
                seq![glider_middle@],
                top + 1,
                left,
                row_middle as int,
                col_left as int,
            );
            lemma_stamp_rows(start, seq![glider_top@], seq![glider_middle@], top, left);
        }

        let glider_bottom = [true, true, true];
        let row_bottom = wrapped_next(row_middle, self.height);
        self.set_iter(row_bottom, col_left, glider_bottom.as_slice());
        proof {
            lemma_wrap_near(row_bottom as int, self.height as int);
            lemma_add_mod_noop_right(1, top + 1, self.height as int);
            lemma_stamp_wrapped(
                second,
                seq![glider_bottom@],
                top + 2,
                left,
                row_bottom as int,
                col_left as int,
            );
            let upper = seq![glider_top@] + seq![glider_middle@];
            lemma_stamp_rows(start, upper, seq![glider_bottom@], top, left);
            assert(glider_top@ =~= glider()[0]);
            assert(glider_middle@ =~= glider()[1]);
            assert(glider_bottom@ =~= glider()[2]);
            assert(upper + seq![glider_bottom@] =~= glider());
        }
    }

    /// Stamps a pulsar whose centre is the cell that `(row, col)` names on
    /// the torus: the pattern's first entry lands six rows above and six
    /// columns left of it. The live cells of the pulsar become alive; every
    /// other cell stays as it was. A universe without cells stays empty.
    pub fn put_pulsar(&mut self, row: u32, col: u32)
        requires
            old(self).wf(),
        ensures
            final(self).wf(),
            final(self)@ == old(self)@.stamped(pulsar(), row - 6, col - 6),
            final(self)@.width == old(self)@.width,
            final(self)@.height == old(self)@.height,
    {
        let ghost start = self@;
        let ghost top = row - 6;
        let ghost left = col - 6;
        if self.width == 0 || self.height == 0 {
            proof {
                lemma_inhabited(start);
                assert(start.stamped(pulsar(), top, left).cells =~= start.cells);
            }
            return ;
        }
        let bars = [
            false, false, true, true, true, false, false,
            false, true, true, true, false, false,
        ];
        let gap = [
            false, false, false, false, false, false, false,
            false, false, false, false, false, false,
        ];
        let posts = [
            true, false, false, false, false, true, false,
            true, false, false, false, false, true,
        ];

        let lines = [
            &bars, &gap, &posts, &posts, &posts, &bars, &gap, &bars, &posts, &posts, &posts, &gap,
            &bars,
        ];
        let left_col = wrapped_back(col, 6, self.width);
        let mut curr_row = wrapped_back(row, 6, self.height);
        proof {
            assert(bars@ =~= pulsar_bars());
            assert(gap@ =~= pulsar_gap());
            assert(posts@ =~= pulsar_posts());
            assert(pulsar().take(0) =~= Seq::empty());
            lemma_stamp_nothing(start, top, left);
        }
        let mut i: usize = 0;
        while i < 13
            invariant
                self.wf(),
                start.wf(),
                self@.width == start.width,
                self@.height == start.height,
                start.width == old(self)@.width,
                start.height == old(self)@.height,
                i <= 13,
                left_col < self.width,
                left_col == left % (self.width as int),
                curr_row < self.height,
                curr_row == (top + i) % (self.height as int),
                lines@.len() == 13,
                forall|k: int| 0 <= k < 13 ==> (#[trigger] lines@[k])@ == pulsar()[k],
                self@ == start.stamped(pulsar().take(i as int), top, left),
            decreases 13 - i,
        {
            let ghost before = self@;
            let line = lines[i];
            self.set_iter(curr_row, left_col, line.as_slice());
            proof {
                let done = pulsar().take(i as int);
                lemma_wrap_near(curr_row as int, self.height as int);
                lemma_wrap_near(left_col as int, self.width as int);
                lemma_stamp_wrapped(
                    before,
                    seq![line@],
                    top + i,
                    left,
                    curr_row as int,
                    left_col as int,
                );
                lemma_stamp_rows(start, done, seq![line@], top, left);
                assert(done + seq![line@] =~= pulsar().take(i + 1));
                lemma_add_mod_noop_right(1, top + i, self.height as int);
            }
            curr_row = wrapped_next(curr_row, self.height);
            i += 1;
        }
        proof {
            assert(pulsar().take(13) =~= pulsar());
        }
    }

    fn get_index(&self, row: u32, column: u32) -> (index: usize)
        requires
            self.wf(),
            self@.in_range(row as int, column as int),
        ensures
            index == self@.index(row as int, column as int),
            index < self@.cells.len(),
    {
        proof {
            lemma_index_of_cell(self@, row as int, column as int);
            vstd::arithmetic::mul::lemma_mul_nonnegative(row as int, self.width as int);
        }
        (row as usize) * (self.width as usize) + (column as usize)
    }

    /// Counts one cell: 1 if the in-range cell `(row, column)` is alive, else
    /// 0. The ghost pair is any name of that cell on the torus.
    fn live(&self, row: u32, column: u32, Ghost(r): Ghost<int>, Ghost(c): Ghost<int>) -> (count: u8)
        requires
            self.wf(),
            self@.in_range(row as int, column as int),
            self@.wrap_row(r) == row,
            self@.wrap_col(c) == column,
        ensures
            count == one_if(self@.alive(r, c)),
    {
        let index = self.get_index(row, column);
        if self.cells.contains(index) {
            1
        } else {
            0
        }
    }

    fn live_neighbor_count(&self, row: u32, column: u32) -> (count: u8)
        requires
            self.wf(),
            self@.in_range(row as int, column as int),
        ensures
            count == self@.neighbors(row as int, column as int),
            count <= 8,
    {
        let north = if row == 0 {
            self.height - 1
        } else {
            row - 1
        };
        let south = if row == self.height - 1 {
            0
        } else {
            row + 1
        };
        let west = if column == 0 {
            self.width - 1
        } else {
            column - 1
        };
        let east = if column == self.width - 1 {
            0
        } else {
            column + 1
        };
        proof {
            lemma_wrap_near(row as int, self.height as int);
            lemma_wrap_near(column as int, self.width as int);
        }
        let ghost r = row as int;
        let ghost c = column as int;
        let count = self.live(north, west, Ghost(r - 1), Ghost(c - 1))
            + self.live(north, column, Ghost(r - 1), Ghost(c))
            + self.live(north, east, Ghost(r - 1), Ghost(c + 1))
            + self.live(row, west, Ghost(r), Ghost(c - 1))
            + self.live(row, east, Ghost(r), Ghost(c + 1))
            + self.live(south, west, Ghost(r + 1), Ghost(c - 1))
            + self.live(south, column, Ghost(r + 1), Ghost(c))
            + self.live(south, east, Ghost(r + 1), Ghost(c + 1));
        count
    }
}

} // verus!
