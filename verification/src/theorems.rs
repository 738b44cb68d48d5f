//! What holds of every universe: the rule cell by cell, the wrap at the
//! corner, what stamping leaves alone, and how the block, the blinker, the
//! glider and the pulsar behave on a torus that is large enough for them.

use crate::grid::{
    lemma_index_of_cell, lemma_inhabited, lemma_wrap_in_range, lemma_wrap_near, one_if, survives,
    Grid,
};
use crate::patterns::{glider, pulsar, pulsar_bars, pulsar_gap, pulsar_posts};
use crate::shapes::{
    around, lemma_read_from, lemma_same_shape, lemma_shape_steps, lemma_shows_alike,
    lemma_stamped_shows, ring, shape_of,
};
use vstd::prelude::*;

verus! {

/// The block, a still life: two rows of two live cells.
pub open spec fn block() -> Seq<Seq<bool>> {
    seq![seq![true, true], seq![true, true]]
}

/// The blinker lying down: one row of three live cells.
pub open spec fn blinker_row() -> Seq<Seq<bool>> {
    seq![seq![true, true, true]]
}

/// The blinker standing up: one column of three live cells.
pub open spec fn blinker_column() -> Seq<Seq<bool>> {
    seq![seq![true], seq![true], seq![true]]
}

/// Stepping, toggling, marking, stamping and clearing keep the dimensions
/// and the number of cells.
pub proof fn lemma_dimensions_stay(
    g: Grid,
    row: int,
    col: int,
    marks: Seq<(int, int)>,
    pattern: Seq<Seq<bool>>,
    n: nat,
)
    requires
        g.wf(),
    ensures
        g.step().wf() && g.step().width == g.width && g.step().height == g.height,
        g.steps(n).wf() && g.steps(n).width == g.width && g.steps(n).height == g.height,
        g.toggled(row, col).wf() && g.toggled(row, col).width == g.width && g.toggled(
            row,
            col,
        ).height == g.height,
        g.marked(marks).wf() && g.marked(marks).width == g.width && g.marked(marks).height
            == g.height,
        g.stamped(pattern, row, col).wf() && g.stamped(pattern, row, col).width == g.width
            && g.stamped(pattern, row, col).height == g.height,
        g.cleared().wf() && g.cleared().width == g.width && g.cleared().height == g.height,
    decreases n,
{
    if g.inhabited() {
        lemma_wrap_in_range(g, row, col);
        lemma_index_of_cell(g, g.wrap_row(row), g.wrap_col(col));
    }
    if n > 0 {
        lemma_dimensions_stay(g.step(), row, col, marks, pattern, (n - 1) as nat);
    }
}

/// The rule, cell by cell: a live cell with fewer than two live neighbours
/// dies, one with two or three lives on, one with more than three dies; a
/// dead cell with exactly three live neighbours becomes alive, and any
/// other dead cell stays dead.
pub proof fn lemma_rule(g: Grid, row: int, col: int)
    requires
        g.wf(),
        g.in_range(row, col),
    ensures
        g.at(row, col) && g.neighbors(row, col) < 2 ==> !g.step().at(row, col),
        g.at(row, col) && (g.neighbors(row, col) == 2 || g.neighbors(row, col) == 3)
            ==> g.step().at(row, col),
        g.at(row, col) && g.neighbors(row, col) > 3 ==> !g.step().at(row, col),
        !g.at(row, col) && g.neighbors(row, col) == 3 ==> g.step().at(row, col),
        !g.at(row, col) && g.neighbors(row, col) != 3 ==> !g.step().at(row, col),
{
    lemma_index_of_cell(g, row, col);
    lemma_wrap_near(row, g.height as int);
    lemma_wrap_near(col, g.width as int);
}

/// The wrap at the corner: the cell at `(0, 0)` has the last cell of the
/// last row as its neighbour above and to the left, the first cell of the
/// last row as its neighbour above, and the last cell of its own row as its
/// neighbour to the left. Its live neighbours are counted over the eight
/// cells that its eight offsets wrap to, each offset on its own.
pub proof fn lemma_corner_wraps(g: Grid)
    requires
        g.wf(),
        g.inhabited(),
    ensures
        g.alive(-1, -1) == g.at(g.height - 1, g.width - 1),
        g.alive(-1, 0) == g.at(g.height - 1, 0),
        g.alive(0, -1) == g.at(0, g.width - 1),
        g.neighbors(0, 0) == one_if(g.at(g.height - 1, g.width - 1)) + one_if(
            g.at(g.height - 1, 0),
        ) + one_if(g.at(g.height - 1, g.wrap_col(1))) + one_if(g.at(0, g.width - 1))
            + one_if(g.at(0, g.wrap_col(1))) + one_if(
            g.at(g.wrap_row(1), g.width - 1),
        ) + one_if(g.at(g.wrap_row(1), 0)) + one_if(
            g.at(g.wrap_row(1), g.wrap_col(1)),
        ),
{
    lemma_wrap_near(0, g.height as int);
    lemma_wrap_near(0, g.width as int);
}

/// Stamping merges: a cell is alive afterwards exactly when it was alive
/// before or a live entry of the pattern lands on it. So a live cell stays
/// alive, and a cell on which no live entry lands stays as it was.
pub proof fn lemma_stamp_merges(
    g: Grid,
    pattern: Seq<Seq<bool>>,
    top: int,
    left: int,
    row: int,
    col: int,
)
    requires
        g.wf(),
        g.in_range(row, col),
    ensures
        g.stamped(pattern, top, left).at(row, col) == (g.at(row, col) || g.covered(
            pattern,
            top,
            left,
            row,
            col,
        )),
        g.at(row, col) ==> g.stamped(pattern, top, left).at(row, col),
        !g.covered(pattern, top, left, row, col) ==> g.stamped(pattern, top, left).at(row, col)
            == g.at(row, col),
{
    lemma_index_of_cell(g, row, col);
}

/// After clearing, every cell reads dead, by whatever name, and clearing
/// again changes nothing.
pub proof fn lemma_cleared_is_dead(g: Grid, row: int, col: int)
    requires
        g.wf(),
    ensures
        g.cleared().all_dead(),
        !g.cleared().alive(row, col),
        g.cleared().cleared() == g.cleared(),
{
    if g.inhabited() {
        lemma_wrap_in_range(g, row, col);
        lemma_index_of_cell(g, g.wrap_row(row), g.wrap_col(col));
    }
    assert(g.cleared().cleared().cells =~= g.cleared().cells);
}

/// Marking the same cells a second time changes nothing.
pub proof fn lemma_mark_twice(g: Grid, marks: Seq<(int, int)>)
    ensures
        g.marked(marks).marked(marks) == g.marked(marks),
{
    assert(g.marked(marks).marked(marks).cells =~= g.marked(marks).cells);
}

/// Stamping the same pattern at the same place a second time changes
/// nothing.
pub proof fn lemma_stamp_twice(g: Grid, pattern: Seq<Seq<bool>>, top: int, left: int)
    ensures
        g.stamped(pattern, top, left).stamped(pattern, top, left) == g.stamped(
            pattern,
            top,
            left,
        ),
{
    assert(g.stamped(pattern, top, left).stamped(pattern, top, left).cells =~= g.stamped(
        pattern,
        top,
        left,
    ).cells);
}

/// Toggling the same cell twice gives the grid back.
pub proof fn lemma_toggle_twice(g: Grid, row: int, col: int)
    requires
        g.wf(),
    ensures
        g.toggled(row, col).toggled(row, col) == g,
{
    if g.inhabited() {
        lemma_wrap_in_range(g, row, col);
        lemma_index_of_cell(g, g.wrap_row(row), g.wrap_col(col));
        assert(g.toggled(row, col).toggled(row, col).cells =~= g.cells);
    }
}

/// A grid without cells stays as it is, whatever is done to it.
pub proof fn lemma_nothing_without_cells(
    g: Grid,
    row: int,
    col: int,
    marks: Seq<(int, int)>,
    pattern: Seq<Seq<bool>>,
)
    requires
        g.wf(),
        !g.inhabited(),
    ensures
        g.step() == g,
        g.toggled(row, col) == g,
        g.marked(marks) == g,
        g.stamped(pattern, row, col) == g,
        g.cleared() == g,
        g.rendered() == Seq::<char>::empty(),
{
    lemma_inhabited(g);
    assert(g.step().cells =~= g.cells);
    assert(g.marked(marks).cells =~= g.cells);
    assert(g.stamped(pattern, row, col).cells =~= g.cells);
    assert(g.cleared().cells =~= g.cells);
}

/// The block is a still life. On a torus of at least three rows and three
/// columns and otherwise without live cells, a block put anywhere is
/// unchanged by a step.
pub proof fn lemma_block_is_still(g: Grid, row: int, col: int)
    requires
        g.wf(),
        g.all_dead(),
        g.width >= 3,
        g.height >= 3,
    ensures
        g.stamped(block(), row, col).step() == g.stamped(block(), row, col),
{
    let h = g.height as int;
    let w = g.width as int;
    let start = g.stamped(block(), row, col);
    let square = |i: int, j: int| 0 <= i < 2 && 0 <= j < 2;
    lemma_stamped_shows(g, block(), row, col);
    lemma_shows_alike(start, row, col, shape_of(block()), square);
    assert forall|i: int, j: int| 0 <= i < h && 0 <= j < w implies #[trigger] square(i, j)
        == survives(square(i, j), around(square, h, w, i, j)) by {}
    lemma_shape_steps(start, row, col, square, square);
    lemma_same_shape(start.step(), start, row, col, square);
}

/// The blinker has period two. On a torus of at least four rows and four
/// columns and otherwise without live cells, a step turns the blinker lying
/// down with its middle at `(row, col)` into the blinker standing up with
/// the same middle, and a step turns that one back.
pub proof fn lemma_blinker_oscillates(g: Grid, row: int, col: int)
    requires
        g.wf(),
        g.all_dead(),
        g.width >= 4,
        g.height >= 4,
    ensures
        g.stamped(blinker_row(), row, col - 1).step() == g.stamped(
            blinker_column(),
            row - 1,
            col,
        ),
        g.stamped(blinker_column(), row - 1, col).step() == g.stamped(
            blinker_row(),
            row,
            col - 1,
        ),
{
    let h = g.height as int;
    let w = g.width as int;
    let top = row - 1;
    let left = col - 1;
    let lying = g.stamped(blinker_row(), top + 1, left + 0);
    let standing = g.stamped(blinker_column(), top + 0, left + 1);
    let across = |i: int, j: int| i == 1 && 0 <= j < 3;
    let upright = |i: int, j: int| j == 1 && 0 <= i < 3;
    lemma_stamped_shows(g, blinker_row(), top + 1, left + 0);
    lemma_stamped_shows(g, blinker_column(), top + 0, left + 1);
    assert forall|i: int, j: int| 0 <= i < h && 0 <= j < w implies #[trigger] across(i, j)
        == shape_of(blinker_row())(ring(i - 1, h), ring(j - 0, w)) by {}
    assert forall|i: int, j: int| 0 <= i < h && 0 <= j < w implies #[trigger] upright(i, j)
        == shape_of(blinker_column())(ring(i - 0, h), ring(j - 1, w)) by {}
    lemma_read_from(lying, top, left, 1, 0, shape_of(blinker_row()), across);
    lemma_read_from(standing, top, left, 0, 1, shape_of(blinker_column()), upright);
    assert forall|i: int, j: int| 0 <= i < h && 0 <= j < w implies #[trigger] upright(i, j)
        == survives(across(i, j), around(across, h, w, i, j)) by {}
    assert forall|i: int, j: int| 0 <= i < h && 0 <= j < w implies #[trigger] across(i, j)
        == survives(upright(i, j), around(upright, h, w, i, j)) by {}
    lemma_shape_steps(lying, top, left, across, upright);
    lemma_shape_steps(standing, top, left, upright, across);
    lemma_same_shape(lying.step(), standing, top, left, upright);
    lemma_same_shape(standing.step(), lying, top, left, across);
}

/// The glider as it is put, read from the cell above and to the left of
/// its centre.
spec fn glider_at_first(i: int, j: int) -> bool {
    (i == 0 && j == 1) || (i == 1 && j == 2) || (i == 2 && 0 <= j < 3)
}

/// The glider one step later, read from the same cell.
spec fn glider_after_one(i: int, j: int) -> bool {
    (i == 1 && (j == 0 || j == 2)) || (i == 2 && (j == 1 || j == 2)) || (i == 3 && j == 1)
}

/// The glider two steps later.
spec fn glider_after_two(i: int, j: int) -> bool {
    (i == 1 && j == 2) || (i == 2 && (j == 0 || j == 2)) || (i == 3 && (j == 1 || j == 2))
}

/// The glider three steps later.
spec fn glider_after_three(i: int, j: int) -> bool {
    (i == 1 && j == 1) || (i == 2 && (j == 2 || j == 3)) || (i == 3 && (j == 1 || j == 2))
}

/// The glider four steps later: as it was put, one row down and one column
/// to the right.
spec fn glider_after_four(i: int, j: int) -> bool {
    (i == 1 && j == 2) || (i == 2 && j == 3) || (i == 3 && 1 <= j < 4)
}

/// One step of the glider, for each of its four phases.
proof fn lemma_glider_phases(h: int, w: int)
    requires
        h >= 5,
        w >= 5,
    ensures
        forall|i: int, j: int|
            0 <= i < h && 0 <= j < w ==> #[trigger] glider_after_one(i, j) == survives(
                glider_at_first(i, j),
                around(|i: int, j: int| glider_at_first(i, j), h, w, i, j),
            ),
        forall|i: int, j: int|
            0 <= i < h && 0 <= j < w ==> #[trigger] glider_after_two(i, j) == survives(
                glider_after_one(i, j),
                around(|i: int, j: int| glider_after_one(i, j), h, w, i, j),
            ),
        forall|i: int, j: int|
            0 <= i < h && 0 <= j < w ==> #[trigger] glider_after_three(i, j) == survives(
                glider_after_two(i, j),
                around(|i: int, j: int| glider_after_two(i, j), h, w, i, j),
            ),
        forall|i: int, j: int|
            0 <= i < h && 0 <= j < w ==> #[trigger] glider_after_four(i, j) == survives(
                glider_after_three(i, j),
                around(|i: int, j: int| glider_after_three(i, j), h, w, i, j),
            ),
{
}

/// The glider travels. On a torus of at least five rows and five columns
/// and otherwise without live cells, four steps turn a glider with its
/// centre at `(row, col)` into the same glider with its centre one row
/// down and one column to the right, round the torus.
pub proof fn lemma_glider_travels(g: Grid, row: int, col: int)
    requires
        g.wf(),
        g.all_dead(),
        g.width >= 5,
        g.height >= 5,
    ensures
        g.stamped(glider(), row - 1, col - 1).steps(4) == g.stamped(glider(), row, col),
{
    let h = g.height as int;
    let w = g.width as int;
    let top = row - 1;
    let left = col - 1;
    let start = g.stamped(glider(), top, left);
    let end = g.stamped(glider(), top + 1, left + 1);
    let first = |i: int, j: int| glider_at_first(i, j);
    let one = |i: int, j: int| glider_after_one(i, j);
    let two = |i: int, j: int| glider_after_two(i, j);
    let three = |i: int, j: int| glider_after_three(i, j);
    let four = |i: int, j: int| glider_after_four(i, j);
    lemma_stamped_shows(g, glider(), top, left);
    lemma_stamped_shows(g, glider(), top + 1, left + 1);
    assert forall|i: int, j: int| 0 <= i < h && 0 <= j < w implies shape_of(glider())(i, j)
        == #[trigger] first(i, j) by {}
    lemma_shows_alike(start, top, left, shape_of(glider()), first);
    assert forall|i: int, j: int| 0 <= i < h && 0 <= j < w implies #[trigger] four(i, j)
        == shape_of(glider())(ring(i - 1, h), ring(j - 1, w)) by {}
    lemma_read_from(end, top, left, 1, 1, shape_of(glider()), four);
    lemma_glider_phases(h, w);
    lemma_shape_steps(start, top, left, first, one);
    let g1 = start.step();
    lemma_shape_steps(g1, top, left, one, two);
    let g2 = g1.step();
    lemma_shape_steps(g2, top, left, two, three);
    let g3 = g2.step();
    lemma_shape_steps(g3, top, left, three, four);
    let g4 = g3.step();
    lemma_same_shape(g4, end, top, left, four);
    reveal_with_fuel(Grid::steps, 5);
    assert(start.steps(4) == g4);
}

/// How far a row or column of a window of fifteen is from the middle one.
spec fn off_middle(x: int) -> int {
    if x < 7 {
        7 - x
    } else {
        x - 7
    }
}

/// One arm of the pulsar as it is put, by the distances from the middle:
/// the bars of three.
spec fn pulsar_arm_at_first(a: int, b: int) -> bool {
    (a == 1 || a == 6) && 2 <= b <= 4
}

/// One arm of the pulsar one step later.
spec fn pulsar_arm_after_one(a: int, b: int) -> bool {
    (a == 1 && (b == 2 || b == 3)) || (a == 2 && (b == 3 || b == 5)) || (a == 3 && 5 <= b <= 7)
}

/// One arm of the pulsar two steps later.
spec fn pulsar_arm_after_two(a: int, b: int) -> bool {
    (a == 1 && 2 <= b <= 4) || (a == 2 && (b == 3 || b == 5)) || (a == 3 && 4 <= b <= 6) || (a == 4
        && b == 6)
}

/// The pulsar as it is put, read from the cell seven rows above and seven
/// columns left of its centre. It is the same in all four quarters and
/// when rows and columns change places.
spec fn pulsar_at_first(i: int, j: int) -> bool {
    pulsar_arm_at_first(off_middle(i), off_middle(j)) || pulsar_arm_at_first(
        off_middle(j),
        off_middle(i),
    )
}

/// The pulsar one step later.
spec fn pulsar_after_one(i: int, j: int) -> bool {
    pulsar_arm_after_one(off_middle(i), off_middle(j)) || pulsar_arm_after_one(
        off_middle(j),
        off_middle(i),
    )
}

/// The pulsar two steps later.
spec fn pulsar_after_two(i: int, j: int) -> bool {
    pulsar_arm_after_two(off_middle(i), off_middle(j)) || pulsar_arm_after_two(
        off_middle(j),
        off_middle(i),
    )
}

/// One step of the pulsar, for each of its three phases.
proof fn lemma_pulsar_phases(h: int, w: int)
    requires
        h >= 16,
        w >= 16,
    ensures
        forall|i: int, j: int|
            0 <= i < h && 0 <= j < w ==> #[trigger] pulsar_after_one(i, j) == survives(
                pulsar_at_first(i, j),
                around(|i: int, j: int| pulsar_at_first(i, j), h, w, i, j),
            ),
        forall|i: int, j: int|
            0 <= i < h && 0 <= j < w ==> #[trigger] pulsar_after_two(i, j) == survives(
                pulsar_after_one(i, j),
                around(|i: int, j: int| pulsar_after_one(i, j), h, w, i, j),
            ),
        forall|i: int, j: int|
            0 <= i < h && 0 <= j < w ==> #[trigger] pulsar_at_first(i, j) == survives(
                pulsar_after_two(i, j),
                around(|i: int, j: int| pulsar_after_two(i, j), h, w, i, j),
            ),
{
}

/// The rows of the pulsar pattern are the pulsar as it is put.
proof fn lemma_pulsar_rows()
    ensures
        pulsar().len() == 13,
        forall|p: int| 0 <= p < 13 ==> (#[trigger] pulsar()[p]).len() == 13,
        forall|p: int, q: int|
            0 <= p < 13 && 0 <= q < 13 ==> #[trigger] pulsar()[p][q] == pulsar_at_first(
                p + 1,
                q + 1,
            ),
{
    assert forall|q: int| 0 <= q < 13 implies #[trigger] pulsar_bars()[q] == (2 <= off_middle(
        q + 1,
    ) <= 4) by {}
    assert forall|q: int| 0 <= q < 13 implies #[trigger] pulsar_posts()[q] == (off_middle(q + 1)
        == 1 || off_middle(q + 1) == 6) by {}
    assert forall|q: int| 0 <= q < 13 implies !#[trigger] pulsar_gap()[q] by {}
}

/// The pulsar has period three. On a torus of at least sixteen rows and
/// sixteen columns and otherwise without live cells, three steps give a
/// pulsar back as it was put.
pub proof fn lemma_pulsar_oscillates(g: Grid, row: int, col: int)
    requires
        g.wf(),
        g.all_dead(),
        g.width >= 16,
        g.height >= 16,
    ensures
        g.stamped(pulsar(), row - 6, col - 6).steps(3) == g.stamped(pulsar(), row - 6, col - 6),
{
    let h = g.height as int;
    let w = g.width as int;
    let top = row - 7;
    let left = col - 7;
    let start = g.stamped(pulsar(), top + 1, left + 1);
    let first = |i: int, j: int| pulsar_at_first(i, j);
    let one = |i: int, j: int| pulsar_after_one(i, j);
    let two = |i: int, j: int| pulsar_after_two(i, j);
    lemma_pulsar_rows();
    lemma_stamped_shows(g, pulsar(), top + 1, left + 1);
    assert forall|i: int, j: int| 0 <= i < h && 0 <= j < w implies #[trigger] first(i, j)
        == shape_of(pulsar())(ring(i - 1, h), ring(j - 1, w)) by {}
    lemma_read_from(start, top, left, 1, 1, shape_of(pulsar()), first);
    lemma_pulsar_phases(h, w);
    lemma_shape_steps(start, top, left, first, one);
    let g1 = start.step();
    lemma_shape_steps(g1, top, left, one, two);
    let g2 = g1.step();
    lemma_shape_steps(g2, top, left, two, first);
    let g3 = g2.step();
    lemma_same_shape(g3, start, top, left, first);
    reveal_with_fuel(Grid::steps, 4);
    assert(start.steps(3) == g3);
}

} // verus!
