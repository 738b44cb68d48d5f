//! Reasoning about a whole generation at once. A grid is described by a
//! shape: a predicate that says, for each offset from a chosen cell, whether
//! the cell at that offset is alive. One generation later the grid shows the
//! shape that the rule makes of it, and two grids that show the same shape
//! from the same cell are equal.

use crate::grid::{
    lemma_cell_of_index, lemma_index_of_cell, lemma_inhabited, lemma_wrap_in_range,
    lemma_wrap_near, one_if, survives, Grid,
};
use vstd::arithmetic::div_mod::*;
use vstd::prelude::*;

verus! {

/// An offset less than `n` outside `0..n` brought back into it, as on a ring.
pub open spec fn ring(x: int, n: int) -> int {
    if x < 0 {
        x + n
    } else if x >= n {
        x - n
    } else {
        x
    }
}

/// How many of the eight offsets around `(i, j)` a shape marks alive, on a
/// ring of `height` rows and `width` columns.
pub open spec fn around(
    shape: spec_fn(int, int) -> bool,
    height: int,
    width: int,
    i: int,
    j: int,
) -> nat {
    let north = ring(i - 1, height);
    let south = ring(i + 1, height);
    let west = ring(j - 1, width);
    let east = ring(j + 1, width);
    one_if(shape(north, west)) + one_if(shape(north, j)) + one_if(shape(north, east)) + one_if(
        shape(i, west),
    ) + one_if(shape(i, east)) + one_if(shape(south, west)) + one_if(shape(south, j)) + one_if(
        shape(south, east),
    )
}

/// The state of the cell at offset `(i, j)` from `(top, left)`.
pub open spec fn seen(g: Grid, top: int, left: int, i: int, j: int) -> bool {
    g.alive(top + i, left + j)
}

/// Whether the grid, read from `(top, left)`, is exactly `shape`: the cell
/// at each offset within the dimensions is alive where the shape says so.
pub open spec fn shows(g: Grid, top: int, left: int, shape: spec_fn(int, int) -> bool) -> bool {
    forall|i: int, j: int|
        0 <= i < g.height && 0 <= j < g.width ==> #[trigger] seen(g, top, left, i, j) == shape(
            i,
            j,
        )
}

/// The shape that a pattern has: alive at the offsets of its live entries.
pub open spec fn shape_of(pattern: Seq<Seq<bool>>) -> spec_fn(int, int) -> bool {
    |i: int, j: int| 0 <= i < pattern.len() && 0 <= j < pattern[i].len() && pattern[i][j]
}

/// Whether a pattern fits the grid without overlapping itself.
pub open spec fn fits(g: Grid, pattern: Seq<Seq<bool>>) -> bool {
    &&& pattern.len() <= g.height
    &&& forall|i: int| 0 <= i < pattern.len() ==> (#[trigger] pattern[i]).len() <= g.width
}

/// Going less than once round outside the range and back on the ring names
/// the same coordinate of the torus.
pub proof fn lemma_ring(t: int, x: int, n: int)
    requires
        n > 0,
        -n <= x < 2 * n,
    ensures
        0 <= ring(x, n) < n,
        (t + ring(x, n)) % n == (t + x) % n,
{
    if x < 0 {
        lemma_mod_add_multiples_vanish(t + x, n);
    } else if x >= n {
        lemma_mod_add_multiples_vanish(t + x - n, n);
    }
}

/// Two offsets within the range that name the same coordinate are equal.
pub proof fn lemma_offsets_differ(t: int, a: int, b: int, n: int)
    requires
        0 <= a < n,
        0 <= b < n,
        (t + a) % n == (t + b) % n,
    ensures
        a == b,
{
    lemma_mod_equivalence(t + a, t + b, n);
    if a > b {
        lemma_small_mod((a - b) as nat, n as nat);
    } else if b > a {
        lemma_mod_equivalence(t + b, t + a, n);
        lemma_small_mod((b - a) as nat, n as nat);
    }
}

/// The next generation keeps the dimensions, and each of its cells, by
/// whatever name, is what the rule makes of the cell of that name.
pub proof fn lemma_step_alive(g: Grid, row: int, col: int)
    requires
        g.wf(),
        g.inhabited(),
    ensures
        g.step().wf(),
        g.step().width == g.width,
        g.step().height == g.height,
        g.step().alive(row, col) == g.next_alive(row, col),
{
    let h = g.height as int;
    let w = g.width as int;
    let r = g.wrap_row(row);
    let c = g.wrap_col(col);
    lemma_wrap_in_range(g, row, col);
    lemma_index_of_cell(g, r, c);
    assert(g.step().alive(row, col) == g.next_alive(r, c));
    lemma_add_mod_noop_right(-1, row, h);
    lemma_add_mod_noop_right(0, row, h);
    lemma_add_mod_noop_right(1, row, h);
    lemma_add_mod_noop_right(-1, col, w);
    lemma_add_mod_noop_right(0, col, w);
    lemma_add_mod_noop_right(1, col, w);
}

/// One generation on, a grid that shows a shape shows what the rule makes of
/// that shape.
pub proof fn lemma_shape_steps(
    g: Grid,
    top: int,
    left: int,
    shape: spec_fn(int, int) -> bool,
    next: spec_fn(int, int) -> bool,
)
    requires
        g.wf(),
        g.inhabited(),
        shows(g, top, left, shape),
        forall|i: int, j: int|
            0 <= i < g.height && 0 <= j < g.width ==> #[trigger] next(i, j) == survives(
                shape(i, j),
                around(shape, g.height as int, g.width as int, i, j),
            ),
    ensures
        g.step().wf(),
        g.step().width == g.width,
        g.step().height == g.height,
        shows(g.step(), top, left, next),
{
    let h = g.height as int;
    let w = g.width as int;
    lemma_step_alive(g, top, left);
    assert forall|i: int, j: int| 0 <= i < h && 0 <= j < w implies #[trigger] seen(
        g.step(),
        top,
        left,
        i,
        j,
    ) == next(i, j) by {
        lemma_step_alive(g, top + i, left + j);
        let north = ring(i - 1, h);
        let south = ring(i + 1, h);
        let west = ring(j - 1, w);
        let east = ring(j + 1, w);
        lemma_ring(top, i - 1, h);
        lemma_ring(top, i + 1, h);
        lemma_ring(left, j - 1, w);
        lemma_ring(left, j + 1, w);
        assert(g.alive(top + i, left + j) == seen(g, top, left, i, j));
        assert(g.alive(top + i - 1, left + j - 1) == seen(g, top, left, north, west));
        assert(g.alive(top + i - 1, left + j) == seen(g, top, left, north, j));
        assert(g.alive(top + i - 1, left + j + 1) == seen(g, top, left, north, east));
        assert(g.alive(top + i, left + j - 1) == seen(g, top, left, i, west));
        assert(g.alive(top + i, left + j + 1) == seen(g, top, left, i, east));
        assert(g.alive(top + i + 1, left + j - 1) == seen(g, top, left, south, west));
        assert(g.alive(top + i + 1, left + j) == seen(g, top, left, south, j));
        assert(g.alive(top + i + 1, left + j + 1) == seen(g, top, left, south, east));
        assert(g.neighbors(top + i, left + j) == around(shape, h, w, i, j));
    }
}

/// Two grids of the same dimensions that show the same shape from the same
/// cell are the same grid.
pub proof fn lemma_same_shape(
    g: Grid,
    other: Grid,
    top: int,
    left: int,
    shape: spec_fn(int, int) -> bool,
)
    requires
        g.wf(),
        other.wf(),
        g.width == other.width,
        g.height == other.height,
        shows(g, top, left, shape),
        shows(other, top, left, shape),
    ensures
        g == other,
{
    let h = g.height as int;
    let w = g.width as int;
    assert forall|k: int| 0 <= k < g.cells.len() implies g.cells[k] == other.cells[k] by {
        lemma_inhabited(g);
        lemma_cell_of_index(g, k);
        let r = k / w;
        let c = k % w;
        let i = (r - top) % h;
        let j = (c - left) % w;
        lemma_mod_bound(r - top, h);
        lemma_mod_bound(c - left, w);
        lemma_add_mod_noop_right(top, r - top, h);
        lemma_add_mod_noop_right(left, c - left, w);
        lemma_wrap_near(r, h);
        lemma_wrap_near(c, w);
        assert(seen(g, top, left, i, j) == g.cells[k]);
        assert(seen(other, top, left, i, j) == other.cells[k]);
    }
    assert(g.cells =~= other.cells);
}

/// A grid that shows a shape shows every shape that agrees with it within
/// the dimensions.
pub proof fn lemma_shows_alike(
    g: Grid,
    top: int,
    left: int,
    shape: spec_fn(int, int) -> bool,
    like: spec_fn(int, int) -> bool,
)
    requires
        shows(g, top, left, shape),
        forall|i: int, j: int|
            0 <= i < g.height && 0 <= j < g.width ==> shape(i, j) == #[trigger] like(i, j),
    ensures
        shows(g, top, left, like),
{
    assert forall|i: int, j: int| 0 <= i < g.height && 0 <= j < g.width implies #[trigger] seen(
        g,
        top,
        left,
        i,
        j,
    ) == like(i, j) by {
        assert(shape(i, j) == like(i, j));
    }
}

/// Reading a grid from a cell `down` rows above and `right` columns left
/// of where it shows a shape, it shows that shape moved down and right by
/// as much, round the torus.
pub proof fn lemma_read_from(
    g: Grid,
    top: int,
    left: int,
    down: int,
    right: int,
    shape: spec_fn(int, int) -> bool,
    moved: spec_fn(int, int) -> bool,
)
    requires
        g.inhabited(),
        0 <= down < g.height,
        0 <= right < g.width,
        shows(g, top + down, left + right, shape),
        forall|i: int, j: int|
            0 <= i < g.height && 0 <= j < g.width ==> #[trigger] moved(i, j) == shape(
                ring(i - down, g.height as int),
                ring(j - right, g.width as int),
            ),
    ensures
        shows(g, top, left, moved),
{
    let h = g.height as int;
    let w = g.width as int;
    assert forall|i: int, j: int| 0 <= i < h && 0 <= j < w implies #[trigger] seen(
        g,
        top,
        left,
        i,
        j,
    ) == moved(i, j) by {
        lemma_ring(top + down, i - down, h);
        lemma_ring(left + right, j - right, w);
        assert(seen(g, top, left, i, j) == seen(
            g,
            top + down,
            left + right,
            ring(i - down, h),
            ring(j - right, w),
        ));
    }
}

/// A pattern stamped on a grid without live cells, where it fits, shows
/// its own shape from the cell where it was put.
pub proof fn lemma_stamped_shows(g: Grid, pattern: Seq<Seq<bool>>, top: int, left: int)
    requires
        g.wf(),
        g.all_dead(),
        fits(g, pattern),
    ensures
        g.stamped(pattern, top, left).wf(),
        shows(g.stamped(pattern, top, left), top, left, shape_of(pattern)),
{
    let h = g.height as int;
    let w = g.width as int;
    let s = g.stamped(pattern, top, left);
    assert forall|i: int, j: int| 0 <= i < h && 0 <= j < w implies #[trigger] seen(
        s,
        top,
        left,
        i,
        j,
    ) == shape_of(pattern)(i, j) by {
        let r = g.wrap_row(top + i);
        let c = g.wrap_col(left + j);
        lemma_wrap_in_range(g, top + i, left + j);
        lemma_index_of_cell(g, r, c);
        lemma_wrap_near(r, h);
        lemma_wrap_near(c, w);
        assert(seen(s, top, left, i, j) == g.covered(pattern, top, left, r, c));
        if g.covered(pattern, top, left, r, c) {
            let (p, q) = choose|p: int, q: int|
                0 <= p < pattern.len() && 0 <= q < pattern[p].len() && #[trigger] pattern[p][q]
                    && g.same_cell(top + p, left + q, r, c);
            assert(pattern[p].len() <= w);
            lemma_offsets_differ(top, p, i, h);
            lemma_offsets_differ(left, q, j, w);
        }
        if shape_of(pattern)(i, j) {
            assert(pattern[i][j] && g.same_cell(top + i, left + j, r, c));
        }
    }
}

} // verus!
