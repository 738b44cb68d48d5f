//! Stamping: how a pattern of live and dead entries is merged into a grid,
//! one entry and one row at a time, and the two patterns that the universe
//! knows by name.

use crate::grid::{
    lemma_index_of_cell, lemma_inhabited, lemma_same_cell_index, lemma_wrap_in_range, Grid,
};
use vstd::arithmetic::div_mod::*;
use vstd::prelude::*;

verus! {

/// The glider, row by row:
///
/// ```text
/// . X .
/// . . X
/// X X X
/// ```
pub open spec fn glider() -> Seq<Seq<bool>> {
    seq![seq![false, true, false], seq![false, false, true], seq![true, true, true]]
}

/// The row of the pulsar that holds two bars of three live cells.
pub open spec fn pulsar_bars() -> Seq<bool> {
    seq![false, false, true, true, true, false, false, false, true, true, true, false, false]
}

/// The row of the pulsar without live cells.
pub open spec fn pulsar_gap() -> Seq<bool> {
    seq![false, false, false, false, false, false, false, false, false, false, false, false, false]
}

/// The row of the pulsar that holds one live cell of each of its four
/// upright bars.
pub open spec fn pulsar_posts() -> Seq<bool> {
    seq![true, false, false, false, false, true, false, true, false, false, false, false, true]
}

/// The pulsar, a period-3 oscillator thirteen cells square, row by row.
pub open spec fn pulsar() -> Seq<Seq<bool>> {
    seq![
        pulsar_bars(),
        pulsar_gap(),
        pulsar_posts(),
        pulsar_posts(),
        pulsar_posts(),
        pulsar_bars(),
        pulsar_gap(),
        pulsar_bars(),
        pulsar_posts(),
        pulsar_posts(),
        pulsar_posts(),
        pulsar_gap(),
        pulsar_bars(),
    ]
}

/// Stamping a pattern without rows, or a single row without entries, changes
/// nothing.
pub proof fn lemma_stamp_nothing(g: Grid, top: int, left: int)
    ensures
        g.stamped(Seq::empty(), top, left) == g,
        g.stamped(seq![Seq::empty()], top, left) == g,
{
    assert(g.stamped(Seq::empty(), top, left).cells =~= g.cells);
    assert(g.stamped(seq![Seq::empty()], top, left).cells =~= g.cells);
}

/// Where a pattern starts matters only up to wrapping.
pub proof fn lemma_stamp_wrapped(g: Grid, pattern: Seq<Seq<bool>>, top: int, left: int, t: int, l: int)
    requires
        g.wf(),
        g.wrap_row(t) == g.wrap_row(top),
        g.wrap_col(l) == g.wrap_col(left),
    ensures
        g.stamped(pattern, t, l) == g.stamped(pattern, top, left),
{
    let h = g.height as int;
    let w = g.width as int;
    assert forall|i: int| 0 <= i < g.cells.len() implies g.stamped(pattern, t, l).cells[i]
        == g.stamped(pattern, top, left).cells[i] by {
        lemma_inhabited(g);
        let r = i / w;
        let c = i % w;
        assert forall|a: int, b: int|
            #[trigger] g.same_cell(t + a, l + b, r, c) == g.same_cell(top + a, left + b, r, c) by {
            lemma_add_mod_noop(t, a, h);
            lemma_add_mod_noop(top, a, h);
            lemma_add_mod_noop(l, b, w);
            lemma_add_mod_noop(left, b, w);
        }
    }
    assert(g.stamped(pattern, t, l).cells =~= g.stamped(pattern, top, left).cells);
}

/// Marking no cell changes nothing.
pub proof fn lemma_mark_nothing(g: Grid)
    ensures
        g.marked(Seq::empty()) == g,
{
    assert(g.marked(Seq::empty()).cells =~= g.cells);
}

/// Marking one more listed cell lights that cell.
pub proof fn lemma_mark_entry(g: Grid, marks: Seq<(int, int)>, k: int)
    requires
        g.wf(),
        0 <= k < marks.len(),
    ensures
        g.marked(marks.take(k + 1)) == g.marked(marks.take(k)).lit(marks[k].0, marks[k].1),
{
    let w = g.width as int;
    let short = marks.take(k);
    let long = marks.take(k + 1);
    let before = g.marked(short);
    let after = before.lit(marks[k].0, marks[k].1);
    lemma_inhabited(g);
    if g.inhabited() {
        lemma_wrap_in_range(g, marks[k].0, marks[k].1);
        lemma_index_of_cell(g, g.wrap_row(marks[k].0), g.wrap_col(marks[k].1));
    }
    assert forall|i: int| 0 <= i < g.cells.len() implies g.marked(long).cells[i]
        == after.cells[i] by {
        let r = i / w;
        let c = i % w;
        let hit = g.same_cell(marks[k].0, marks[k].1, r, c);
        lemma_same_cell_index(g, marks[k].0, marks[k].1, i);
        assert(g.listed(long, r, c) == (g.listed(short, r, c) || hit)) by {
            if g.listed(long, r, c) {
                let n = choose|n: int|
                    0 <= n < long.len() && g.same_cell((#[trigger] long[n]).0, long[n].1, r, c);
                if n < k {
                    assert(short[n] == long[n]);
                    assert(g.listed(short, r, c));
                }
            }
            if g.listed(short, r, c) {
                let n = choose|n: int|
                    0 <= n < short.len() && g.same_cell((#[trigger] short[n]).0, short[n].1, r, c);
                assert(long[n] == short[n]);
            }
            if hit {
                assert(long[k] == marks[k]);
            }
        }
    }
    assert(g.marked(long).cells =~= after.cells);
}

/// Stamping one more entry of a row: a live entry lights the cell it lands
/// on, a dead entry changes nothing.
pub proof fn lemma_stamp_entry(g: Grid, line: Seq<bool>, j: int, top: int, left: int)
    requires
        g.wf(),
        0 <= j < line.len(),
    ensures
        g.stamped(seq![line.take(j + 1)], top, left) == (if line[j] {
            g.stamped(seq![line.take(j)], top, left).lit(top, left + j)
        } else {
            g.stamped(seq![line.take(j)], top, left)
        }),
{
    let w = g.width as int;
    let short = seq![line.take(j)];
    let long = seq![line.take(j + 1)];
    let before = g.stamped(short, top, left);
    let after = if line[j] {
        before.lit(top, left + j)
    } else {
        before
    };
    lemma_inhabited(g);
    if g.inhabited() {
        lemma_wrap_in_range(g, top, left + j);
        lemma_index_of_cell(g, g.wrap_row(top), g.wrap_col(left + j));
    }
    assert forall|i: int| 0 <= i < g.cells.len() implies g.stamped(long, top, left).cells[i]
        == after.cells[i] by {
        let r = i / w;
        let c = i % w;
        let hit = line[j] && g.same_cell(top, left + j, r, c);
        lemma_same_cell_index(g, top, left + j, i);
        assert(before.cells[i] == (g.cells[i] || g.covered(short, top, left, r, c)));
        assert(after.cells[i] == (before.cells[i] || hit));
        assert(g.covered(long, top, left, r, c) == (g.covered(short, top, left, r, c) || hit)) by {
            if g.covered(long, top, left, r, c) {
                let (a, b) = choose|a: int, b: int|
                    0 <= a < long.len() && 0 <= b < long[a].len() && #[trigger] long[a][b]
                        && g.same_cell(top + a, left + b, r, c);
                assert(a == 0);
                if b < j {
                    assert(short[a][b]);
                    assert(g.covered(short, top, left, r, c));
                } else {
                    assert(b == j);
                    assert(hit);
                }
            }
            if g.covered(short, top, left, r, c) {
                let (a, b) = choose|a: int, b: int|
                    0 <= a < short.len() && 0 <= b < short[a].len() && #[trigger] short[a][b]
                        && g.same_cell(top + a, left + b, r, c);
                assert(long[a][b]);
            }
            if hit {
                assert(long[0][j]);
                assert(g.same_cell(top + 0, left + j, r, c));
            }
        }
    }
    assert(g.stamped(long, top, left).cells =~= after.cells);
}

/// Stamping the rows of a pattern in two parts, the second below the first,
/// is stamping the whole pattern.
pub proof fn lemma_stamp_rows(g: Grid, upper: Seq<Seq<bool>>, lower: Seq<Seq<bool>>, top: int, left: int)
    requires
        g.wf(),
    ensures
        g.stamped(upper, top, left).stamped(lower, top + upper.len(), left) == g.stamped(
            upper + lower,
            top,
            left,
        ),
{
    let w = g.width as int;
    let whole = upper + lower;
    let first = g.stamped(upper, top, left);
    let n = upper.len() as int;
    assert forall|i: int| 0 <= i < g.cells.len() implies first.stamped(lower, top + n, left).cells[i]
        == g.stamped(whole, top, left).cells[i] by {
        let r = i / w;
        let c = i % w;
        if g.covered(upper, top, left, r, c) {
            let (a, b) = choose|a: int, b: int|
                0 <= a < upper.len() && 0 <= b < upper[a].len() && #[trigger] upper[a][b]
                    && g.same_cell(top + a, left + b, r, c);
            assert(whole[a][b]);
        }
        if first.covered(lower, top + n, left, r, c) {
            let (a, b) = choose|a: int, b: int|
                0 <= a < lower.len() && 0 <= b < lower[a].len() && #[trigger] lower[a][b]
                    && first.same_cell(top + n + a, left + b, r, c);
            assert(whole[n + a][b]);
            assert(g.same_cell(top + (n + a), left + b, r, c));
        }
        if g.covered(whole, top, left, r, c) {
            let (a, b) = choose|a: int, b: int|
                0 <= a < whole.len() && 0 <= b < whole[a].len() && #[trigger] whole[a][b]
                    && g.same_cell(top + a, left + b, r, c);
            if a < n {
                assert(upper[a][b]);
            } else {
                assert(lower[a - n][b]);
                assert(first.same_cell(top + n + (a - n), left + b, r, c));
            }
        }
    }
    assert(first.stamped(lower, top + n, left).cells =~= g.stamped(whole, top, left).cells);
}

} // verus!
