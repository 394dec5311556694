//! What holds of every universe, stated over the grid model.

use vstd::prelude::*;
use vstd::arithmetic::div_mod::lemma_mod_add_multiples_vanish;
use vstd::arithmetic::div_mod::lemma_mod_self_0;
use vstd::arithmetic::div_mod::lemma_small_mod;
use crate::bits::as_bit;
use crate::bits::lemma_bit_of_is_binary;
use crate::grid::Grid;
use crate::grid::next_state;
use crate::grid::lemma_bits_determine_cells;
use crate::grid::lemma_index_bounds;
use crate::grid::lemma_index_covers;

verus! {

/// A generation has one successor: two grids that are each the next
/// generation of the same grid are the same grid, byte for byte.
pub proof fn lemma_next_generation_unique(g: Grid, a: Grid, b: Grid)
    requires
        g.wf(),
        g.is_next_generation(a),
        g.is_next_generation(b),
    ensures
        a == b,
{
    assert forall|i: int| 0 <= i < a.bit_len() implies a.bit(i) == b.bit(i) by {
        if i < g.area() {
            lemma_index_covers(g, i);
            let row = i / (g.width as int);
            let col = i % (g.width as int);
            assert(a.get(row, col) == b.get(row, col));
        } else {
            assert(a.bit(i) == g.bit(i));
            assert(b.bit(i) == g.bit(i));
        }
    }
    lemma_bits_determine_cells(a, b);
}

/// Every cell is 0 or 1, and so is the state that the rule gives.
pub proof fn lemma_cell_is_binary(g: Grid, row: int, col: int)
    requires
        g.wf(),
        g.in_bounds(row, col),
    ensures
        g.get(row, col) <= 1,
{
    lemma_index_bounds(g, row, col);
    lemma_bit_of_is_binary(g.cells[g.index(row, col) / 8], g.index(row, col) % 8);
}

/// The rule, row by row: for a cell that is alive or dead and has from none
/// to eight live neighbours, the state after one generation is the one that
/// the table gives, and the five rows of the table leave no case out.
pub proof fn lemma_rule_table(g: Grid, next: Grid, row: int, col: int)
    requires
        g.wf(),
        g.is_next_generation(next),
        g.in_bounds(row, col),
    ensures
        g.get(row, col) == 0 || g.get(row, col) == 1,
        0 <= g.live_neighbor_count(row, col) <= 8,
        g.get(row, col) == 1 && g.live_neighbor_count(row, col) < 2 ==> next.get(row, col) == 0,
        g.get(row, col) == 1 && (g.live_neighbor_count(row, col) == 2 || g.live_neighbor_count(
            row,
            col,
        ) == 3) ==> next.get(row, col) == 1,
        g.get(row, col) == 1 && g.live_neighbor_count(row, col) > 3 ==> next.get(row, col) == 0,
        g.get(row, col) == 0 && g.live_neighbor_count(row, col) == 3 ==> next.get(row, col) == 1,
        g.get(row, col) == 0 && g.live_neighbor_count(row, col) != 3 ==> next.get(row, col) == 0,
{
    lemma_cell_is_binary(g, row, col);
    lemma_neighbor_count_bounds(g, row, col);
    assert(next.get(row, col) == next_state(g.get(row, col), g.live_neighbor_count(row, col)));
}

/// A cell reached by wrapping is a cell of the grid, and is 0 or 1.
pub proof fn lemma_relative_is_binary(g: Grid, row: int, col: int, delta_row: int, delta_col: int)
    requires
        g.wf(),
    ensures
        g.in_bounds(g.wrap_row(row, delta_row), g.wrap_col(col, delta_col)),
        g.get_relative(row, col, delta_row, delta_col) <= 1,
{
    lemma_cell_is_binary(g, g.wrap_row(row, delta_row), g.wrap_col(col, delta_col));
}

/// A cell has from none to eight live neighbours.
pub proof fn lemma_neighbor_count_bounds(g: Grid, row: int, col: int)
    requires
        g.wf(),
    ensures
        0 <= g.live_neighbor_count(row, col) <= 8,
{
    let up = g.height - 1;
    let left = g.width - 1;
    lemma_relative_is_binary(g, row, col, up, left);
    lemma_relative_is_binary(g, row, col, up, 0);
    lemma_relative_is_binary(g, row, col, up, 1);
    lemma_relative_is_binary(g, row, col, 0, left);
    lemma_relative_is_binary(g, row, col, 0, 1);
    lemma_relative_is_binary(g, row, col, 1, left);
    lemma_relative_is_binary(g, row, col, 1, 0);
    lemma_relative_is_binary(g, row, col, 1, 1);
}

/// The grid is a torus: each of the eight cells one step away from a cell,
/// the step taken across the border where the cell lies on one, counts as
/// its neighbour.
pub proof fn lemma_neighbors_wrap(g: Grid, row: int, col: int, delta_row: int, delta_col: int)
    requires
        g.wf(),
        -1 <= delta_row <= 1,
        -1 <= delta_col <= 1,
        delta_row != 0 || delta_col != 0,
    ensures
        g.live_neighbor_count(row, col) >= g.get_relative(row, col, delta_row, delta_col),
{
    let up = g.height - 1;
    let left = g.width - 1;
    lemma_relative_is_binary(g, row, col, up, left);
    lemma_relative_is_binary(g, row, col, up, 0);
    lemma_relative_is_binary(g, row, col, up, 1);
    lemma_relative_is_binary(g, row, col, 0, left);
    lemma_relative_is_binary(g, row, col, 0, 1);
    lemma_relative_is_binary(g, row, col, 1, left);
    lemma_relative_is_binary(g, row, col, 1, 0);
    lemma_relative_is_binary(g, row, col, 1, 1);
    lemma_mod_add_multiples_vanish(row - 1, g.height as int);
    lemma_mod_add_multiples_vanish(col - 1, g.width as int);
    assert(g.wrap_row(row, up) == g.wrap_row(row, -1));
    assert(g.wrap_col(col, left) == g.wrap_col(col, -1));
}

/// The corners meet: a live cell in the last row and last column is a
/// neighbour of the cell in the first row and first column, and the other
/// way round.
pub proof fn lemma_corners_are_neighbors(g: Grid)
    requires
        g.wf(),
    ensures
        g.live_neighbor_count(0, 0) >= g.get(g.height - 1, g.width - 1),
        g.live_neighbor_count(g.height - 1, g.width - 1) >= g.get(0, 0),
{
    let h = g.height as int;
    let w = g.width as int;
    lemma_neighbors_wrap(g, 0, 0, -1, -1);
    lemma_mod_add_multiples_vanish(-1, h);
    lemma_mod_add_multiples_vanish(-1, w);
    lemma_small_mod((h - 1) as nat, h as nat);
    lemma_small_mod((w - 1) as nat, w as nat);
    assert(g.wrap_row(0, -1) == h - 1);
    assert(g.wrap_col(0, -1) == w - 1);
    lemma_neighbors_wrap(g, h - 1, w - 1, 1, 1);
    lemma_mod_self_0(h);
    lemma_mod_self_0(w);
    assert(g.wrap_row(h - 1, 1) == 0);
    assert(g.wrap_col(w - 1, 1) == 0);
}

/// Stamping twice is stamping once: a second write of the same value to
/// the cells around the same anchor leaves the grid as the first write left
/// it, with each cell of the pattern holding the value.
pub proof fn lemma_stamp_is_idempotent(
    g: Grid,
    once: Grid,
    twice: Grid,
    row: int,
    col: int,
    offsets: Seq<(i32, i32)>,
    value: u8,
)
    requires
        g.wf(),
        g.is_written(once, g.stamp_targets(row, col, offsets), value),
        once.is_written(twice, once.stamp_targets(row, col, offsets), value),
    ensures
        twice == once,
        forall|k: int|
            0 <= k < offsets.len() ==> once.get_relative(
                row,
                col,
                (#[trigger] offsets[k]).0 as int,
                offsets[k].1 as int,
            ) == as_bit(value),
{
    let targets = g.stamp_targets(row, col, offsets);
    assert(once.stamp_targets(row, col, offsets) =~= targets);
    assert forall|i: int| 0 <= i < once.bit_len() implies once.bit(i) == twice.bit(i) by {
        assert(twice.bit(i) == if targets.contains(i) {
            as_bit(value)
        } else {
            once.bit(i)
        });
        assert(once.bit(i) == if targets.contains(i) {
            as_bit(value)
        } else {
            g.bit(i)
        });
    }
    lemma_bits_determine_cells(once, twice);
    assert forall|k: int| 0 <= k < offsets.len() implies once.get_relative(
        row,
        col,
        (#[trigger] offsets[k]).0 as int,
        offsets[k].1 as int,
    ) == as_bit(value) by {
        let delta_row = offsets[k].0 as int;
        let delta_col = offsets[k].1 as int;
        let target = g.relative_index(row, col, delta_row, delta_col);
        lemma_relative_is_binary(g, row, col, delta_row, delta_col);
        lemma_index_bounds(g, g.wrap_row(row, delta_row), g.wrap_col(col, delta_col));
        assert(targets.contains(target));
        assert(once.bit(target) == as_bit(value));
    }
}

/// What is written is read: after the cells at `coords` were brought to
/// life, the bit of each of them is 1 and every other bit of the buffer is
/// what it was.
pub proof fn lemma_written_cells_read_back(g: Grid, next: Grid, coords: Seq<(u32, u32)>)
    requires
        g.wf(),
        forall|k: int|
            0 <= k < coords.len() ==> g.in_bounds(
                (#[trigger] coords[k]).0 as int,
                coords[k].1 as int,
            ),
        g.is_written(next, g.cell_targets(coords), 1),
    ensures
        forall|k: int|
            0 <= k < coords.len() ==> next.bit(
                (#[trigger] coords[k]).0 * g.width + coords[k].1,
            ) == 1,
        forall|i: int|
            0 <= i < g.bit_len() && !(exists|k: int|
                0 <= k < coords.len() && (#[trigger] coords[k]).0 * g.width + coords[k].1 == i)
                ==> next.bit(i) == g.bit(i),
{
    let targets = g.cell_targets(coords);
    assert forall|k: int| 0 <= k < coords.len() implies next.bit(
        (#[trigger] coords[k]).0 * g.width + coords[k].1,
    ) == 1 by {
        let i = g.index(coords[k].0 as int, coords[k].1 as int);
        lemma_index_bounds(g, coords[k].0 as int, coords[k].1 as int);
        assert(targets.contains(i));
        assert(next.bit(i) == as_bit(1));
    }
    assert forall|i: int|
        0 <= i < g.bit_len() && !(exists|k: int|
            0 <= k < coords.len() && (#[trigger] coords[k]).0 * g.width + coords[k].1
                == i) implies next.bit(i) == g.bit(i) by {
        if targets.contains(i) {
            let k = choose|k: int|
                0 <= k < coords.len() && g.index(
                    (#[trigger] coords[k]).0 as int,
                    coords[k].1 as int,
                ) == i;
            assert(coords[k].0 * g.width + coords[k].1 == i);
        }
        assert(next.bit(i) == if targets.contains(i) {
            as_bit(1)
        } else {
            g.bit(i)
        });
    }
}

} // verus!
