//! The mathematical model of a universe: its dimensions and its packed cells,
//! with the reading of a cell, the count of its neighbours on the torus and
//! the rule that decides its next state.

use vstd::prelude::*;
use vstd::arithmetic::div_mod::lemma_fundamental_div_mod_converse;
use vstd::arithmetic::div_mod::lemma_fundamental_div_mod;
use crate::bits::bit_of;
use crate::bits::write_bit;
use crate::bits::as_bit;
use crate::bits::lemma_write_bit_reads;
use crate::bits::lemma_bits_determine_byte;
use crate::bits::lemma_zero_byte;

verus! {

/// A grid of `width` by `height` cells, one bit per cell, row after row.
/// Cell number `i` is bit `i % 8` of byte `i / 8`.
pub struct Grid {
    pub width: nat,
    pub height: nat,
    pub cells: Seq<u8>,
}

/// The number of bytes that hold `width * height` bits and no byte more.
pub open spec fn packed_len(width: nat, height: nat) -> nat {
    ((width * height + 7) / 8) as nat
}

/// The state of a cell in the next generation, from its state now and the
/// number of its live neighbours. A live cell survives with two or three
/// live neighbours; a dead cell comes alive with exactly three.
pub open spec fn next_state(current: u8, neighbors: int) -> u8 {
    if current == 1 {
        if neighbors < 2 {
            0
        } else if neighbors == 2 || neighbors == 3 {
            1
        } else {
            0
        }
    } else {
        if neighbors == 3 {
            1
        } else {
            0
        }
    }
}

impl Grid {
    /// Both dimensions are positive and fit the machine, and the buffer has a
    /// bit for every cell.
    pub open spec fn wf(self) -> bool {
        &&& 0 < self.width <= u32::MAX
        &&& 0 < self.height <= u32::MAX
        &&& self.width * self.height <= usize::MAX
        &&& self.width * self.height <= 8 * self.cells.len()
    }

    /// The number of cells.
    pub open spec fn area(self) -> int {
        (self.width * self.height) as int
    }

    /// The number of bits in the buffer, those behind the last cell included.
    pub open spec fn bit_len(self) -> int {
        (8 * self.cells.len()) as int
    }

    /// `(row, col)` names a cell of the grid.
    pub open spec fn in_bounds(self, row: int, col: int) -> bool {
        0 <= row < self.height && 0 <= col < self.width
    }

    /// The number of the cell at `(row, col)`.
    pub open spec fn index(self, row: int, col: int) -> int {
        row * self.width + col
    }

    /// Bit number `i` of the buffer.
    pub open spec fn bit(self, i: int) -> u8 {
        bit_of(self.cells[i / 8], i % 8)
    }

    /// The cell at `(row, col)`: 1 when alive, 0 when dead.
    pub open spec fn get(self, row: int, col: int) -> u8 {
        self.bit(self.index(row, col))
    }

    /// The row that lies `delta` rows below `row` on the torus.
    pub open spec fn wrap_row(self, row: int, delta: int) -> int {
        (row + delta) % (self.height as int)
    }

    /// The column that lies `delta` columns right of `col` on the torus.
    pub open spec fn wrap_col(self, col: int, delta: int) -> int {
        (col + delta) % (self.width as int)
    }

    /// The cell that lies `(delta_row, delta_col)` away from `(row, col)` on
    /// the torus.
    pub open spec fn get_relative(self, row: int, col: int, delta_row: int, delta_col: int) -> u8 {
        self.get(self.wrap_row(row, delta_row), self.wrap_col(col, delta_col))
    }

    /// The number of the cell that lies `(delta_row, delta_col)` away from
    /// `(row, col)` on the torus.
    pub open spec fn relative_index(self, row: int, col: int, delta_row: int, delta_col: int) -> int {
        self.index(self.wrap_row(row, delta_row), self.wrap_col(col, delta_col))
    }

    /// How many of the eight cells around `(row, col)` are alive. The eight
    /// are reached by the row offsets `height - 1`, 0, 1 and the column
    /// offsets `width - 1`, 0, 1, the pair of the two middle ones left out.
    /// On a grid with a single row or column a cell is met more than once.
    pub open spec fn live_neighbor_count(self, row: int, col: int) -> int {
        let up = self.height - 1;
        let left = self.width - 1;
        self.get_relative(row, col, up, left) + self.get_relative(row, col, up, 0)
            + self.get_relative(row, col, up, 1) + self.get_relative(row, col, 0, left)
            + self.get_relative(row, col, 0, 1) + self.get_relative(row, col, 1, left)
            + self.get_relative(row, col, 1, 0) + self.get_relative(row, col, 1, 1)
    }

    /// The grid after a write of `value` to bit number `i`: the byte that
    /// holds the bit is read, the bit in it cleared or set, and the byte put
    /// back.
    pub open spec fn with_bit(self, i: int, value: u8) -> Grid {
        Grid {
            width: self.width,
            height: self.height,
            cells: self.cells.update(i / 8, write_bit(self.cells[i / 8], i % 8, value)),
        }
    }

    /// `next` has the dimensions and the buffer length of `self`.
    pub open spec fn same_shape(self, next: Grid) -> bool {
        &&& next.width == self.width
        &&& next.height == self.height
        &&& next.cells.len() == self.cells.len()
    }

    /// `next` is `self` one generation later: every cell has the state that
    /// the rule gives it from the cells of `self`, and the bits behind the
    /// last cell are those of `self`.
    pub open spec fn is_next_generation(self, next: Grid) -> bool {
        &&& self.same_shape(next)
        &&& forall|row: int, col: int|
            self.in_bounds(row, col) ==> #[trigger] next.get(row, col) == next_state(
                self.get(row, col),
                self.live_neighbor_count(row, col),
            )
        &&& forall|i: int|
            self.area() <= i < self.bit_len() ==> #[trigger] next.bit(i) == self.bit(i)
    }

    /// `next` is `self` after a write of `value` to every bit whose number
    /// is in `targets`, every other bit as it was.
    pub open spec fn is_written(self, next: Grid, targets: Set<int>, value: u8) -> bool {
        &&& self.same_shape(next)
        &&& forall|i: int|
            0 <= i < self.bit_len() ==> #[trigger] next.bit(i) == if targets.contains(i) {
                as_bit(value)
            } else {
                self.bit(i)
            }
    }

    /// The numbers of the cells that lie away from `(row, col)` by one of
    /// `offsets`, each a pair of a row offset and a column offset.
    pub open spec fn stamp_targets(self, row: int, col: int, offsets: Seq<(i32, i32)>) -> Set<int> {
        Set::new(
            |i: int|
                exists|k: int|
                    0 <= k < offsets.len() && self.relative_index(
                        row,
                        col,
                        (#[trigger] offsets[k]).0 as int,
                        offsets[k].1 as int,
                    ) == i,
        )
    }

    /// The numbers of the cells at the coordinates `coords`, each a pair of
    /// a row and a column.
    pub open spec fn cell_targets(self, coords: Seq<(u32, u32)>) -> Set<int> {
        Set::new(
            |i: int|
                exists|k: int|
                    0 <= k < coords.len() && self.index(
                        (#[trigger] coords[k]).0 as int,
                        coords[k].1 as int,
                    ) == i,
        )
    }

    /// Every byte of the buffer is zero.
    pub open spec fn is_blank(self) -> bool {
        forall|k: int| 0 <= k < self.cells.len() ==> #[trigger] self.cells[k] == 0
    }
}

/// The number of a cell of the grid is below the number of cells, so its bit
/// lies in the buffer.
pub proof fn lemma_index_bounds(g: Grid, row: int, col: int)
    requires
        g.wf(),
        g.in_bounds(row, col),
    ensures
        0 <= g.index(row, col) < g.area(),
        g.index(row, col) < g.bit_len(),
        0 <= g.index(row, col) / 8 < g.cells.len(),
        g.index(row, col) / (g.width as int) == row,
        g.index(row, col) % (g.width as int) == col,
{
    let w = g.width as int;
    let h = g.height as int;
    assert(0 <= row * w && row * w + w <= h * w) by (nonlinear_arith)
        requires
            0 <= row < h,
            0 < w,
    ;
    assert(h * w == w * h) by (nonlinear_arith);
    lemma_fundamental_div_mod_converse(g.index(row, col), w, row, col);
}

/// Every number below the number of cells is the number of one cell.
pub proof fn lemma_index_covers(g: Grid, i: int)
    requires
        g.wf(),
        0 <= i < g.area(),
    ensures
        g.in_bounds(i / (g.width as int), i % (g.width as int)),
        g.index(i / (g.width as int), i % (g.width as int)) == i,
{
    let w = g.width as int;
    let h = g.height as int;
    lemma_fundamental_div_mod(i, w);
    assert(0 <= i / w < h) by (nonlinear_arith)
        requires
            0 <= i < w * h,
            0 < w,
            i == w * (i / w) + i % w,
            0 <= i % w < w,
    ;
    assert(w * (i / w) == (i / w) * w) by (nonlinear_arith);
}

/// A write to one bit is read back at that bit and leaves the others alone.
pub proof fn lemma_with_bit_reads(g: Grid, i: int, value: u8, j: int)
    requires
        0 <= i < g.bit_len(),
        0 <= j < g.bit_len(),
    ensures
        g.same_shape(g.with_bit(i, value)),
        g.with_bit(i, value).bit(j) == if j == i {
            as_bit(value)
        } else {
            g.bit(j)
        },
{
    if j / 8 == i / 8 {
        lemma_write_bit_reads(g.cells[i / 8], i % 8, value, j % 8);
    }
}

/// Two buffers of one length with the same bits are the same buffer.
pub proof fn lemma_bits_determine_cells(a: Grid, b: Grid)
    requires
        a.same_shape(b),
        forall|i: int| 0 <= i < a.bit_len() ==> a.bit(i) == b.bit(i),
    ensures
        a == b,
{
    assert forall|k: int| 0 <= k < a.cells.len() implies a.cells[k] == b.cells[k] by {
        assert forall|pos: int| 0 <= pos < 8 implies bit_of(a.cells[k], pos) == bit_of(
            b.cells[k],
            pos,
        ) by {
            let i = 8 * k + pos;
            assert(i / 8 == k && i % 8 == pos);
            assert(a.bit(i) == b.bit(i));
        }
        lemma_bits_determine_byte(a.cells[k], b.cells[k]);
    }
    assert(a.cells =~= b.cells);
}

/// In a blank grid every bit is 0.
pub proof fn lemma_blank_bits(g: Grid, i: int)
    requires
        g.is_blank(),
        0 <= i < g.bit_len(),
    ensures
        g.bit(i) == 0,
{
    lemma_zero_byte(i % 8);
}

} // verus!
