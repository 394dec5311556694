//! The universe: the packed grid with its dimensions, and the operations
//! that read it, advance it by a generation, stamp patterns on it and
//! reallocate it.

use vstd::prelude::*;
use vstd::arithmetic::div_mod::lemma_fundamental_div_mod;
use vstd::arithmetic::div_mod::lemma_mod_multiples_vanish;
use crate::bits::as_bit;
use crate::bits::write_bit;
use crate::bits::lemma_bit_of_is_binary;
use crate::bits::lemma_mask_then_shift;
use crate::grid::Grid;
use crate::grid::packed_len;
use crate::grid::next_state;
use crate::grid::lemma_index_bounds;
use crate::grid::lemma_blank_bits;
use crate::grid::lemma_with_bit_reads;
use crate::patterns::glider;
use crate::patterns::glider_offsets;
use crate::patterns::pulsar;
use crate::patterns::pulsar_offsets;
use crate::random::random_in_range;
use crate::random::thread_rng;
use rand::rngs::ThreadRng;

verus! {

/// A universe: `width` by `height` cells on a torus, packed one per bit into
/// a buffer of bytes.
pub struct Universe {
    width: u32,
    height: u32,
    cells: Vec<u8>,
}

impl View for Universe {
    type V = Grid;

    closed spec fn view(&self) -> Grid {
        Grid { width: self.width as nat, height: self.height as nat, cells: self.cells@ }
    }
}

/// Whether a universe can have `width` columns and `height` rows: both are
/// positive and the number of cells fits the machine.
pub fn valid_dimensions(width: u32, height: u32) -> (valid: bool)
    ensures
        valid == (width > 0 && height > 0 && width * height <= usize::MAX),
{
    assert((width as int) * (height as int) <= u64::MAX) by (nonlinear_arith)
        requires
            width <= u32::MAX,
            height <= u32::MAX,
    ;
    width > 0 && height > 0 && (width as u64) * (height as u64) <= usize::MAX as u64
}

/// The number of bytes that hold one bit for each of `width * height` cells.
pub fn packed_size(width: u32, height: u32) -> (size: usize)
    requires
        width * height <= usize::MAX,
    ensures
        size == packed_len(width as nat, height as nat),
{
    assert(0 <= (width as int) * (height as int)) by (nonlinear_arith);
    let area = (width as usize) * (height as usize);
    if area % 8 == 0 {
        area / 8
    } else {
        area / 8 + 1
    }
}

/// The position that lies `delta` places after `position` on a ring of
/// `size` places. A negative `delta` is first brought to the place at the
/// same distance forward, so that the sum is never negative.
pub fn wrap_offset(position: u32, delta: i32, size: u32) -> (wrapped: u32)
    requires
        size > 0,
    ensures
        wrapped == (position as int + delta as int) % (size as int),
        wrapped < size,
{
    let ring = size as u64;
    let forward: u64 = if delta >= 0 {
        (delta as u64) % ring
    } else {
        let back = ((-(delta as i64)) as u64) % ring;
        if back == 0 {
            0
        } else {
            ring - back
        }
    };
    proof {
        let m = size as int;
        let d = delta as int;
        let turns = if d >= 0 {
            -(d / m)
        } else if (-d) % m == 0 {
            (-d) / m
        } else {
            (-d) / m + 1
        };
        lemma_fundamental_div_mod(d, m);
        lemma_fundamental_div_mod(-d, m);
        assert(forward as int == m * turns + d) by (nonlinear_arith)
            requires
                d == m * (d / m) + d % m,
                -d == m * ((-d) / m) + (-d) % m,
                d >= 0 ==> forward as int == d % m && turns == -(d / m),
                d < 0 && (-d) % m == 0 ==> forward as int == 0 && turns == (-d) / m,
                d < 0 && (-d) % m != 0 ==> forward as int == m - (-d) % m && turns == (-d) / m + 1,
        ;
        assert(position as int + forward as int == m * turns + (position as int + d));
        lemma_mod_multiples_vanish(turns, position as int + d, m);
    }
    ((position as u64 + forward) % ring) as u32
}

/// A buffer of `size` zero bytes.
fn dead_cells(size: usize) -> (cells: Vec<u8>)
    ensures
        cells@ == Seq::new(size as nat, |k: int| 0u8),
{
    let mut cells: Vec<u8> = Vec::new();
    let mut k: usize = 0;
    while k < size
        invariant
            k <= size,
            cells@ == Seq::new(k as nat, |k: int| 0u8),
        decreases size - k,
    {
        cells.push(0);
        k += 1;
        assert(cells@ =~= Seq::new(k as nat, |k: int| 0u8));
    }
    cells
}

/// A buffer of `size` bytes, each drawn from `rng` out of all that a byte
/// can be.
fn random_cells(rng: &mut ThreadRng, size: usize) -> (cells: Vec<u8>)
    ensures
        cells@.len() == size,
{
    let mut cells: Vec<u8> = Vec::new();
    let mut k: usize = 0;
    while k < size
        invariant
            k <= size,
            cells@.len() == k,
        decreases size - k,
    {
        cells.push(random_in_range(rng, u8::MIN, u8::MAX));
        k += 1;
    }
    cells
}

impl Universe {
    /// The invariant of a universe: that of its grid.
    pub open spec fn wf(&self) -> bool {
        self@.wf()
    }

    /// A universe of `width` by `height` cells over the buffer `cells`.
    pub fn with_cells(width: u32, height: u32, cells: Vec<u8>) -> (universe: Universe)
        requires
            width > 0,
            height > 0,
            width * height <= usize::MAX,
            width * height <= 8 * cells.len(),
        ensures
            universe.wf(),
            universe@ == (Grid { width: width as nat, height: height as nat, cells: cells@ }),
    {
        Universe { width, height, cells }
    }

    /// A universe of `width` by `height` cells in a random state: a buffer
    /// of just enough bytes, each of them drawn at random.
    pub fn new(width: u32, height: u32) -> (universe: Universe)
        requires
            width > 0,
            height > 0,
            width * height <= usize::MAX,
        ensures
            universe.wf(),
            universe@.width == width,
            universe@.height == height,
            universe@.cells.len() == packed_len(width as nat, height as nat),
    {
        let mut rng = thread_rng();
        let cells = random_cells(&mut rng, packed_size(width, height));
        Universe::with_cells(width, height, cells)
    }

    /// The number of columns.
    pub fn width(&self) -> (width: u32)
        ensures
            width == self@.width,
    {
        self.width
    }

    /// The number of rows.
    pub fn height(&self) -> (height: u32)
        ensures
            height == self@.height,
    {
        self.height
    }

    /// Whether `(row, col)` names a cell of this universe.
    pub fn contains(&self, row: u32, col: u32) -> (inside: bool)
        ensures
            inside == self@.in_bounds(row as int, col as int),
    {
        row < self.height && col < self.width
    }

    /// The number of the cell at `(row, column)`. Neither coordinate is held
    /// against the dimensions here.
    pub fn get_index(&self, row: u32, column: u32) -> (idx: usize)
        requires
            self@.index(row as int, column as int) <= usize::MAX,
        ensures
            idx == self@.index(row as int, column as int),
    {
        assert(0 <= (row as int) * (self.width as int)) by (nonlinear_arith);
        (row as usize) * (self.width as usize) + (column as usize)
    }

    /// The cell at `(row, column)`: 1 when alive, 0 when dead.
    pub fn get_bit(&self, row: u32, column: u32) -> (cell: u8)
        requires
            self.wf(),
            self@.in_bounds(row as int, column as int),
        ensures
            cell == self@.get(row as int, column as int),
            cell <= 1,
    {
        proof {
            lemma_index_bounds(self@, row as int, column as int);
        }
        let idx = self.get_index(row, column);
        let byte = self.cells[idx / 8];
        let bit: u8 = (idx % 8) as u8;
        let mask: u8 = 1u8 << bit;
        proof {
            lemma_mask_then_shift(byte, bit);
            lemma_bit_of_is_binary(byte, bit as int);
        }
        (byte & mask) >> bit
    }

    /// Bit number `idx` of the buffer.
    pub fn _get_bit_by_index(&self, idx: u32) -> (cell: u8)
        requires
            idx < self@.bit_len(),
        ensures
            cell == self@.bit(idx as int),
            cell <= 1,
    {
        let byte = self.cells[(idx / 8) as usize];
        let bit: u8 = (idx % 8) as u8;
        let mask: u8 = 1u8 << bit;
        proof {
            lemma_mask_then_shift(byte, bit);
            lemma_bit_of_is_binary(byte, bit as int);
        }
        (byte & mask) >> bit
    }

    /// Writes `value` to the cell at `(row, column)`: 0 kills it, any other
    /// value brings it to life. Returns `value`.
    pub fn set_cell_bit(&mut self, row: u32, column: u32, value: u8) -> (written: u8)
        requires
            old(self).wf(),
            old(self)@.in_bounds(row as int, column as int),
        ensures
            final(self)@ == old(self)@.with_bit(old(self)@.index(row as int, column as int), value),
            final(self).wf(),
            written == value,
    {
        proof {
            lemma_index_bounds(self@, row as int, column as int);
        }
        let idx = self.get_index(row, column);
        let byte = self.cells[idx / 8];
        let bit: u8 = (idx % 8) as u8;
        if value == 0 {
            let mask: u8 = !(1u8 << bit);
            self.cells[idx / 8] = byte & mask;
        } else {
            let mask: u8 = 1u8 << bit;
            self.cells[idx / 8] = byte | mask;
        }
        value
    }

    /// Writes `value` to the bit of `array` that has the number of the cell
    /// at `(row, column)` of this universe: 0 clears it, any other value
    /// sets it. The universe itself stays as it is. Returns `value`.
    pub fn set_bit(&self, row: u32, column: u32, value: u8, array: &mut Vec<u8>) -> (written: u8)
        requires
            self@.index(row as int, column as int) < 8 * old(array)@.len(),
            self@.index(row as int, column as int) <= usize::MAX,
        ensures
            final(array)@ == old(array)@.update(
                self@.index(row as int, column as int) / 8,
                write_bit(
                    old(array)@[self@.index(row as int, column as int) / 8],
                    self@.index(row as int, column as int) % 8,
                    value,
                ),
            ),
            written == value,
    {
        assert(0 <= (row as int) * (self.width as int)) by (nonlinear_arith);
        let idx = self.get_index(row, column);
        let byte = array[idx / 8];
        let bit: u8 = (idx % 8) as u8;
        if value == 0 {
            let mask: u8 = !(1u8 << bit);
            array[idx / 8] = byte & mask;
        } else {
            let mask: u8 = 1u8 << bit;
            array[idx / 8] = byte | mask;
        }
        value
    }

    /// Flips the cell at `(row, col)`: a live cell dies, a dead one comes
    /// alive.
    pub fn toggle_cell(&mut self, row: u32, col: u32)
        requires
            old(self).wf(),
            old(self)@.in_bounds(row as int, col as int),
        ensures
            final(self).wf(),
            final(self)@ == old(self)@.with_bit(
                old(self)@.index(row as int, col as int),
                (1 - old(self)@.get(row as int, col as int)) as u8,
            ),
    {
        let cell = self.get_bit(row, col);
        self.set_cell_bit(row, col, 1 - cell);
    }

    /// The cell that lies `(delta_row, delta_col)` away from `(row, column)`
    /// on the torus, both offsets counted forward.
    fn neighbor(&self, row: u32, column: u32, delta_row: u32, delta_col: u32) -> (cell: u8)
        requires
            self.wf(),
        ensures
            cell == self@.get_relative(row as int, column as int, delta_row as int, delta_col as int),
            cell <= 1,
    {
        let neighbor_row = ((row as u64 + delta_row as u64) % (self.height as u64)) as u32;
        let neighbor_col = ((column as u64 + delta_col as u64) % (self.width as u64)) as u32;
        self.get_bit(neighbor_row, neighbor_col)
    }

    /// The cell that lies `(delta_row, delta_col)` away from `(row, col)` on
    /// the torus.
    pub fn _get_relative_bit(&self, row: u32, col: u32, delta_row: i32, delta_col: i32) -> (cell: u8)
        requires
            self.wf(),
        ensures
            cell == self@.get_relative(row as int, col as int, delta_row as int, delta_col as int),
            cell <= 1,
    {
        let neighbor_row = wrap_offset(row, delta_row, self.height);
        let neighbor_col = wrap_offset(col, delta_col, self.width);
        self.get_bit(neighbor_row, neighbor_col)
    }

    /// How many of the eight cells around `(row, column)` are alive, the
    /// grid taken as a torus.
    pub fn live_neighbor_count(&self, row: u32, column: u32) -> (count: u8)
        requires
            self.wf(),
        ensures
            count == self@.live_neighbor_count(row as int, column as int),
            count <= 8,
    {
        let up = self.height - 1;
        let left = self.width - 1;
        let mut count: u8 = 0;
        count += self.neighbor(row, column, up, left);
        count += self.neighbor(row, column, up, 0);
        count += self.neighbor(row, column, up, 1);
        count += self.neighbor(row, column, 0, left);
        count += self.neighbor(row, column, 0, 1);
        count += self.neighbor(row, column, 1, left);
        count += self.neighbor(row, column, 1, 0);
        count += self.neighbor(row, column, 1, 1);
        count
    }

    /// Advances the universe by one generation. Every cell is judged by
    /// the cells of the generation that ends; the writes are recorded during
    /// the scan and made after it.
    pub fn tick(&mut self)
        requires
            old(self).wf(),
        ensures
            final(self).wf(),
            old(self)@.is_next_generation(final(self)@),
    {
        let ghost before = self@;
        let mut changed: Vec<(u32, u32, u8)> = Vec::new();

        let mut row: u32 = 0;
        while row < self.height
            invariant
                self@ == before,
                before.wf(),
                row <= self.height,
                changes_hold(before, changed@),
                forall|r: int, c: int|
                    0 <= r < row && 0 <= c < before.width ==> settled(before, changed@, r, c),
            decreases self.height - row,
        {
            let mut col: u32 = 0;
            while col < self.width
                invariant
                    self@ == before,
                    before.wf(),
                    row < self.height,
                    col <= self.width,
                    changes_hold(before, changed@),
                    forall|r: int, c: int|
                        0 <= r < row && 0 <= c < before.width ==> settled(before, changed@, r, c),
                    forall|c: int| 0 <= c < col ==> settled(before, changed@, row as int, c),
                decreases self.width - col,
            {
                let cell = self.get_bit(row, col);
                let live_neighbors = self.live_neighbor_count(row, col);
                let ghost prior = changed@;

                if cell == 1 {
                    if live_neighbors < 2 {
                        // Fewer than two live neighbours: the cell dies.
                        changed.push((row, col, 0));
                    } else if live_neighbors == 2 || live_neighbors == 3 {
                        // Two or three live neighbours: the cell lives on.
                        changed.push((row, col, 1));
                    } else {
                        // More than three live neighbours: the cell dies.
                        changed.push((row, col, 0));
                    }
                } else if live_neighbors == 3 {
                    // Exactly three live neighbours: a dead cell comes alive.
                    changed.push((row, col, 1));
                }

                proof {
                    if changed@ != prior {
                        let change = changed@[prior.len() as int];
                        assert(changed@ == prior.push(change));
                        assert(change_holds(before, change));
                        assert forall|r: int, c: int|
                            0 <= r < row && 0 <= c < before.width implies settled(
                            before,
                            changed@,
                            r,
                            c,
                        ) by {
                            assert(settled(before, prior, r, c));
                            if recorded(before, prior, prior.len() as int, before.index(r, c)) {
                                lemma_push_keeps_recorded(before, prior, change, before.index(r, c));
                            }
                        }
                        assert forall|c: int| 0 <= c < col implies settled(
                            before,
                            changed@,
                            row as int,
                            c,
                        ) by {
                            assert(settled(before, prior, row as int, c));
                            if recorded(before, prior, prior.len() as int, before.index(row as int, c)) {
                                lemma_push_keeps_recorded(
                                    before,
                                    prior,
                                    change,
                                    before.index(row as int, c),
                                );
                            }
                        }
                        lemma_push_records(before, prior, change);
                    }
                    assert(settled(before, changed@, row as int, col as int));
                }
                col += 1;
            }
            row += 1;
        }

        let mut k: usize = 0;
        while k < changed.len()
            invariant
                before.wf(),
                before.same_shape(self@),
                k <= changed.len(),
                changes_hold(before, changed@),
                forall|i: int|
                    0 <= i < before.bit_len() ==> #[trigger] self@.bit(i) == if recorded(
                        before,
                        changed@,
                        k as int,
                        i,
                    ) {
                        next_bit(before, i)
                    } else {
                        before.bit(i)
                    },
            decreases changed.len() - k,
        {
            let (changed_row, changed_col, value) = changed[k];
            let ghost current = self@;
            proof {
                assert(change_holds(before, changed@[k as int]));
                lemma_change_value(before, changed@[k as int]);
            }
            self.set_cell_bit(changed_row, changed_col, value);
            proof {
                let target = change_index(before, changed@[k as int]);
                assert forall|i: int| 0 <= i < before.bit_len() implies #[trigger] self@.bit(i)
                    == if recorded(before, changed@, k + 1, i) {
                    next_bit(before, i)
                } else {
                    before.bit(i)
                } by {
                    lemma_with_bit_reads(current, target, value, i);
                    lemma_recorded_step(before, changed@, k as int, i);
                    assert(current.bit(i) == if recorded(before, changed@, k as int, i) {
                        next_bit(before, i)
                    } else {
                        before.bit(i)
                    });
                }
            }
            k += 1;
        }

        proof {
            let after = self@;
            assert forall|r: int, c: int| before.in_bounds(r, c) implies #[trigger] after.get(r, c)
                == next_state(before.get(r, c), before.live_neighbor_count(r, c)) by {
                lemma_index_bounds(before, r, c);
                let i = before.index(r, c);
                assert(after.bit(i) == if recorded(before, changed@, changed@.len() as int, i) {
                    next_bit(before, i)
                } else {
                    before.bit(i)
                });
                assert(settled(before, changed@, r, c));
            }
            assert forall|i: int| before.area() <= i < before.bit_len() implies #[trigger] after.bit(
                i,
            ) == before.bit(i) by {
                if recorded(before, changed@, changed@.len() as int, i) {
                    let j = choose|j: int|
                        0 <= j < changed@.len() && change_index(before, #[trigger] changed@[j]) == i;
                    lemma_change_value(before, changed@[j]);
                }
            }
        }
    }

    /// Writes `value` to the cell that lies `(delta_row, delta_col)` away
    /// from `(row, col)` on the torus. Returns `value`.
    pub fn set_relative_bit(
        &mut self,
        row: u32,
        col: u32,
        delta_row: i32,
        delta_col: i32,
        value: u8,
    ) -> (written: u8)
        requires
            old(self).wf(),
        ensures
            final(self).wf(),
            final(self)@ == old(self)@.with_bit(
                old(self)@.relative_index(row as int, col as int, delta_row as int, delta_col as int),
                value,
            ),
            written == value,
    {
        let neighbor_row = wrap_offset(row, delta_row, self.height);
        let neighbor_col = wrap_offset(col, delta_col, self.width);
        self.set_cell_bit(neighbor_row, neighbor_col, value)
    }

    /// Writes `value` to every cell that lies away from `(row, col)` by one
    /// of `offsets`, each a pair of a row offset and a column offset; the
    /// other cells stay as they are.
    pub fn stamp_relative(&mut self, row: u32, col: u32, offsets: &[(i32, i32)], value: u8)
        requires
            old(self).wf(),
        ensures
            final(self).wf(),
            old(self)@.is_written(
                final(self)@,
                old(self)@.stamp_targets(row as int, col as int, offsets@),
                value,
            ),
    {
        let ghost before = self@;
        let mut k: usize = 0;
        while k < offsets.len()
            invariant
                before.wf(),
                self.wf(),
                k <= offsets.len(),
                before.is_written(
                    self@,
                    before.stamp_targets(row as int, col as int, offsets@.take(k as int)),
                    value,
                ),
            decreases offsets.len() - k,
        {
            let (row_offset, col_offset) = offsets[k];
            let ghost current = self@;
            self.set_relative_bit(row, col, row_offset, col_offset, value);
            proof {
                let target = before.relative_index(
                    row as int,
                    col as int,
                    row_offset as int,
                    col_offset as int,
                );
                lemma_index_bounds(
                    before,
                    before.wrap_row(row as int, row_offset as int),
                    before.wrap_col(col as int, col_offset as int),
                );
                let done = before.stamp_targets(row as int, col as int, offsets@.take(k as int));
                let more = before.stamp_targets(row as int, col as int, offsets@.take(k + 1));
                assert forall|i: int| 0 <= i < before.bit_len() implies #[trigger] self@.bit(i)
                    == if more.contains(i) {
                    as_bit(value)
                } else {
                    before.bit(i)
                } by {
                    lemma_with_bit_reads(current, target, value, i);
                    assert(current.bit(i) == if done.contains(i) {
                        as_bit(value)
                    } else {
                        before.bit(i)
                    });
                    lemma_targets_step(before, row as int, col as int, offsets@, k as int, i);
                }
            }
            k += 1;
        }
        assert(offsets@.take(offsets@.len() as int) =~= offsets@);
    }

    /// Stamps a glider around `(row, col)`: its five cells come alive.
    pub fn set_glider(&mut self, row: u32, col: u32)
        requires
            old(self).wf(),
        ensures
            final(self).wf(),
            old(self)@.is_written(
                final(self)@,
                old(self)@.stamp_targets(row as int, col as int, glider_offsets()),
                1,
            ),
    {
        let offsets = glider();
        self.stamp_relative(row, col, offsets.as_slice(), 1);
    }

    /// Stamps a pulsar around `(row, col)`: its forty-eight cells come
    /// alive.
    pub fn set_pulsar(&mut self, row: u32, col: u32)
        requires
            old(self).wf(),
        ensures
            final(self).wf(),
            old(self)@.is_written(
                final(self)@,
                old(self)@.stamp_targets(row as int, col as int, pulsar_offsets()),
                1,
            ),
    {
        let offsets = pulsar();
        self.stamp_relative(row, col, offsets.as_slice(), 1);
    }

    /// Sets the number of columns. Every cell is dead afterwards: the new
    /// buffer has one zero byte for each cell.
    pub fn set_width(&mut self, width: u32)
        requires
            old(self).wf(),
            width > 0,
            width * old(self)@.height <= usize::MAX,
        ensures
            final(self).wf(),
            final(self)@.width == width,
            final(self)@.height == old(self)@.height,
            final(self)@.cells == Seq::new((width * old(self)@.height) as nat, |k: int| 0u8),
            forall|row: int, col: int|
                final(self)@.in_bounds(row, col) ==> #[trigger] final(self)@.get(row, col) == 0,
    {
        assert(0 <= (width as int) * (self.height as int)) by (nonlinear_arith);
        self.width = width;
        self.cells = dead_cells((width as usize) * (self.height as usize));
        proof {
            lemma_blank_cells(self@);
        }
    }

    /// Sets the number of rows. Every cell is dead afterwards: the new
    /// buffer has one zero byte for each cell.
    pub fn set_height(&mut self, height: u32)
        requires
            old(self).wf(),
            height > 0,
            old(self)@.width * height <= usize::MAX,
        ensures
            final(self).wf(),
            final(self)@.width == old(self)@.width,
            final(self)@.height == height,
            final(self)@.cells == Seq::new((old(self)@.width * height) as nat, |k: int| 0u8),
            forall|row: int, col: int|
                final(self)@.in_bounds(row, col) ==> #[trigger] final(self)@.get(row, col) == 0,
    {
        assert(0 <= (self.width as int) * (height as int)) by (nonlinear_arith);
        self.height = height;
        self.cells = dead_cells((self.width as usize) * (height as usize));
        proof {
            lemma_blank_cells(self@);
        }
    }

    /// Puts the universe in a random state: a new buffer of just enough
    /// bytes, each of them drawn at random.
    pub fn reset(&mut self)
        requires
            old(self).wf(),
        ensures
            final(self).wf(),
            final(self)@.width == old(self)@.width,
            final(self)@.height == old(self)@.height,
            final(self)@.cells.len() == packed_len(old(self)@.width, old(self)@.height),
    {
        let mut rng = thread_rng();
        self.cells = random_cells(&mut rng, packed_size(self.width, self.height));
    }

    /// Kills every cell: a new buffer of just enough bytes, all of them
    /// zero.
    pub fn clear(&mut self)
        requires
            old(self).wf(),
        ensures
            final(self).wf(),
            final(self)@.width == old(self)@.width,
            final(self)@.height == old(self)@.height,
            final(self)@.cells == Seq::new(
                packed_len(old(self)@.width, old(self)@.height),
                |k: int| 0u8,
            ),
            forall|row: int, col: int|
                final(self)@.in_bounds(row, col) ==> #[trigger] final(self)@.get(row, col) == 0,
    {
        self.cells = dead_cells(packed_size(self.width, self.height));
        proof {
            lemma_blank_cells(self@);
        }
    }

    /// The buffer: one bit per cell, cell number `i` in bit `i % 8` of byte
    /// `i / 8`.
    pub fn get_cells(&self) -> (cells: &[u8])
        ensures
            cells@ == self@.cells,
    {
        self.cells.as_slice()
    }

    /// Brings the cell at each of the coordinates `cells` to life, each a
    /// pair of a row and a column; the other cells stay as they are.
    pub fn set_cells(&mut self, cells: &[(u32, u32)])
        requires
            old(self).wf(),
            forall|k: int|
                0 <= k < cells@.len() ==> old(self)@.in_bounds(
                    (#[trigger] cells@[k]).0 as int,
                    cells@[k].1 as int,
                ),
        ensures
            final(self).wf(),
            old(self)@.is_written(final(self)@, old(self)@.cell_targets(cells@), 1),
    {
        let ghost before = self@;
        let mut k: usize = 0;
        while k < cells.len()
            invariant
                before.wf(),
                self.wf(),
                k <= cells.len(),
                forall|j: int|
                    0 <= j < cells@.len() ==> before.in_bounds(
                        (#[trigger] cells@[j]).0 as int,
                        cells@[j].1 as int,
                    ),
                before.is_written(self@, before.cell_targets(cells@.take(k as int)), 1),
            decreases cells.len() - k,
        {
            let (row, col) = cells[k];
            let ghost current = self@;
            assert(before.in_bounds(cells@[k as int].0 as int, cells@[k as int].1 as int));
            self.set_cell_bit(row, col, 1);
            proof {
                let target = before.index(row as int, col as int);
                lemma_index_bounds(before, row as int, col as int);
                let done = before.cell_targets(cells@.take(k as int));
                let more = before.cell_targets(cells@.take(k + 1));
                assert forall|i: int| 0 <= i < before.bit_len() implies #[trigger] self@.bit(i)
                    == if more.contains(i) {
                    1u8
                } else {
                    before.bit(i)
                } by {
                    lemma_with_bit_reads(current, target, 1, i);
                    assert(current.bit(i) == if done.contains(i) {
                        1u8
                    } else {
                        before.bit(i)
                    });
                    lemma_cell_targets_step(before, cells@, k as int, i);
                }
            }
            k += 1;
        }
        assert(cells@.take(cells@.len() as int) =~= cells@);
    }
}

/// The number of the cell that a recorded change addresses.
spec fn change_index(g: Grid, change: (u32, u32, u8)) -> int {
    g.index(change.0 as int, change.1 as int)
}

/// A recorded change addresses a cell of `g` and carries the state that the
/// rule gives that cell.
spec fn change_holds(g: Grid, change: (u32, u32, u8)) -> bool {
    &&& g.in_bounds(change.0 as int, change.1 as int)
    &&& change.2 == next_state(
        g.get(change.0 as int, change.1 as int),
        g.live_neighbor_count(change.0 as int, change.1 as int),
    )
}

/// Every recorded change holds.
spec fn changes_hold(g: Grid, changes: Seq<(u32, u32, u8)>) -> bool {
    forall|k: int| 0 <= k < changes.len() ==> change_holds(g, #[trigger] changes[k])
}

/// One of the first `upto` recorded changes addresses cell number `i`.
spec fn recorded(g: Grid, changes: Seq<(u32, u32, u8)>, upto: int, i: int) -> bool {
    exists|k: int| 0 <= k < upto && change_index(g, #[trigger] changes[k]) == i
}

/// The cell at `(row, col)` needs no write, or one is recorded for it.
spec fn settled(g: Grid, changes: Seq<(u32, u32, u8)>, row: int, col: int) -> bool {
    recorded(g, changes, changes.len() as int, g.index(row, col)) || next_state(
        g.get(row, col),
        g.live_neighbor_count(row, col),
    ) == g.get(row, col)
}

/// The state that the rule gives to cell number `i`.
spec fn next_bit(g: Grid, i: int) -> u8 {
    next_state(g.bit(i), g.live_neighbor_count(i / (g.width as int), i % (g.width as int)))
}

/// What was recorded stays recorded when another change is added.
proof fn lemma_push_keeps_recorded(g: Grid, changes: Seq<(u32, u32, u8)>, change: (u32, u32, u8), i: int)
    requires
        recorded(g, changes, changes.len() as int, i),
    ensures
        recorded(g, changes.push(change), changes.len() as int + 1, i),
{
    let k = choose|k: int| 0 <= k < changes.len() && change_index(g, #[trigger] changes[k]) == i;
    assert(changes.push(change)[k] == changes[k]);
}

/// A change that was just added is recorded.
proof fn lemma_push_records(g: Grid, changes: Seq<(u32, u32, u8)>, change: (u32, u32, u8))
    ensures
        recorded(g, changes.push(change), changes.len() as int + 1, change_index(g, change)),
{
    assert(changes.push(change)[changes.len() as int] == change);
}

/// The first `k + 1` changes address what the first `k` address, and the
/// cell of change number `k`.
proof fn lemma_recorded_step(g: Grid, changes: Seq<(u32, u32, u8)>, k: int, i: int)
    requires
        0 <= k < changes.len(),
    ensures
        recorded(g, changes, k + 1, i) <==> recorded(g, changes, k, i) || change_index(
            g,
            changes[k],
        ) == i,
{
    if recorded(g, changes, k + 1, i) {
        let j = choose|j: int| 0 <= j < k + 1 && change_index(g, #[trigger] changes[j]) == i;
        if j < k {
            assert(recorded(g, changes, k, i));
        }
    }
    if recorded(g, changes, k, i) {
        let j = choose|j: int| 0 <= j < k && change_index(g, #[trigger] changes[j]) == i;
        assert(0 <= j < k + 1 && change_index(g, changes[j]) == i);
    }
    if change_index(g, changes[k]) == i {
        assert(0 <= k < k + 1 && change_index(g, changes[k]) == i);
    }
}

/// A change that holds carries the next state of the cell it addresses, and
/// addresses a cell.
proof fn lemma_change_value(g: Grid, change: (u32, u32, u8))
    requires
        g.wf(),
        change_holds(g, change),
    ensures
        0 <= change_index(g, change) < g.area(),
        change.2 == next_bit(g, change_index(g, change)),
        change.2 <= 1,
{
    lemma_index_bounds(g, change.0 as int, change.1 as int);
}

/// The first `k + 1` offsets reach what the first `k` reach, and the cell of
/// offset number `k`.
proof fn lemma_targets_step(g: Grid, row: int, col: int, offsets: Seq<(i32, i32)>, k: int, i: int)
    requires
        0 <= k < offsets.len(),
    ensures
        g.stamp_targets(row, col, offsets.take(k + 1)).contains(i) <==> g.stamp_targets(
            row,
            col,
            offsets.take(k),
        ).contains(i) || g.relative_index(row, col, offsets[k].0 as int, offsets[k].1 as int) == i,
{
    let fewer = offsets.take(k);
    let more = offsets.take(k + 1);
    if g.stamp_targets(row, col, more).contains(i) {
        let j = choose|j: int|
            0 <= j < more.len() && g.relative_index(
                row,
                col,
                (#[trigger] more[j]).0 as int,
                more[j].1 as int,
            ) == i;
        if j < k {
            assert(fewer[j] == more[j]);
        }
    }
    if g.stamp_targets(row, col, fewer).contains(i) {
        let j = choose|j: int|
            0 <= j < fewer.len() && g.relative_index(
                row,
                col,
                (#[trigger] fewer[j]).0 as int,
                fewer[j].1 as int,
            ) == i;
        assert(more[j] == fewer[j]);
    }
    if g.relative_index(row, col, offsets[k].0 as int, offsets[k].1 as int) == i {
        assert(more[k] == offsets[k]);
    }
}

/// The first `k + 1` coordinates name what the first `k` name, and the cell
/// of coordinate number `k`.
proof fn lemma_cell_targets_step(g: Grid, coords: Seq<(u32, u32)>, k: int, i: int)
    requires
        0 <= k < coords.len(),
    ensures
        g.cell_targets(coords.take(k + 1)).contains(i) <==> g.cell_targets(coords.take(k)).contains(
            i,
        ) || g.index(coords[k].0 as int, coords[k].1 as int) == i,
{
    let fewer = coords.take(k);
    let more = coords.take(k + 1);
    if g.cell_targets(more).contains(i) {
        let j = choose|j: int|
            0 <= j < more.len() && g.index((#[trigger] more[j]).0 as int, more[j].1 as int) == i;
        if j < k {
            assert(fewer[j] == more[j]);
        }
    }
    if g.cell_targets(fewer).contains(i) {
        let j = choose|j: int|
            0 <= j < fewer.len() && g.index((#[trigger] fewer[j]).0 as int, fewer[j].1 as int)
                == i;
        assert(more[j] == fewer[j]);
    }
    if g.index(coords[k].0 as int, coords[k].1 as int) == i {
        assert(more[k] == coords[k]);
    }
}

/// In a grid whose buffer holds only zero bytes every cell is dead.
proof fn lemma_blank_cells(g: Grid)
    requires
        g.wf(),
        g.is_blank(),
    ensures
        forall|row: int, col: int| g.in_bounds(row, col) ==> #[trigger] g.get(row, col) == 0,
{
    assert forall|row: int, col: int| g.in_bounds(row, col) implies #[trigger] g.get(row, col)
        == 0 by {
        lemma_index_bounds(g, row, col);
        lemma_blank_bits(g, g.index(row, col));
    }
}

} // verus!
