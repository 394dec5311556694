//! The patterns that can be stamped on a universe, each as the offsets of
//! its live cells from the cell it is anchored at.

use vstd::prelude::*;

verus! {

/// The five cells of a glider, as pairs of a row offset and a column offset.
pub open spec fn glider_offsets() -> Seq<(i32, i32)> {
    seq![(-1i32, 1i32), (0i32, -1i32), (0i32, 1i32), (1i32, 0i32), (1i32, 1i32)]
}

/// The five cells of a glider.
pub fn glider() -> (offsets: [(i32, i32); 5])
    ensures
        offsets@ == glider_offsets(),
{
    let offsets: [(i32, i32); 5] = [(-1, 1), (0, -1), (0, 1), (1, 0), (1, 1)];
    assert(offsets@ =~= glider_offsets());
    offsets
}

/// The forty-eight cells of a pulsar, an oscillator of period three, as
/// pairs of a row offset and a column offset.
pub open spec fn pulsar_offsets() -> Seq<(i32, i32)> {
    seq![
        (-6i32, 4i32), (-6i32, 3i32), (-6i32, 2i32), (-6i32, -2i32), (-6i32, -3i32),
        (-6i32, -4i32), (-4i32, 6i32), (-3i32, 6i32), (-2i32, 6i32), (2i32, 6i32),
        (3i32, 6i32), (4i32, 6i32), (6i32, 4i32), (6i32, 3i32), (6i32, 2i32), (6i32, -2i32),
        (6i32, -3i32), (6i32, -4i32), (4i32, -6i32), (3i32, -6i32), (2i32, -6i32),
        (-2i32, -6i32), (-3i32, -6i32), (-4i32, -6i32), (-4i32, -1i32), (-3i32, -1i32),
        (-2i32, -1i32), (-4i32, 1i32), (-3i32, 1i32), (-2i32, 1i32), (4i32, -1i32),
        (3i32, -1i32), (2i32, -1i32), (4i32, 1i32), (3i32, 1i32), (2i32, 1i32), (1i32, -4i32),
        (1i32, -3i32), (1i32, -2i32), (-1i32, -4i32), (-1i32, -3i32), (-1i32, -2i32),
        (1i32, 4i32), (1i32, 3i32), (1i32, 2i32), (-1i32, 4i32), (-1i32, 3i32), (-1i32, 2i32),
    ]
}

/// The forty-eight cells of a pulsar.
pub fn pulsar() -> (offsets: [(i32, i32); 48])
    ensures
        offsets@ == pulsar_offsets(),
{
    let offsets: [(i32, i32); 48] = [
        (-6, 4), (-6, 3), (-6, 2), (-6, -2), (-6, -3), (-6, -4), (-4, 6), (-3, 6), (-2, 6),
        (2, 6), (3, 6), (4, 6), (6, 4), (6, 3), (6, 2), (6, -2), (6, -3), (6, -4), (4, -6),
        (3, -6), (2, -6), (-2, -6), (-3, -6), (-4, -6), (-4, -1), (-3, -1), (-2, -1), (-4, 1),
        (-3, 1), (-2, 1), (4, -1), (3, -1), (2, -1), (4, 1), (3, 1), (2, 1), (1, -4), (1, -3),
        (1, -2), (-1, -4), (-1, -3), (-1, -2), (1, 4), (1, 3), (1, 2), (-1, 4), (-1, 3),
        (-1, 2),
    ];
    assert(offsets@ =~= pulsar_offsets());
    offsets
}

} // verus!
