//! Tables held as a vector of rows: frames of a signal, rows of a spectrogram.

use vstd::prelude::*;

verus! {

/// The table that a vector of rows stands for: row `i` of the result is the
/// content of the `i`-th vector.
pub open spec fn grid<T>(rows: Seq<Vec<T>>) -> Seq<Seq<T>> {
    Seq::new(rows.len(), |i: int| rows[i]@)
}

/// The common width of the rows of a rectangular table; 0 for a table
/// without rows.
pub open spec fn width<T>(g: Seq<Seq<T>>) -> nat {
    if g.len() == 0 {
        0
    } else {
        g[0].len()
    }
}

/// Whether all rows of the table have the same length.
pub open spec fn rectangular<T>(g: Seq<Seq<T>>) -> bool {
    forall|i: int| 0 <= i < g.len() ==> (#[trigger] g[i]).len() == width(g)
}

/// Tells whether all rows have the same length.
pub fn is_rectangular<T>(rows: &Vec<Vec<T>>) -> (uniform: bool)
    ensures
        uniform == rectangular(grid(rows@)),
{
    if rows.len() == 0 {
        return true;
    }
    let expected: usize = rows[0].len();
    let mut i: usize = 1;
    while i < rows.len()
        invariant
            1 <= i <= rows.len(),
            expected == width(grid(rows@)),
            forall|k: int| 0 <= k < i ==> (#[trigger] grid(rows@)[k]).len() == expected,
        decreases rows.len() - i,
    {
        if rows[i].len() != expected {
            assert(grid(rows@)[i as int].len() != width(grid(rows@)));
            return false;
        }
        i += 1;
    }
    true
}

} // verus!
