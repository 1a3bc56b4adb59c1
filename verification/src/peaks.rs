//! Peak picking: the strict local maxima of a magnitude spectrogram.
//!
//! A spectrogram is a rectangular table of magnitudes, one row per frame and
//! one column per frequency bin. Magnitudes are held as unsigned integers
//! whose order is the order of the magnitudes they stand for.

use crate::hashing::later_peaks;
use crate::table::{grid, rectangular, width};
use vstd::prelude::*;

verus! {

/// Whether cell `(t, f)` is a peak: it lies off the border of the table, is
/// at least `threshold`, and is strictly greater than each of the eight
/// cells around it.
pub open spec fn is_peak(g: Seq<Seq<u32>>, threshold: u32, t: int, f: int) -> bool {
    &&& 1 <= t < g.len() - 1
    &&& 1 <= f < width(g) - 1
    &&& g[t][f] >= threshold
    &&& g[t - 1][f - 1] < g[t][f]
    &&& g[t - 1][f] < g[t][f]
    &&& g[t - 1][f + 1] < g[t][f]
    &&& g[t][f - 1] < g[t][f]
    &&& g[t][f + 1] < g[t][f]
    &&& g[t + 1][f - 1] < g[t][f]
    &&& g[t + 1][f] < g[t][f]
    &&& g[t + 1][f + 1] < g[t][f]
}

/// The peaks of row `t` in the columns before `f_end`, by ascending column.
pub open spec fn row_peaks(g: Seq<Seq<u32>>, threshold: u32, t: int, f_end: int) -> Seq<
    (usize, usize),
>
    decreases f_end,
{
    if f_end <= 1 {
        Seq::empty()
    } else if is_peak(g, threshold, t, f_end - 1) {
        row_peaks(g, threshold, t, f_end - 1).push((t as usize, (f_end - 1) as usize))
    } else {
        row_peaks(g, threshold, t, f_end - 1)
    }
}

/// The peaks of the rows before `t_end`, row by row.
pub open spec fn peaks_upto(g: Seq<Seq<u32>>, threshold: u32, t_end: int) -> Seq<(usize, usize)>
    decreases t_end,
{
    if t_end <= 1 {
        Seq::empty()
    } else {
        peaks_upto(g, threshold, t_end - 1) + row_peaks(g, threshold, t_end - 1, width(g) - 1)
    }
}

/// All peaks of the table in row-major order.
pub open spec fn spec_find_peaks(g: Seq<Seq<u32>>, threshold: u32) -> Seq<(usize, usize)> {
    peaks_upto(g, threshold, g.len() - 1)
}

/// Whether `a` comes strictly before `b` in row-major order.
pub open spec fn row_major_before(a: (usize, usize), b: (usize, usize)) -> bool {
    a.0 < b.0 || (a.0 == b.0 && a.1 < b.1)
}

/// A list of cells that holds the peaks of a table, all of them, each once
/// and in row-major order.
pub open spec fn lists_peaks(g: Seq<Seq<u32>>, threshold: u32, peaks: Seq<(usize, usize)>) -> bool {
    &&& forall|k: int|
        0 <= k < peaks.len() ==> is_peak(
            g,
            threshold,
            (#[trigger] peaks[k]).0 as int,
            peaks[k].1 as int,
        )
    &&& forall|t: int, f: int|
        #![trigger is_peak(g, threshold, t, f)]
        is_peak(g, threshold, t, f) ==> peaks.contains((t as usize, f as usize))
    &&& forall|a: int, b: int|
        0 <= a < b < peaks.len() ==> row_major_before(#[trigger] peaks[a], #[trigger] peaks[b])
}

/// The cells of `row_peaks` are the peaks of row `t` before column `f_end`,
/// by strictly ascending column.
pub proof fn lemma_row_peaks(g: Seq<Seq<u32>>, threshold: u32, t: int, f_end: int)
    requires
        0 <= t <= usize::MAX,
        f_end <= usize::MAX + 1,
    ensures
        forall|k: int|
            0 <= k < row_peaks(g, threshold, t, f_end).len() ==> {
                let p = #[trigger] row_peaks(g, threshold, t, f_end)[k];
                p.0 == t && p.1 < f_end && is_peak(g, threshold, t, p.1 as int)
            },
        forall|f: int|
            f < f_end && is_peak(g, threshold, t, f) ==> row_peaks(g, threshold, t, f_end).contains(
                (t as usize, f as usize),
            ),
        forall|a: int, b: int|
            0 <= a < b < row_peaks(g, threshold, t, f_end).len() ==> (#[trigger] row_peaks(
                g,
                threshold,
                t,
                f_end,
            )[a]).1 < (#[trigger] row_peaks(g, threshold, t, f_end)[b]).1,
    decreases f_end,
{
    if f_end > 1 {
        lemma_row_peaks(g, threshold, t, f_end - 1);
        let shorter = row_peaks(g, threshold, t, f_end - 1);
        let all = row_peaks(g, threshold, t, f_end);
        assert forall|f: int| f < f_end && is_peak(g, threshold, t, f) implies all.contains(
            (t as usize, f as usize),
        ) by {
            if f < f_end - 1 {
                let k = choose|k: int|
                    0 <= k < shorter.len() && shorter[k] == (t as usize, f as usize);
                assert(all[k] == (t as usize, f as usize));
            } else {
                assert(all[all.len() - 1] == (t as usize, f as usize));
            }
        }
    }
}

/// The cells of `peaks_upto` are the peaks of the rows before `t_end`, each
/// once, in row-major order.
pub proof fn lemma_peaks_upto(g: Seq<Seq<u32>>, threshold: u32, t_end: int)
    requires
        t_end <= usize::MAX + 1,
        width(g) <= usize::MAX,
    ensures
        forall|k: int|
            0 <= k < peaks_upto(g, threshold, t_end).len() ==> {
                let p = #[trigger] peaks_upto(g, threshold, t_end)[k];
                p.0 < t_end && is_peak(g, threshold, p.0 as int, p.1 as int)
            },
        forall|t: int, f: int|
            #![trigger is_peak(g, threshold, t, f)]
            t < t_end && is_peak(g, threshold, t, f) ==> peaks_upto(g, threshold, t_end).contains(
                (t as usize, f as usize),
            ),
        forall|a: int, b: int|
            0 <= a < b < peaks_upto(g, threshold, t_end).len() ==> row_major_before(
                #[trigger] peaks_upto(g, threshold, t_end)[a],
                #[trigger] peaks_upto(g, threshold, t_end)[b],
            ),
    decreases t_end,
{
    if t_end > 1 {
        lemma_peaks_upto(g, threshold, t_end - 1);
        lemma_row_peaks(g, threshold, t_end - 1, width(g) - 1);
        let earlier = peaks_upto(g, threshold, t_end - 1);
        let row = row_peaks(g, threshold, t_end - 1, width(g) - 1);
        let all = peaks_upto(g, threshold, t_end);
        assert(all == earlier + row);
        assert forall|t: int, f: int|
            #![trigger is_peak(g, threshold, t, f)]
            t < t_end && is_peak(g, threshold, t, f) implies all.contains(
            (t as usize, f as usize),
        ) by {
            if t < t_end - 1 {
                let k = choose|k: int|
                    0 <= k < earlier.len() && earlier[k] == (t as usize, f as usize);
                assert(all[k] == (t as usize, f as usize));
            } else {
                let k = choose|k: int| 0 <= k < row.len() && row[k] == (t as usize, f as usize);
                assert(all[earlier.len() + k] == (t as usize, f as usize));
            }
        }
        assert forall|a: int, b: int| 0 <= a < b < all.len() implies row_major_before(
            #[trigger] all[a],
            #[trigger] all[b],
        ) by {
            if b < earlier.len() {
            } else if a < earlier.len() {
                assert(all[a] == earlier[a]);
                assert(all[b] == row[b - earlier.len()]);
            } else {
                assert(all[a] == row[a - earlier.len()]);
                assert(all[b] == row[b - earlier.len()]);
            }
        }
        assert forall|k: int| 0 <= k < all.len() implies {
            let p = #[trigger] all[k];
            p.0 < t_end && is_peak(g, threshold, p.0 as int, p.1 as int)
        } by {
            if k < earlier.len() {
                assert(all[k] == earlier[k]);
            } else {
                assert(all[k] == row[k - earlier.len()]);
            }
        }
    }
}

/// `spec_find_peaks` lists the peaks of the table: all of them, each once, in
/// row-major order.
pub proof fn lemma_find_peaks_lists_peaks(g: Seq<Seq<u32>>, threshold: u32)
    requires
        g.len() <= usize::MAX,
        width(g) <= usize::MAX,
    ensures
        lists_peaks(g, threshold, spec_find_peaks(g, threshold)),
{
    lemma_peaks_upto(g, threshold, g.len() - 1);
}

/// The peaks of the rows from `t_start` to before `t_end`, row by row.
pub open spec fn peaks_between(g: Seq<Seq<u32>>, threshold: u32, t_start: int, t_end: int) -> Seq<
    (usize, usize),
>
    decreases t_end - t_start,
{
    if t_end <= t_start {
        Seq::empty()
    } else {
        peaks_between(g, threshold, t_start, t_end - 1) + row_peaks(
            g,
            threshold,
            t_end - 1,
            width(g) - 1,
        )
    }
}

/// The peaks before row `b` are those before row `a` and then those of the
/// rows from `a` to before `b`.
pub proof fn lemma_peaks_upto_splits(g: Seq<Seq<u32>>, threshold: u32, a: int, b: int)
    requires
        1 <= a <= b,
    ensures
        peaks_upto(g, threshold, b) == peaks_upto(g, threshold, a) + peaks_between(
            g,
            threshold,
            a,
            b,
        ),
    decreases b - a,
{
    if a < b {
        lemma_peaks_upto_splits(g, threshold, a, b - 1);
    }
    assert(peaks_upto(g, threshold, b) =~= peaks_upto(g, threshold, a) + peaks_between(
        g,
        threshold,
        a,
        b,
    ));
}

/// Whether two spectrograms can be put one after the other in time: both
/// are rectangular, they have the same number of bins, and the bins of each
/// and the frames of both together can be counted.
pub open spec fn stackable(first: Seq<Seq<u32>>, second: Seq<Seq<u32>>) -> bool {
    &&& rectangular(first)
    &&& rectangular(second)
    &&& first.len() > 0 && second.len() > 0 ==> width(first) == width(second)
    &&& width(first) <= usize::MAX
    &&& width(second) <= usize::MAX
    &&& first.len() + second.len() <= usize::MAX
}

/// In two spectrograms put one after the other, a cell of the first that
/// does not lie in its last frame is a peak exactly if it is one in the
/// first alone.
pub proof fn lemma_peak_of_first(
    first: Seq<Seq<u32>>,
    second: Seq<Seq<u32>>,
    threshold: u32,
    t: int,
    f: int,
)
    requires
        stackable(first, second),
        t <= first.len() - 2,
    ensures
        is_peak(first + second, threshold, t, f) == is_peak(first, threshold, t, f),
{
    let g = first + second;
    if 1 <= t {
        assert(g[0] == first[0]);
        assert(g[t - 1] == first[t - 1]);
        assert(g[t] == first[t]);
        assert(g[t + 1] == first[t + 1]);
    }
}

/// In two spectrograms put one after the other, a cell of the second that
/// does not lie in its first frame is a peak exactly if it is one in the
/// second alone.
pub proof fn lemma_peak_of_second(
    first: Seq<Seq<u32>>,
    second: Seq<Seq<u32>>,
    threshold: u32,
    t: int,
    f: int,
)
    requires
        stackable(first, second),
        1 <= t,
    ensures
        is_peak(first + second, threshold, first.len() + t, f) == is_peak(second, threshold, t, f),
{
    let g = first + second;
    if t < second.len() - 1 {
        assert(g[first.len() as int] == second[0]);
        if first.len() > 0 {
            assert(g[0] == first[0]);
        }
        assert(width(g) == width(second));
        assert(g[first.len() + t - 1] == second[t - 1]);
        assert(g[first.len() + t] == second[t]);
        assert(g[first.len() + t + 1] == second[t + 1]);
    }
}

/// A row of the first of two stacked spectrograms, other than its last,
/// keeps its peaks.
pub proof fn lemma_row_of_first(
    first: Seq<Seq<u32>>,
    second: Seq<Seq<u32>>,
    threshold: u32,
    t: int,
    f_end: int,
)
    requires
        stackable(first, second),
        t <= first.len() - 2,
    ensures
        row_peaks(first + second, threshold, t, f_end) == row_peaks(first, threshold, t, f_end),
    decreases f_end,
{
    if f_end > 1 {
        lemma_row_of_first(first, second, threshold, t, f_end - 1);
        lemma_peak_of_first(first, second, threshold, t, f_end - 1);
    }
}

/// A row of the second of two stacked spectrograms, other than its first,
/// keeps its peaks, which lie later by the frames of the first.
pub proof fn lemma_row_of_second(
    first: Seq<Seq<u32>>,
    second: Seq<Seq<u32>>,
    threshold: u32,
    t: int,
    f_end: int,
)
    requires
        stackable(first, second),
        1 <= t,
    ensures
        row_peaks(first + second, threshold, first.len() + t, f_end) == later_peaks(
            row_peaks(second, threshold, t, f_end),
            first.len(),
        ),
    decreases f_end,
{
    let g = first + second;
    if f_end > 1 {
        lemma_row_of_second(first, second, threshold, t, f_end - 1);
        lemma_peak_of_second(first, second, threshold, t, f_end - 1);
    }
    assert(row_peaks(g, threshold, first.len() + t, f_end) =~= later_peaks(
        row_peaks(second, threshold, t, f_end),
        first.len(),
    ));
}

/// The peaks of the first of two stacked spectrograms come first among the
/// peaks of the two.
pub proof fn lemma_rows_of_first(
    first: Seq<Seq<u32>>,
    second: Seq<Seq<u32>>,
    threshold: u32,
    t_end: int,
)
    requires
        stackable(first, second),
        t_end <= first.len() - 1,
    ensures
        peaks_upto(first + second, threshold, t_end) == peaks_upto(first, threshold, t_end),
    decreases t_end,
{
    let g = first + second;
    if t_end > 1 {
        assert(g[0] == first[0]);
        lemma_rows_of_first(first, second, threshold, t_end - 1);
        lemma_row_of_first(first, second, threshold, t_end - 1, width(first) - 1);
    }
}

/// The peaks of the second of two stacked spectrograms come last among the
/// peaks of the two, later by the frames of the first.
pub proof fn lemma_rows_of_second(
    first: Seq<Seq<u32>>,
    second: Seq<Seq<u32>>,
    threshold: u32,
    t_end: int,
)
    requires
        stackable(first, second),
        second.len() > 0,
        1 <= t_end,
    ensures
        peaks_upto(first + second, threshold, first.len() + t_end) == peaks_upto(
            first + second,
            threshold,
            first.len() as int + 1,
        ) + later_peaks(peaks_upto(second, threshold, t_end), first.len()),
    decreases t_end,
{
    let g = first + second;
    let head = peaks_upto(g, threshold, first.len() as int + 1);
    assert(g[first.len() as int] == second[0]);
    if first.len() > 0 {
        assert(g[0] == first[0]);
    }
    assert(width(g) == width(second));
    if t_end > 1 {
        lemma_rows_of_second(first, second, threshold, t_end - 1);
        lemma_row_of_second(first, second, threshold, t_end - 1, width(second) - 1);
        assert(later_peaks(peaks_upto(second, threshold, t_end), first.len()) =~= later_peaks(
            peaks_upto(second, threshold, t_end - 1),
            first.len(),
        ) + later_peaks(
            row_peaks(second, threshold, t_end - 1, width(second) - 1),
            first.len(),
        ));
    }
    assert(peaks_upto(g, threshold, first.len() + t_end) =~= head + later_peaks(
        peaks_upto(second, threshold, t_end),
        first.len(),
    ));
}

/// The peaks of two spectrograms put one after the other in time begin with
/// the peaks of the first and end with the peaks of the second, these later
/// by the frames of the first. Between them lie the peaks that arise where
/// the two meet.
pub proof fn lemma_stacked_peaks(first: Seq<Seq<u32>>, second: Seq<Seq<u32>>, threshold: u32)
    requires
        stackable(first, second),
    ensures
        exists|rest: Seq<(usize, usize)>| #[trigger]
            (spec_find_peaks(first, threshold) + rest) == spec_find_peaks(
                first + second,
                threshold,
            ),
        exists|head: Seq<(usize, usize)>| #[trigger]
            (head + later_peaks(spec_find_peaks(second, threshold), first.len()))
                == spec_find_peaks(first + second, threshold),
{
    let g = first + second;
    let all = spec_find_peaks(g, threshold);
    let of_first = spec_find_peaks(first, threshold);
    let of_second = later_peaks(spec_find_peaks(second, threshold), first.len());
    if first.len() >= 3 {
        lemma_rows_of_first(first, second, threshold, first.len() - 1);
        lemma_peaks_upto_splits(g, threshold, first.len() - 1, g.len() - 1);
        let rest = peaks_between(g, threshold, first.len() - 1, g.len() - 1);
        assert(of_first + rest == all);
    } else {
        assert(of_first + all =~= all);
    }
    if second.len() >= 3 {
        lemma_rows_of_second(first, second, threshold, second.len() - 1);
        let head = peaks_upto(g, threshold, first.len() as int + 1);
        assert(head + of_second == all);
    } else {
        assert(all + of_second =~= all);
    }
}

/// Tells whether the cell `(t, f)`, which lies off the border, is a peak.
fn peak_at(spectrogram: &Vec<Vec<u32>>, threshold: u32, t: usize, f: usize) -> (peak: bool)
    requires
        rectangular(grid(spectrogram@)),
        1 <= t < spectrogram.len() - 1,
        1 <= f < width(grid(spectrogram@)) - 1,
    ensures
        peak == is_peak(grid(spectrogram@), threshold, t as int, f as int),
{
    let ghost g = grid(spectrogram@);
    assert(g[t - 1].len() == width(g));
    assert(g[t as int].len() == width(g));
    assert(g[t + 1].len() == width(g));
    assert(g[t + 1].len() == spectrogram@[t + 1].len());
    let above: &Vec<u32> = &spectrogram[t - 1];
    let row: &Vec<u32> = &spectrogram[t];
    let below: &Vec<u32> = &spectrogram[t + 1];
    let val: u32 = row[f];
    val >= threshold && above[f - 1] < val && above[f] < val && above[f + 1] < val && row[f - 1]
        < val && row[f + 1] < val && below[f - 1] < val && below[f] < val && below[f + 1] < val
}

/// Finds the peaks of a spectrogram: the cells off the border that reach
/// `magnitude_threshold` and are strictly greater than their eight
/// neighbours, in row-major order. A table with fewer than three rows or
/// three columns has none.
pub fn find_peaks(spectrogram: Vec<Vec<u32>>, magnitude_threshold: u32) -> (peaks: Vec<
    (usize, usize),
>)
    requires
        rectangular(grid(spectrogram@)),
    ensures
        peaks@ == spec_find_peaks(grid(spectrogram@), magnitude_threshold),
        lists_peaks(grid(spectrogram@), magnitude_threshold, peaks@),
        forall|k: int|
            0 <= k < peaks.len() ==> 1 <= (#[trigger] peaks[k]).0 < spectrogram.len() - 1 && 1
                <= peaks[k].1 < width(grid(spectrogram@)) - 1,
{
    let mut peaks: Vec<(usize, usize)> = Vec::new();
    let number_of_frames: usize = spectrogram.len();
    let ghost g = grid(spectrogram@);
    assert(width(g) <= usize::MAX) by {
        if g.len() > 0 {
            assert(g[0].len() == spectrogram@[0].len());
        }
    }
    if number_of_frames < 3 {
        proof {
            lemma_find_peaks_lists_peaks(g, magnitude_threshold);
        }
        return peaks;
    }
    let number_of_bins: usize = spectrogram[0].len();
    let mut t: usize = 1;
    while t + 1 < number_of_frames
        invariant
            g == grid(spectrogram@),
            rectangular(g),
            number_of_frames == spectrogram.len(),
            number_of_frames >= 3,
            number_of_bins == width(g),
            1 <= t <= number_of_frames - 1,
            peaks@ == peaks_upto(g, magnitude_threshold, t as int),
        decreases number_of_frames - t,
    {
        let mut f: usize = 1;
        assert(peaks@ + row_peaks(g, magnitude_threshold, t as int, 1) == peaks@);
        while f + 1 < number_of_bins
            invariant
                g == grid(spectrogram@),
                rectangular(g),
                number_of_frames == spectrogram.len(),
                number_of_bins == width(g),
                1 <= t < number_of_frames - 1,
                f == 1 || (1 < f && f + 1 <= number_of_bins),
                peaks@ == peaks_upto(g, magnitude_threshold, t as int) + row_peaks(
                    g,
                    magnitude_threshold,
                    t as int,
                    f as int,
                ),
            decreases number_of_bins - f,
        {
            if peak_at(&spectrogram, magnitude_threshold, t, f) {
                peaks.push((t, f));
            }
            f += 1;
        }
        assert(row_peaks(g, magnitude_threshold, t as int, f as int) == row_peaks(
            g,
            magnitude_threshold,
            t as int,
            number_of_bins - 1,
        ));
        t += 1;
    }
    proof {
        lemma_find_peaks_lists_peaks(g, magnitude_threshold);
    }
    peaks
}

} // verus!
