//! Framing of a signal and the magnitude spectra of its frames.
//!
//! The functions are generic over the sample type and never look into a
//! sample. What is computed on samples, the taper of a frame and the
//! transform of a frame, is handed in as a function.

use crate::config::{FRAME_SIZE, HOP_SIZE};
use crate::table::{grid, rectangular, width};
use vstd::prelude::*;

verus! {

/// The sample at `position` of the signal continued with `fill` past its end.
pub open spec fn padded<T>(signal: Seq<T>, fill: T, position: int) -> T {
    if 0 <= position < signal.len() {
        signal[position]
    } else {
        fill
    }
}

/// The `size` samples from `start` on of the signal continued with `fill`.
pub open spec fn padded_window<T>(signal: Seq<T>, fill: T, start: int, size: nat) -> Seq<T> {
    Seq::new(size, |i: int| padded(signal, fill, start + i))
}

/// The number of frames of a signal of `len` samples: one per hop begun.
pub open spec fn frame_count(len: nat) -> nat {
    ((len + HOP_SIZE - 1) / (HOP_SIZE as int)) as nat
}

/// Copies `size` samples from `start` on, with `fill` in place of every
/// sample past the end of the signal.
pub fn cut_window<T: Copy>(signal: &[T], start: usize, size: usize, fill: T) -> (window: Vec<T>)
    ensures
        window@ == padded_window(signal@, fill, start as int, size as nat),
{
    let mut window: Vec<T> = Vec::with_capacity(size);
    let mut i: usize = 0;
    while i < size
        invariant
            i <= size,
            window@ == padded_window(signal@, fill, start as int, i as nat),
        decreases size - i,
    {
        let sample: T = if i < signal.len() && start < signal.len() - i {
            signal[start + i]
        } else {
            fill
        };
        window.push(sample);
        assert(window@ =~= padded_window(signal@, fill, start as int, (i + 1) as nat));
        i += 1;
    }
    window
}

/// Whether `frames` are the tapered frames of the signal `pcm`: one frame
/// per hop begun, each of `FRAME_SIZE` samples, and sample `i` of frame `k`
/// a result of `taper` for `i` and the sample at `k * HOP_SIZE + i` of the
/// signal continued with `silence`.
pub open spec fn is_framing<T, F: Fn(usize, T) -> T>(
    taper: F,
    pcm: Seq<T>,
    silence: T,
    frames: Seq<Vec<T>>,
) -> bool {
    &&& frames.len() == frame_count(pcm.len())
    &&& forall|k: int| 0 <= k < frames.len() ==> (#[trigger] frames[k]).len() == FRAME_SIZE
    &&& forall|k: int, i: int|
        0 <= k < frames.len() && 0 <= i < FRAME_SIZE ==> call_ensures(
            taper,
            (i as usize, padded(pcm, silence, k * HOP_SIZE + i)),
            #[trigger] frames[k][i],
        )
}

/// Cuts the signal into frames of `FRAME_SIZE` samples that start `HOP_SIZE`
/// samples apart, the last frames continued with `silence` past the end of
/// the signal, and tapers each frame: sample `i` of a frame is what `taper`
/// gives for `i` and the sample at that place.
pub fn frame<T: Copy, F: Fn(usize, T) -> T>(pcm_buffer: &Vec<T>, silence: T, taper: F) -> (frames:
    Vec<Vec<T>>)
    requires
        forall|i: usize, sample: T| i < FRAME_SIZE ==> call_requires(taper, (i, sample)),
    ensures
        is_framing(taper, pcm_buffer@, silence, frames@),
        frames.len() == frame_count(pcm_buffer@.len()),
        forall|k: int| 0 <= k < frames.len() ==> (#[trigger] frames[k]).len() == FRAME_SIZE,
        forall|k: int, i: int|
            0 <= k < frames.len() && 0 <= i < FRAME_SIZE ==> call_ensures(
                taper,
                (i as usize, padded(pcm_buffer@, silence, k * HOP_SIZE + i)),
                #[trigger] frames[k][i],
            ),
{
    let len: usize = pcm_buffer.len();
    let count: usize = if len % HOP_SIZE == 0 {
        len / HOP_SIZE
    } else {
        len / HOP_SIZE + 1
    };
    let mut frames: Vec<Vec<T>> = Vec::with_capacity(count);
    let mut k: usize = 0;
    while k < count
        invariant
            len == pcm_buffer.len(),
            count == frame_count(len as nat),
            k <= count,
            frames.len() == k,
            forall|i: usize, sample: T| i < FRAME_SIZE ==> call_requires(taper, (i, sample)),
            forall|j: int| 0 <= j < k ==> (#[trigger] frames[j]).len() == FRAME_SIZE,
            forall|j: int, i: int|
                0 <= j < k && 0 <= i < FRAME_SIZE ==> call_ensures(
                    taper,
                    (i as usize, padded(pcm_buffer@, silence, j * HOP_SIZE + i)),
                    #[trigger] frames[j][i],
                ),
        decreases count - k,
    {
        let raw: Vec<T> = cut_window(pcm_buffer.as_slice(), k * HOP_SIZE, FRAME_SIZE, silence);
        let mut tapered: Vec<T> = Vec::with_capacity(FRAME_SIZE);
        let mut i: usize = 0;
        while i < FRAME_SIZE
            invariant
                i <= FRAME_SIZE,
                tapered.len() == i,
                raw@ == padded_window(pcm_buffer@, silence, k * HOP_SIZE, FRAME_SIZE as nat),
                forall|i: usize, sample: T| i < FRAME_SIZE ==> call_requires(taper, (i, sample)),
                forall|m: int|
                    0 <= m < i ==> call_ensures(
                        taper,
                        (m as usize, padded(pcm_buffer@, silence, k * HOP_SIZE + m)),
                        #[trigger] tapered[m],
                    ),
            decreases FRAME_SIZE - i,
        {
            tapered.push(taper(i, raw[i]));
            i += 1;
        }
        frames.push(tapered);
        k += 1;
    }
    frames
}

/// Whether `row` is the first half of some result of `spectrum` for `frame`.
pub open spec fn is_half_spectrum<T, F: Fn(&Vec<T>) -> Vec<u32>>(
    spectrum: F,
    frame: Vec<T>,
    row: Seq<u32>,
) -> bool {
    exists|bins: Vec<u32>| #[trigger]
        call_ensures(spectrum, (&frame,), bins) && row == bins@.take(frame.len() as int / 2)
}

/// Whether `magnitudes` holds, frame by frame, the first half of a result of
/// `spectrum` for the frame.
pub open spec fn is_spectrogram_of<T, F: Fn(&Vec<T>) -> Vec<u32>>(
    spectrum: F,
    frames: Seq<Vec<T>>,
    magnitudes: Seq<Vec<u32>>,
) -> bool {
    &&& magnitudes.len() == frames.len()
    &&& forall|k: int|
        0 <= k < magnitudes.len() ==> is_half_spectrum(
            spectrum,
            frames[k],
            (#[trigger] magnitudes[k])@,
        )
}

/// The magnitude spectra of the frames, one row per frame in the order of
/// the frames. `spectrum` gives, for a frame, one magnitude per sample of the
/// frame: the magnitudes of its transform. Of these the first half is kept,
/// the bins below half the sample rate.
pub fn fft_magnitude<T, F: Fn(&Vec<T>) -> Vec<u32>>(frames: Vec<Vec<T>>, spectrum: F) -> (magnitudes:
    Vec<Vec<u32>>)
    requires
        rectangular(grid(frames@)),
        forall|k: int| 0 <= k < frames.len() ==> call_requires(spectrum, (&#[trigger] frames[k],)),
        forall|k: int, bins: Vec<u32>|
            0 <= k < frames.len() && #[trigger] call_ensures(spectrum, (&frames[k],), bins)
                ==> bins.len() == frames[k].len(),
    ensures
        is_spectrogram_of(spectrum, frames@, magnitudes@),
        magnitudes.len() == frames.len(),
        rectangular(grid(magnitudes@)),
        forall|k: int|
            0 <= k < magnitudes.len() ==> (#[trigger] magnitudes[k]).len() == width(
                grid(frames@),
            ) / 2,
        forall|k: int|
            0 <= k < magnitudes.len() ==> is_half_spectrum(
                spectrum,
                frames[k],
                (#[trigger] magnitudes[k])@,
            ),
{
    let mut magnitudes: Vec<Vec<u32>> = Vec::with_capacity(frames.len());
    if frames.len() == 0 {
        return magnitudes;
    }
    let n: usize = frames[0].len();
    let half: usize = n / 2;
    let mut k: usize = 0;
    while k < frames.len()
        invariant
            k <= frames.len(),
            frames.len() > 0,
            magnitudes.len() == k,
            n == width(grid(frames@)),
            half == n / 2,
            rectangular(grid(frames@)),
            forall|j: int|
                0 <= j < frames.len() ==> call_requires(spectrum, (&#[trigger] frames[j],)),
            forall|j: int, bins: Vec<u32>|
                0 <= j < frames.len() && #[trigger] call_ensures(spectrum, (&frames[j],), bins)
                    ==> bins.len() == frames[j].len(),
            forall|j: int| 0 <= j < k ==> (#[trigger] magnitudes[j]).len() == half,
            forall|j: int|
                0 <= j < k ==> is_half_spectrum(spectrum, frames[j], (#[trigger] magnitudes[j])@),
        decreases frames.len() - k,
    {
        let mut bins: Vec<u32> = spectrum(&frames[k]);
        let ghost full = bins;
        assert(grid(frames@)[k as int].len() == n);
        bins.truncate(half);
        assert(bins@ == full@.take(half as int));
        assert(is_half_spectrum(spectrum, frames[k as int], bins@));
        magnitudes.push(bins);
        k += 1;
    }
    assert(grid(magnitudes@).len() > 0 ==> width(grid(magnitudes@)) == magnitudes[0].len());
    magnitudes
}

} // verus!
