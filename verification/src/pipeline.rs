//! From a magnitude spectrogram to the fingerprints of the audio.

use crate::config::{
    CHUNK_SIZE,
    FAN_VALUE,
    FRAME_SIZE,
    MAGNITUDE_THRESHOLD,
    MAX_TIME_DIFF,
    TARGET_SAMPLE_RATE,
};
use crate::decode::{
    is_batch,
    is_conversion,
    is_mono_of,
    is_resampling,
    resample,
    spec_stream_params,
    stream_params,
    to_mono,
    Probe,
    StreamParams,
};
use crate::error::PipelineError;
use crate::config::HOP_SIZE;
use crate::extraction::{
    fft_magnitude,
    frame,
    frame_count,
    is_framing,
    is_half_spectrum,
    is_spectrogram_of,
    padded,
};
use crate::hashing::{
    generate_hashes,
    has_witness_pair,
    later_fingerprint,
    later_peaks,
    lemma_joined_lists_keep_fingerprints,
    lemma_later_peaks_give_later_fingerprints,
    spec_generate_hashes,
    Fingerprint,
};
use crate::hashing::{
    landmark,
    lemma_fingerprints_have_witnesses,
    lemma_hash_fields,
    lemma_pair_emitted,
    lemma_pair_within_prefix,
    paired,
    within_reach,
};
use crate::peaks::{
    find_peaks,
    is_peak,
    lemma_find_peaks_lists_peaks,
    lemma_peaks_upto,
    lemma_row_peaks,
    lemma_rows_of_first,
    lemma_stacked_peaks,
    peaks_upto,
    row_major_before,
    row_peaks,
    spec_find_peaks,
    stackable,
};
use crate::table::{grid, rectangular, width};
use vstd::prelude::*;

verus! {

/// The fingerprints of a spectrogram: the landmarks of its peaks, for the
/// fixed threshold, fan-out and reach.
pub open spec fn spec_fingerprint_pipeline(g: Seq<Seq<u32>>) -> Seq<Fingerprint> {
    spec_generate_hashes(spec_find_peaks(g, MAGNITUDE_THRESHOLD), FAN_VALUE, MAX_TIME_DIFF)
}

/// Two spectrograms put one after the other in time keep the fingerprints
/// of both: every fingerprint of the first is a fingerprint of the two, and
/// so is every fingerprint of the second, anchored later by the frames of
/// the first. The two may have more: peaks arise where they meet, and the
/// last peaks of the first are paired with peaks that follow them.
pub proof fn lemma_stacked_spectrograms_keep_fingerprints(
    first: Seq<Seq<u32>>,
    second: Seq<Seq<u32>>,
    fp: Fingerprint,
)
    requires
        stackable(first, second),
    ensures
        spec_fingerprint_pipeline(first).contains(fp) ==> spec_fingerprint_pipeline(
            first + second,
        ).contains(fp),
        spec_fingerprint_pipeline(second).contains(fp) ==> spec_fingerprint_pipeline(
            first + second,
        ).contains(later_fingerprint(fp, first.len())),
{
    let all = spec_find_peaks(first + second, MAGNITUDE_THRESHOLD);
    let of_first = spec_find_peaks(first, MAGNITUDE_THRESHOLD);
    let of_second = spec_find_peaks(second, MAGNITUDE_THRESHOLD);
    lemma_stacked_peaks(first, second, MAGNITUDE_THRESHOLD);
    if spec_fingerprint_pipeline(first).contains(fp) {
        let rest = choose|rest: Seq<(usize, usize)>| #[trigger] (of_first + rest) == all;
        lemma_joined_lists_keep_fingerprints(of_first, rest, FAN_VALUE, MAX_TIME_DIFF, fp);
    }
    if spec_fingerprint_pipeline(second).contains(fp) {
        let later = later_peaks(of_second, first.len());
        let head = choose|head: Seq<(usize, usize)>| #[trigger] (head + later) == all;
        lemma_peaks_upto(second, MAGNITUDE_THRESHOLD, second.len() - 1);
        lemma_later_peaks_give_later_fingerprints(
            of_second,
            first.len(),
            FAN_VALUE,
            MAX_TIME_DIFF,
            fp,
        );
        lemma_joined_lists_keep_fingerprints(
            head,
            later,
            FAN_VALUE,
            MAX_TIME_DIFF,
            later_fingerprint(fp, first.len()),
        );
    }
}

/// Whether `joined` is the spectrogram of two signals joined at a hop, of
/// which `first` and `second` are the spectrograms: it has the frames of
/// both; the frames of the first but its last, and the frames of the
/// second, are in it as they are. The last frame of the first is another in
/// it, since it reaches into the second signal.
pub open spec fn joined_at_hop(
    first: Seq<Seq<u32>>,
    second: Seq<Seq<u32>>,
    joined: Seq<Seq<u32>>,
) -> bool {
    &&& first.len() >= 1
    &&& joined.len() == first.len() + second.len()
    &&& joined.len() <= usize::MAX
    &&& rectangular(first)
    &&& rectangular(second)
    &&& rectangular(joined)
    &&& width(first) == width(joined)
    &&& width(joined) <= usize::MAX
    &&& forall|t: int| 0 <= t < first.len() - 1 ==> #[trigger] joined[t] == first[t]
    &&& forall|t: int| 0 <= t < second.len() ==> joined[first.len() + t] == #[trigger] second[t]
}

/// Two signals joined at a hop keep their fingerprints away from the joint:
/// the fingerprint of every pair of peaks of the first that lie before its
/// last two frames is a fingerprint of the joined signal, and so is every
/// fingerprint of the second, anchored later by the frames of the first.
pub proof fn lemma_joined_at_hop_keeps_fingerprints(
    first: Seq<Seq<u32>>,
    second: Seq<Seq<u32>>,
    joined: Seq<Seq<u32>>,
    i: int,
    j: int,
    fp: Fingerprint,
)
    requires
        joined_at_hop(first, second, joined),
    ensures
        ({
            let peaks = spec_find_peaks(first, MAGNITUDE_THRESHOLD);
            paired(peaks, FAN_VALUE, MAX_TIME_DIFF, i, j) && peaks[j].0 + 3 <= first.len()
                ==> spec_fingerprint_pipeline(joined).contains(landmark(peaks[i], peaks[j]))
        }),
        spec_fingerprint_pipeline(second).contains(fp) ==> spec_fingerprint_pipeline(
            joined,
        ).contains(later_fingerprint(fp, first.len())),
{
    let n = first.len() as int;
    let peaks = spec_find_peaks(first, MAGNITUDE_THRESHOLD);
    if spec_fingerprint_pipeline(second).contains(fp) {
        let head = joined.take(n);
        assert(joined =~= head + second);
        assert(second.len() > 0 ==> second[0] == joined[n + 0]);
        assert(head[0] == joined[0]);
        assert(stackable(head, second));
        lemma_stacked_spectrograms_keep_fingerprints(head, second, fp);
    }
    if paired(peaks, FAN_VALUE, MAX_TIME_DIFF, i, j) && peaks[j].0 + 3 <= n {
        lemma_find_peaks_lists_peaks(first, MAGNITUDE_THRESHOLD);
        assert(is_peak(first, MAGNITUDE_THRESHOLD, peaks[j].0 as int, peaks[j].1 as int));
        let trunk = first.take(n - 1);
        let last = first.skip(n - 1);
        assert(first =~= trunk + last);
        assert(trunk[0] == first[0]);
        assert(last[0] == first[n - 1]);
        assert(stackable(trunk, last));
        lemma_rows_of_first(trunk, last, MAGNITUDE_THRESHOLD, n - 2);
        let early = peaks_upto(first, MAGNITUDE_THRESHOLD, n - 2);
        let late = row_peaks(first, MAGNITUDE_THRESHOLD, n - 2, width(first) - 1);
        assert(early == spec_find_peaks(trunk, MAGNITUDE_THRESHOLD));
        assert(peaks == early + late);
        lemma_row_peaks(first, MAGNITUDE_THRESHOLD, n - 2, width(first) - 1);
        if j >= early.len() {
            assert(peaks[j] == late[j - early.len()]);
        }
        lemma_pair_within_prefix(early, late, FAN_VALUE, MAX_TIME_DIFF, i, j);
        lemma_pair_emitted(early, FAN_VALUE, MAX_TIME_DIFF, i, j);
        let rest = joined.skip(n - 1);
        assert(joined =~= trunk + rest);
        assert(rest[0] == joined[n - 1]);
        assert(trunk[0] == joined[0]);
        assert(stackable(trunk, rest));
        lemma_stacked_spectrograms_keep_fingerprints(trunk, rest, landmark(peaks[i], peaks[j]));
    }
}

/// Whether `taper` gives one result for one place and sample.
pub open spec fn taper_is_function<T, W: Fn(usize, T) -> T>(taper: W) -> bool {
    forall|i: usize, sample: T, r1: T, r2: T|
        #![trigger call_ensures(taper, (i, sample), r1), call_ensures(taper, (i, sample), r2)]
        call_ensures(taper, (i, sample), r1) && call_ensures(taper, (i, sample), r2) ==> r1 == r2
}

/// Whether `spectrum` gives, for a frame of `FRAME_SIZE` samples, one
/// magnitude per sample, and the same magnitudes for the same samples.
pub open spec fn spectrum_is_function<T, S: Fn(&Vec<T>) -> Vec<u32>>(spectrum: S) -> bool {
    &&& forall|samples: Vec<T>, bins: Vec<u32>|
        samples.len() == FRAME_SIZE && #[trigger] call_ensures(spectrum, (&samples,), bins)
            ==> bins.len() == samples.len()
    &&& forall|f1: Vec<T>, f2: Vec<T>, b1: Vec<u32>, b2: Vec<u32>|
        #![trigger call_ensures(spectrum, (&f1,), b1), call_ensures(spectrum, (&f2,), b2)]
        f1@ == f2@ && call_ensures(spectrum, (&f1,), b1) && call_ensures(spectrum, (&f2,), b2)
            ==> b1@ == b2@
}

/// Sample `i` of frame `k` of a signal before tapering.
pub open spec fn frame_sample<T>(signal: Seq<T>, silence: T, k: int, i: int) -> T {
    padded(signal, silence, k * HOP_SIZE + i)
}

/// A row of a spectrogram holds `FRAME_SIZE / 2` magnitudes.
proof fn lemma_row_length<T, S: Fn(&Vec<T>) -> Vec<u32>>(spectrum: S, samples: Vec<T>, row: Seq<u32>)
    requires
        spectrum_is_function(spectrum),
        samples.len() == FRAME_SIZE,
        is_half_spectrum(spectrum, samples, row),
    ensures
        row.len() == FRAME_SIZE / 2,
{
    let bins = choose|bins: Vec<u32>| #[trigger]
        call_ensures(spectrum, (&samples,), bins) && row == bins@.take(samples.len() as int / 2);
    assert(bins.len() == samples.len());
}

/// Frames that hold the same samples before tapering have the same row in
/// the spectrogram.
proof fn lemma_same_samples_same_row<T, W: Fn(usize, T) -> T, S: Fn(&Vec<T>) -> Vec<u32>>(
    taper: W,
    spectrum: S,
    silence: T,
    x: Seq<T>,
    kx: int,
    fx: Vec<T>,
    rx: Seq<u32>,
    y: Seq<T>,
    ky: int,
    fy: Vec<T>,
    ry: Seq<u32>,
)
    requires
        taper_is_function(taper),
        spectrum_is_function(spectrum),
        fx.len() == FRAME_SIZE,
        fy.len() == FRAME_SIZE,
        forall|i: int|
            0 <= i < FRAME_SIZE ==> call_ensures(
                taper,
                (i as usize, padded(x, silence, kx * HOP_SIZE + i)),
                #[trigger] fx[i],
            ),
        forall|i: int|
            0 <= i < FRAME_SIZE ==> call_ensures(
                taper,
                (i as usize, padded(y, silence, ky * HOP_SIZE + i)),
                #[trigger] fy[i],
            ),
        forall|i: int|
            0 <= i < FRAME_SIZE ==> #[trigger] frame_sample(x, silence, kx, i) == frame_sample(
                y,
                silence,
                ky,
                i,
            ),
        is_half_spectrum(spectrum, fx, rx),
        is_half_spectrum(spectrum, fy, ry),
    ensures
        rx == ry,
{
    assert forall|i: int| 0 <= i < FRAME_SIZE implies fx@[i] == fy@[i] by {
        assert(frame_sample(x, silence, kx, i) == frame_sample(y, silence, ky, i));
        assert(call_ensures(
            taper,
            (i as usize, padded(x, silence, kx * HOP_SIZE + i)),
            fx[i],
        ));
        assert(call_ensures(
            taper,
            (i as usize, padded(x, silence, kx * HOP_SIZE + i)),
            fy[i],
        ));
    }
    assert(fx@ =~= fy@);
    let bx = choose|bins: Vec<u32>| #[trigger]
        call_ensures(spectrum, (&fx,), bins) && rx == bins@.take(fx.len() as int / 2);
    let by = choose|bins: Vec<u32>| #[trigger]
        call_ensures(spectrum, (&fy,), bins) && ry == bins@.take(fy.len() as int / 2);
    assert(bx@ == by@);
}

/// The spectrogram of two signals joined at a hop is the joined spectrogram
/// of the two: with a taper and a transform that are functions, the frames
/// of the first signal but its last, and the frames of the second, have in
/// it the rows that they have alone.
pub proof fn lemma_signals_joined_at_hop<T, W: Fn(usize, T) -> T, S: Fn(&Vec<T>) -> Vec<u32>>(
    taper: W,
    spectrum: S,
    silence: T,
    a: Seq<T>,
    b: Seq<T>,
    frames_a: Seq<Vec<T>>,
    frames_b: Seq<Vec<T>>,
    frames_ab: Seq<Vec<T>>,
    rows_a: Seq<Vec<u32>>,
    rows_b: Seq<Vec<u32>>,
    rows_ab: Seq<Vec<u32>>,
)
    requires
        a.len() >= 1,
        a.len() % (HOP_SIZE as nat) == 0,
        a.len() + b.len() <= usize::MAX,
        taper_is_function(taper),
        spectrum_is_function(spectrum),
        is_framing(taper, a, silence, frames_a),
        is_framing(taper, b, silence, frames_b),
        is_framing(taper, a + b, silence, frames_ab),
        is_spectrogram_of(spectrum, frames_a, rows_a),
        is_spectrogram_of(spectrum, frames_b, rows_b),
        is_spectrogram_of(spectrum, frames_ab, rows_ab),
    ensures
        grid(rows_a).len() == a.len() / (HOP_SIZE as nat),
        joined_at_hop(grid(rows_a), grid(rows_b), grid(rows_ab)),
{
    let off = a.len() as int / 512;
    let ga = grid(rows_a);
    let gb = grid(rows_b);
    let gab = grid(rows_ab);
    assert(frame_count(a.len()) == off);
    assert(frame_count((a + b).len()) == off + frame_count(b.len()));
    assert forall|t: int| 0 <= t < ga.len() implies (#[trigger] ga[t]).len() == 512 by {
        lemma_row_length(spectrum, frames_a[t], rows_a[t]@);
    }
    assert forall|t: int| 0 <= t < gb.len() implies (#[trigger] gb[t]).len() == 512 by {
        lemma_row_length(spectrum, frames_b[t], rows_b[t]@);
    }
    assert forall|t: int| 0 <= t < gab.len() implies (#[trigger] gab[t]).len() == 512 by {
        lemma_row_length(spectrum, frames_ab[t], rows_ab[t]@);
    }
    assert(ga[0].len() == 512 && gab[0].len() == 512);
    assert forall|t: int| 0 <= t < ga.len() - 1 implies #[trigger] gab[t] == ga[t] by {
        assert forall|i: int| 0 <= i < FRAME_SIZE implies #[trigger] frame_sample(
            a + b,
            silence,
            t,
            i,
        ) == frame_sample(a, silence, t, i) by {
            assert((a + b)[t * 512 + i] == a[t * 512 + i]);
        }
        lemma_same_samples_same_row(
            taper,
            spectrum,
            silence,
            a + b,
            t,
            frames_ab[t],
            rows_ab[t]@,
            a,
            t,
            frames_a[t],
            rows_a[t]@,
        );
    }
    assert forall|t: int| 0 <= t < gb.len() implies gab[ga.len() + t] == #[trigger] gb[t] by {
        assert forall|i: int| 0 <= i < FRAME_SIZE implies #[trigger] frame_sample(
            a + b,
            silence,
            off + t,
            i,
        ) == frame_sample(b, silence, t, i) by {
            if t * 512 + i < b.len() {
                assert((a + b)[(off + t) * 512 + i] == b[t * 512 + i]);
            }
        }
        lemma_same_samples_same_row(
            taper,
            spectrum,
            silence,
            a + b,
            off + t,
            frames_ab[off + t],
            rows_ab[off + t]@,
            b,
            t,
            frames_b[t],
            rows_b[t]@,
        );
    }
}

/// Two signals at the target rate joined at a hop keep their fingerprints
/// away from the joint. With a taper and a transform that are functions,
/// the fingerprints of the joined signal hold the fingerprint of every pair
/// of peaks of the first signal that lie before its last two frames, and
/// every fingerprint of the second signal, anchored later by the frames of
/// the first. They may hold more: those of peaks at the joint, and those
/// that pair a peak of the first with a peak of the second.
pub proof fn lemma_joined_signals_keep_fingerprints<
    T,
    W: Fn(usize, T) -> T,
    S: Fn(&Vec<T>) -> Vec<u32>,
>(
    taper: W,
    spectrum: S,
    silence: T,
    a: Seq<T>,
    b: Seq<T>,
    frames_a: Seq<Vec<T>>,
    frames_b: Seq<Vec<T>>,
    frames_ab: Seq<Vec<T>>,
    rows_a: Seq<Vec<u32>>,
    rows_b: Seq<Vec<u32>>,
    rows_ab: Seq<Vec<u32>>,
    i: int,
    j: int,
    fp: Fingerprint,
)
    requires
        a.len() >= 1,
        a.len() % (HOP_SIZE as nat) == 0,
        a.len() + b.len() <= usize::MAX,
        taper_is_function(taper),
        spectrum_is_function(spectrum),
        is_framing(taper, a, silence, frames_a),
        is_framing(taper, b, silence, frames_b),
        is_framing(taper, a + b, silence, frames_ab),
        is_spectrogram_of(spectrum, frames_a, rows_a),
        is_spectrogram_of(spectrum, frames_b, rows_b),
        is_spectrogram_of(spectrum, frames_ab, rows_ab),
    ensures
        ({
            let peaks = spec_find_peaks(grid(rows_a), MAGNITUDE_THRESHOLD);
            paired(peaks, FAN_VALUE, MAX_TIME_DIFF, i, j) && peaks[j].0 + 3 <= a.len() / (
            HOP_SIZE as nat) ==> spec_fingerprint_pipeline(grid(rows_ab)).contains(
                landmark(peaks[i], peaks[j]),
            )
        }),
        spec_fingerprint_pipeline(grid(rows_b)).contains(fp) ==> spec_fingerprint_pipeline(
            grid(rows_ab),
        ).contains(later_fingerprint(fp, a.len() / (HOP_SIZE as nat))),
{
    lemma_signals_joined_at_hop(
        taper,
        spectrum,
        silence,
        a,
        b,
        frames_a,
        frames_b,
        frames_ab,
        rows_a,
        rows_b,
        rows_ab,
    );
    lemma_joined_at_hop_keeps_fingerprints(
        grid(rows_a),
        grid(rows_b),
        grid(rows_ab),
        i,
        j,
        fp,
    );
}

/// A spectrogram whose peaks all lie in one bin, as that of a steady tone
/// has them, has its fingerprints in that bin: both bin fields of every
/// hash hold the bin, the distance lies between 1 and `MAX_TIME_DIFF`, and
/// the anchor frame lies off the border.
pub proof fn lemma_fingerprints_of_one_bin(g: Seq<Seq<u32>>, bin: usize, k: int)
    requires
        g.len() <= usize::MAX,
        width(g) <= usize::MAX,
        forall|t: int, f: int| #[trigger] is_peak(g, MAGNITUDE_THRESHOLD, t, f) ==> f == bin,
        0 <= k < spec_fingerprint_pipeline(g).len(),
    ensures
        ({
            let fp = spec_fingerprint_pipeline(g)[k];
            &&& fp.hash >> 32 == (bin as u64) & 0xFFFF
            &&& (fp.hash >> 16) & 0xFFFF == (bin as u64) & 0xFFFF
            &&& 1 <= fp.hash & 0xFFFF <= MAX_TIME_DIFF
            &&& 1 <= fp.frame_index <= g.len() - 2
        }),
{
    let peaks = spec_find_peaks(g, MAGNITUDE_THRESHOLD);
    let fp = spec_fingerprint_pipeline(g)[k];
    lemma_find_peaks_lists_peaks(g, MAGNITUDE_THRESHOLD);
    lemma_fingerprints_have_witnesses(peaks, FAN_VALUE, MAX_TIME_DIFF, peaks.len(), k);
    let (i, j) = choose|i: int, j: int|
        #[trigger] paired(peaks, FAN_VALUE, MAX_TIME_DIFF, i, j) && j - i <= FAN_VALUE
            && within_reach(peaks, MAX_TIME_DIFF, i, j) && fp == landmark(peaks[i], peaks[j]);
    assert(is_peak(g, MAGNITUDE_THRESHOLD, peaks[i].0 as int, peaks[i].1 as int));
    assert(is_peak(g, MAGNITUDE_THRESHOLD, peaks[j].0 as int, peaks[j].1 as int));
    assert(row_major_before(peaks[i], peaks[j]));
    let distance = (peaks[j].0 - peaks[i].0) as usize;
    lemma_hash_fields(bin, bin, distance);
    let d: u64 = distance as u64;
    assert(d & 0xFFFF == d) by (bit_vector)
        requires
            d <= 50,
    ;
}

/// Extracts the fingerprints of a spectrogram: picks its peaks and pairs
/// them. A spectrogram without frames, as audio without samples has it, and
/// one without peaks, as silence has it, give an empty list.
pub fn fingerprint_pipeline(spectrogram: Vec<Vec<u32>>) -> (fingerprints: Vec<Fingerprint>)
    requires
        rectangular(grid(spectrogram@)),
    ensures
        fingerprints@ == spec_fingerprint_pipeline(grid(spectrogram@)),
        spec_find_peaks(grid(spectrogram@), MAGNITUDE_THRESHOLD).len() == 0
            ==> fingerprints.len() == 0,
        spectrogram.len() < 3 ==> fingerprints.len() == 0,
        forall|k: int|
            0 <= k < fingerprints.len() ==> has_witness_pair(
                spec_find_peaks(grid(spectrogram@), MAGNITUDE_THRESHOLD),
                FAN_VALUE,
                MAX_TIME_DIFF,
                #[trigger] fingerprints[k],
            ),
{
    let peaks: Vec<(usize, usize)> = find_peaks(spectrogram, MAGNITUDE_THRESHOLD);
    generate_hashes(peaks.as_slice(), FAN_VALUE, MAX_TIME_DIFF)
}

/// Tells audio without content from audio to work on: audio without
/// samples is `EmptyAudio`, audio with samples but without frames is
/// `EmptySpectrogram`.
pub fn content_check(samples: usize, frames: usize) -> (outcome: Result<(), PipelineError>)
    ensures
        outcome == (if samples == 0 {
            Err::<(), PipelineError>(PipelineError::EmptyAudio)
        } else if frames == 0 {
            Err::<(), PipelineError>(PipelineError::EmptySpectrogram)
        } else {
            Ok::<(), PipelineError>(())
        }),
{
    if samples == 0 {
        Err(PipelineError::EmptyAudio)
    } else if frames == 0 {
        Err(PipelineError::EmptySpectrogram)
    } else {
        Ok(())
    }
}

/// What an extraction hands to its caller: its fingerprints; for audio
/// without content an empty list; and every other failure as it is.
pub fn surface(outcome: Result<Vec<Fingerprint>, PipelineError>) -> (surfaced: Result<
    Vec<Fingerprint>,
    PipelineError,
>)
    ensures
        match outcome {
            Ok(fingerprints) => surfaced matches Ok(same) && same@ == fingerprints@,
            Err(kind) => if kind.is_fatal() {
                surfaced == Err::<Vec<Fingerprint>, PipelineError>(kind)
            } else {
                surfaced matches Ok(none) && none@.len() == 0
            },
        },
{
    match outcome {
        Ok(fingerprints) => Ok(fingerprints),
        Err(kind) => if kind.is_fatal() {
            Err(kind)
        } else {
            Ok(Vec::new())
        },
    }
}

/// Whether `mono`, `pcm`, `frames` and `magnitudes` are what the stages of
/// an extraction give one after the other for the decoded `samples`: the
/// mixdown, the signal at the target rate, its tapered frames and their
/// magnitude spectra.
pub open spec fn is_extraction_trace<
    T,
    M: Fn(&[T]) -> T,
    C: Fn(u32, u32, Vec<Vec<T>>) -> Option<Vec<T>>,
    W: Fn(usize, T) -> T,
    S: Fn(&Vec<T>) -> Vec<u32>,
>(
    mix: M,
    convert: C,
    taper: W,
    spectrum: S,
    samples: Seq<T>,
    sample_rate: u32,
    channels: usize,
    silence: T,
    mono: Vec<T>,
    pcm: Vec<T>,
    frames: Vec<Vec<T>>,
    magnitudes: Vec<Vec<u32>>,
) -> bool {
    &&& is_mono_of(mix, samples, channels, mono@)
    &&& is_resampling(
        convert,
        sample_rate,
        TARGET_SAMPLE_RATE,
        mono@,
        silence,
        Ok::<Vec<T>, PipelineError>(pcm),
    )
    &&& is_framing(taper, pcm@, silence, frames@)
    &&& is_spectrogram_of(spectrum, frames@, magnitudes@)
    &&& rectangular(grid(magnitudes@))
}

/// Whether `outcome` is a result of extracting the fingerprints of the
/// decoded `samples`. A list of fingerprints is that of the spectrogram
/// which the stages give. The one failure is a rate converter that refused
/// a batch of the mixdown.
pub open spec fn is_extraction<
    T,
    M: Fn(&[T]) -> T,
    C: Fn(u32, u32, Vec<Vec<T>>) -> Option<Vec<T>>,
    W: Fn(usize, T) -> T,
    S: Fn(&Vec<T>) -> Vec<u32>,
>(
    mix: M,
    convert: C,
    taper: W,
    spectrum: S,
    samples: Seq<T>,
    sample_rate: u32,
    channels: usize,
    silence: T,
    outcome: Result<Vec<Fingerprint>, PipelineError>,
) -> bool {
    match outcome {
        Ok(list) => exists|
            mono: Vec<T>,
            pcm: Vec<T>,
            frames: Vec<Vec<T>>,
            magnitudes: Vec<Vec<u32>>,
        | #[trigger]
            is_extraction_trace(
                mix,
                convert,
                taper,
                spectrum,
                samples,
                sample_rate,
                channels,
                silence,
                mono,
                pcm,
                frames,
                magnitudes,
            ) && list@ == spec_fingerprint_pipeline(grid(magnitudes@)),
        Err(kind) => kind == PipelineError::ResamplerInit && sample_rate != TARGET_SAMPLE_RATE
            && exists|mono: Vec<T>| #[trigger]
            is_mono_of(mix, samples, channels, mono@) && is_conversion(
                convert,
                sample_rate,
                TARGET_SAMPLE_RATE,
                CHUNK_SIZE,
                mono@,
                silence,
                Err::<Vec<T>, PipelineError>(kind),
            ),
    }
}

/// Whether the functions handed to an extraction can be called as its
/// stages call them, on a signal of `channels` channels at `sample_rate`:
/// `mix` on groups of `channels` samples, `convert` on the chunks of a
/// batch, `taper` on the places of a frame, and `spectrum` on
/// frames of `FRAME_SIZE` samples, for which it gives one magnitude per
/// sample.
pub open spec fn stages_callable<
    T,
    M: Fn(&[T]) -> T,
    C: Fn(u32, u32, Vec<Vec<T>>) -> Option<Vec<T>>,
    W: Fn(usize, T) -> T,
    S: Fn(&Vec<T>) -> Vec<u32>,
>(mix: M, convert: C, taper: W, spectrum: S, sample_rate: u32, channels: usize) -> bool {
    &&& channels > 1 ==> forall|group: &[T]|
        group@.len() == channels ==> call_requires(mix, (group,))
    &&& sample_rate != TARGET_SAMPLE_RATE ==> forall|chunks: Vec<Vec<T>>|
        is_batch(chunks@, CHUNK_SIZE) ==> call_requires(
            convert,
            (sample_rate, TARGET_SAMPLE_RATE, chunks),
        )
    &&& forall|i: usize, sample: T| i < FRAME_SIZE ==> call_requires(taper, (i, sample))
    &&& forall|samples: &Vec<T>| samples.len() == FRAME_SIZE ==> call_requires(spectrum, (samples,))
    &&& forall|samples: &Vec<T>, bins: Vec<u32>|
        samples.len() == FRAME_SIZE && #[trigger] call_ensures(spectrum, (samples,), bins)
            ==> bins.len() == samples.len()
}

/// Extracts the fingerprints of decoded audio: mixes the interleaved
/// `samples` down to one channel, brings the signal to the target rate, cuts
/// and tapers its frames, takes their magnitude spectra, picks the peaks and
/// pairs them. Audio without content gives an empty list. The extraction
/// fails only where the rate converter refuses a batch.
pub fn fingerprints_of<
    T: Copy,
    M: Fn(&[T]) -> T,
    C: Fn(u32, u32, Vec<Vec<T>>) -> Option<Vec<T>>,
    W: Fn(usize, T) -> T,
    S: Fn(&Vec<T>) -> Vec<u32>,
>(
    samples: &[T],
    sample_rate: u32,
    channels: usize,
    silence: T,
    mix: M,
    convert: C,
    taper: W,
    spectrum: S,
) -> (outcome: Result<Vec<Fingerprint>, PipelineError>)
    requires
        channels >= 1,
        stages_callable(mix, convert, taper, spectrum, sample_rate, channels),
    ensures
        is_extraction(
            mix,
            convert,
            taper,
            spectrum,
            samples@,
            sample_rate,
            channels,
            silence,
            outcome,
        ),
        samples.len() / channels == 0 ==> (outcome matches Ok(list) && list.len() == 0),
        sample_rate == TARGET_SAMPLE_RATE ==> outcome is Ok,
{
    let mono: Vec<T> = to_mono(samples, channels, mix);
    let pcm: Vec<T> = match resample(
        mono.as_slice(),
        sample_rate,
        TARGET_SAMPLE_RATE,
        silence,
        convert,
    ) {
        Ok(pcm) => pcm,
        Err(kind) => {
            return surface(Err(kind));
        },
    };
    let frames: Vec<Vec<T>> = frame(&pcm, silence, taper);
    let ghost framed = frames;
    assert(rectangular(grid(frames@))) by {
        assert forall|k: int| 0 <= k < grid(frames@).len() implies (#[trigger] grid(
            frames@,
        )[k]).len() == FRAME_SIZE by {
            assert(frames@[k].len() == FRAME_SIZE);
        }
    }
    let magnitudes: Vec<Vec<u32>> = fft_magnitude(frames, spectrum);
    let ghost spectra = magnitudes;
    assert(is_extraction_trace(
        mix,
        convert,
        taper,
        spectrum,
        samples@,
        sample_rate,
        channels,
        silence,
        mono,
        pcm,
        framed,
        spectra,
    ));
    let staged: Result<Vec<Fingerprint>, PipelineError> = match content_check(
        pcm.len(),
        magnitudes.len(),
    ) {
        Ok(()) => Ok(fingerprint_pipeline(magnitudes)),
        Err(kind) => {
            assert(spectra.len() == 0);
            assert(spec_find_peaks(grid(spectra@), MAGNITUDE_THRESHOLD).len() == 0);
            assert(spec_fingerprint_pipeline(grid(spectra@)).len() == 0);
            Err(kind)
        },
    };
    let outcome: Result<Vec<Fingerprint>, PipelineError> = surface(staged);
    proof {
        if outcome is Ok {
            assert(outcome->Ok_0@ =~= spec_fingerprint_pipeline(grid(spectra@)));
        }
    }
    outcome
}

/// Whether `outcome` is a result of extracting the fingerprints of a probed
/// stream: the failure of the probe where it has one, and else a result of
/// the extraction from what `decode` gives for the parameters of the
/// default track, which is an empty list where that holds no full group of
/// samples.
pub open spec fn is_stream_extraction<
    T,
    D: FnOnce(StreamParams) -> Vec<T>,
    M: Fn(&[T]) -> T,
    C: Fn(u32, u32, Vec<Vec<T>>) -> Option<Vec<T>>,
    W: Fn(usize, T) -> T,
    S: Fn(&Vec<T>) -> Vec<u32>,
>(
    probe: Probe,
    decode: D,
    mix: M,
    convert: C,
    taper: W,
    spectrum: S,
    silence: T,
    outcome: Result<Vec<Fingerprint>, PipelineError>,
) -> bool {
    match spec_stream_params(probe) {
        Err(kind) => outcome == Err::<Vec<Fingerprint>, PipelineError>(kind),
        Ok(params) => exists|samples: Vec<T>| #[trigger]
            call_ensures(decode, (params,), samples) && is_extraction(
                mix,
                convert,
                taper,
                spectrum,
                samples@,
                params.sample_rate,
                params.channels,
                silence,
                outcome,
            ) && (samples.len() / params.channels == 0 ==> (outcome matches Ok(list)
                && list.len() == 0)) && (params.sample_rate == TARGET_SAMPLE_RATE
                ==> outcome is Ok),
    }
}

/// Extracts the fingerprints of a probed stream. A stream that no format
/// matches, a container without default track and a track that lacks its
/// rate or its channels fail with their kind, and nothing is decoded.
/// Otherwise `decode` is called once with the parameters of the default
/// track, and the fingerprints of the samples it gives are extracted as
/// `fingerprints_of` does.
pub fn fingerprints_of_stream<
    T: Copy,
    D: FnOnce(StreamParams) -> Vec<T>,
    M: Fn(&[T]) -> T,
    C: Fn(u32, u32, Vec<Vec<T>>) -> Option<Vec<T>>,
    W: Fn(usize, T) -> T,
    S: Fn(&Vec<T>) -> Vec<u32>,
>(
    probe: Probe,
    decode: D,
    silence: T,
    mix: M,
    convert: C,
    taper: W,
    spectrum: S,
) -> (outcome: Result<Vec<Fingerprint>, PipelineError>)
    requires
        spec_stream_params(probe) matches Ok(params) ==> call_requires(decode, (params,))
            && stages_callable(
            mix,
            convert,
            taper,
            spectrum,
            params.sample_rate,
            params.channels,
        ),
    ensures
        is_stream_extraction(probe, decode, mix, convert, taper, spectrum, silence, outcome),
        spec_stream_params(probe) matches Err(kind) ==> outcome == Err::<
            Vec<Fingerprint>,
            PipelineError,
        >(kind),
{
    let params: StreamParams = match stream_params(probe) {
        Ok(params) => params,
        Err(kind) => {
            return Err(kind);
        },
    };
    let samples: Vec<T> = decode(params);
    fingerprints_of(
        samples.as_slice(),
        params.sample_rate,
        params.channels,
        silence,
        mix,
        convert,
        taper,
        spectrum,
    )
}

} // verus!
