//! Landmark hashing: pairing each spectral peak with the peaks that follow it.

use vstd::prelude::*;

verus! {

/// A landmark: the packed geometry of a pair of peaks, anchored at the frame
/// of the first peak of the pair.
#[derive(Debug, Clone, Copy, PartialEq, Eq, Structural, Hash)]
pub struct Fingerprint {
    pub hash: u64,
    pub frame_index: usize,
}

/// The 48-bit landmark code: the anchor's bin in bits 32..48, the target's bin
/// in bits 16..32 and the frame distance in bits 0..16, each cut to 16 bits.
pub open spec fn pack_hash(f1: usize, f2: usize, dt: usize) -> u64 {
    (((f1 as u64) & 0xFFFF) << 32) | (((f2 as u64) & 0xFFFF) << 16) | ((dt as u64) & 0xFFFF)
}

/// The fingerprint of the pair made of `anchor` and a later peak `target`,
/// both given as `(frame, bin)`.
pub open spec fn landmark(anchor: (usize, usize), target: (usize, usize)) -> Fingerprint {
    Fingerprint {
        hash: pack_hash(anchor.1, target.1, (target.0 - anchor.0) as usize),
        frame_index: anchor.0,
    }
}

/// Whether the peak at index `j` lies no earlier than the anchor at index `i`
/// and at most `max_time_diff` frames after it.
pub open spec fn within_reach(
    peaks: Seq<(usize, usize)>,
    max_time_diff: usize,
    i: int,
    j: int,
) -> bool {
    peaks[i].0 <= peaks[j].0 && peaks[j].0 - peaks[i].0 <= max_time_diff
}

/// How many of the successors `i + k`, `i + k + 1`, ... of the anchor `i` are
/// paired with it: pairing runs through consecutive successors, stops at the
/// end of the list, after the `fan_value`-th successor, and at the first
/// successor out of reach.
pub open spec fn run_from(
    peaks: Seq<(usize, usize)>,
    fan_value: usize,
    max_time_diff: usize,
    i: int,
    k: int,
) -> nat
    decreases fan_value - k + 1,
{
    if 1 <= k <= fan_value && i + k < peaks.len() && within_reach(peaks, max_time_diff, i, i + k) {
        1 + run_from(peaks, fan_value, max_time_diff, i, k + 1)
    } else {
        0
    }
}

/// The number of fingerprints anchored at the peak of index `i`.
pub open spec fn fan_len(
    peaks: Seq<(usize, usize)>,
    fan_value: usize,
    max_time_diff: usize,
    i: int,
) -> nat {
    run_from(peaks, fan_value, max_time_diff, i, 1)
}

/// The fingerprints anchored at the peak of index `i`, nearest target first.
pub open spec fn anchor_fingerprints(
    peaks: Seq<(usize, usize)>,
    fan_value: usize,
    max_time_diff: usize,
    i: int,
) -> Seq<Fingerprint> {
    Seq::new(
        fan_len(peaks, fan_value, max_time_diff, i),
        |k: int| landmark(peaks[i], peaks[i + 1 + k]),
    )
}

/// The fingerprints of the first `n` anchors, in anchor order.
pub open spec fn fingerprints_upto(
    peaks: Seq<(usize, usize)>,
    fan_value: usize,
    max_time_diff: usize,
    n: nat,
) -> Seq<Fingerprint>
    decreases n,
{
    if n == 0 {
        Seq::empty()
    } else {
        fingerprints_upto(peaks, fan_value, max_time_diff, (n - 1) as nat) + anchor_fingerprints(
            peaks,
            fan_value,
            max_time_diff,
            n - 1,
        )
    }
}

/// The fingerprint list of a peak list: every anchor in turn, each with its
/// targets in list order.
pub open spec fn spec_generate_hashes(
    peaks: Seq<(usize, usize)>,
    fan_value: usize,
    max_time_diff: usize,
) -> Seq<Fingerprint> {
    fingerprints_upto(peaks, fan_value, max_time_diff, peaks.len())
}

/// Whether the peak at index `i` is paired with the peak at index `j`.
pub open spec fn paired(
    peaks: Seq<(usize, usize)>,
    fan_value: usize,
    max_time_diff: usize,
    i: int,
    j: int,
) -> bool {
    0 <= i < j < peaks.len() && j - i <= fan_len(peaks, fan_value, max_time_diff, i)
}

/// Whether `fp` is the landmark of a pair of peaks: an anchor and one of the
/// `fan_value` peaks after it, which lies between 0 and `max_time_diff`
/// frames later than the anchor.
pub open spec fn has_witness_pair(
    peaks: Seq<(usize, usize)>,
    fan_value: usize,
    max_time_diff: usize,
    fp: Fingerprint,
) -> bool {
    exists|i: int, j: int|
        #[trigger] paired(peaks, fan_value, max_time_diff, i, j) && j - i <= fan_value
            && within_reach(peaks, max_time_diff, i, j) && fp == landmark(peaks[i], peaks[j])
}

/// Every successor counted by `run_from` is in reach of the anchor.
pub proof fn lemma_run_in_reach(
    peaks: Seq<(usize, usize)>,
    fan_value: usize,
    max_time_diff: usize,
    i: int,
    k: int,
    m: int,
)
    requires
        1 <= k,
        0 <= m < run_from(peaks, fan_value, max_time_diff, i, k),
    ensures
        k + m <= fan_value,
        i + k + m < peaks.len(),
        within_reach(peaks, max_time_diff, i, i + k + m),
    decreases m,
{
    if m > 0 {
        lemma_run_in_reach(peaks, fan_value, max_time_diff, i, k + 1, m - 1);
    }
}

/// Every fingerprint of the first `n` anchors comes from a pair of peaks
/// that the pairing rule admits.
pub proof fn lemma_fingerprints_have_witnesses(
    peaks: Seq<(usize, usize)>,
    fan_value: usize,
    max_time_diff: usize,
    n: nat,
    k: int,
)
    requires
        n <= peaks.len(),
        0 <= k < fingerprints_upto(peaks, fan_value, max_time_diff, n).len(),
    ensures
        has_witness_pair(
            peaks,
            fan_value,
            max_time_diff,
            fingerprints_upto(peaks, fan_value, max_time_diff, n)[k],
        ),
    decreases n,
{
    let before = fingerprints_upto(peaks, fan_value, max_time_diff, (n - 1) as nat);
    if k < before.len() {
        lemma_fingerprints_have_witnesses(peaks, fan_value, max_time_diff, (n - 1) as nat, k);
    } else {
        let i = n - 1;
        let m = k - before.len();
        lemma_run_in_reach(peaks, fan_value, max_time_diff, i, 1, m);
        assert(paired(peaks, fan_value, max_time_diff, i, i + 1 + m));
    }
}

/// The length of the fingerprint list grows with the number of anchors.
pub proof fn lemma_fingerprints_upto_grows(
    peaks: Seq<(usize, usize)>,
    fan_value: usize,
    max_time_diff: usize,
    m: nat,
    n: nat,
)
    requires
        m <= n,
    ensures
        fingerprints_upto(peaks, fan_value, max_time_diff, m).len() <= fingerprints_upto(
            peaks,
            fan_value,
            max_time_diff,
            n,
        ).len(),
        forall|k: int|
            0 <= k < fingerprints_upto(peaks, fan_value, max_time_diff, m).len()
                ==> fingerprints_upto(peaks, fan_value, max_time_diff, n)[k] == fingerprints_upto(
                peaks,
                fan_value,
                max_time_diff,
                m,
            )[k],
    decreases n - m,
{
    if m < n {
        lemma_fingerprints_upto_grows(peaks, fan_value, max_time_diff, m, (n - 1) as nat);
    }
}

/// Every pair of peaks yields its landmark: the fingerprint list holds the
/// landmark of each anchor and each peak paired with it.
pub proof fn lemma_pair_emitted(
    peaks: Seq<(usize, usize)>,
    fan_value: usize,
    max_time_diff: usize,
    i: int,
    j: int,
)
    requires
        paired(peaks, fan_value, max_time_diff, i, j),
    ensures
        spec_generate_hashes(peaks, fan_value, max_time_diff).contains(
            landmark(peaks[i], peaks[j]),
        ),
{
    let before = fingerprints_upto(peaks, fan_value, max_time_diff, i as nat);
    let with_anchor = fingerprints_upto(peaks, fan_value, max_time_diff, (i + 1) as nat);
    let all = spec_generate_hashes(peaks, fan_value, max_time_diff);
    let k = before.len() + (j - i - 1);
    assert(with_anchor[k] == anchor_fingerprints(peaks, fan_value, max_time_diff, i)[j - i - 1]);
    lemma_fingerprints_upto_grows(peaks, fan_value, max_time_diff, (i + 1) as nat, peaks.len());
    assert(all[k] == landmark(peaks[i], peaks[j]));
}

/// Every fingerprint of a peak list is the landmark of two of its peaks that
/// lie between 1 and `max_time_diff` frames apart, provided that no peak is
/// paired with a peak of its own frame.
pub proof fn lemma_fingerprint_has_distant_pair(
    peaks: Seq<(usize, usize)>,
    fan_value: usize,
    max_time_diff: usize,
    k: int,
)
    requires
        0 <= k < spec_generate_hashes(peaks, fan_value, max_time_diff).len(),
        forall|i: int, j: int| #[trigger]
            paired(peaks, fan_value, max_time_diff, i, j) ==> peaks[i].0 != peaks[j].0,
    ensures
        exists|i: int, j: int|
            0 <= i < j < peaks.len() && 1 <= peaks[j].0 - peaks[i].0 <= max_time_diff
                && #[trigger] landmark(peaks[i], peaks[j]) == spec_generate_hashes(
                peaks,
                fan_value,
                max_time_diff,
            )[k],
{
    lemma_fingerprints_have_witnesses(peaks, fan_value, max_time_diff, peaks.len(), k);
    let fp = spec_generate_hashes(peaks, fan_value, max_time_diff)[k];
    let (i, j) = choose|i: int, j: int|
        #[trigger] paired(peaks, fan_value, max_time_diff, i, j) && j - i <= fan_value
            && within_reach(peaks, max_time_diff, i, j) && fp == landmark(peaks[i], peaks[j]);
    assert(landmark(peaks[i], peaks[j]) == fp);
}

/// Peaks appended to a list take no pairing away from an anchor of the list.
pub proof fn lemma_run_survives_appending(
    peaks: Seq<(usize, usize)>,
    more: Seq<(usize, usize)>,
    fan_value: usize,
    max_time_diff: usize,
    i: int,
    k: int,
)
    requires
        0 <= i < peaks.len(),
        1 <= k,
    ensures
        run_from(peaks, fan_value, max_time_diff, i, k) <= run_from(
            peaks + more,
            fan_value,
            max_time_diff,
            i,
            k,
        ),
    decreases fan_value - k + 1,
{
    if k <= fan_value && i + k < peaks.len() && within_reach(peaks, max_time_diff, i, i + k) {
        assert((peaks + more)[i] == peaks[i]);
        assert((peaks + more)[i + k] == peaks[i + k]);
        lemma_run_survives_appending(peaks, more, fan_value, max_time_diff, i, k + 1);
    }
}

/// Peaks put before a list change no pairing of an anchor of the list.
pub proof fn lemma_run_ignores_earlier_peaks(
    earlier: Seq<(usize, usize)>,
    peaks: Seq<(usize, usize)>,
    fan_value: usize,
    max_time_diff: usize,
    i: int,
    k: int,
)
    requires
        0 <= i < peaks.len(),
        1 <= k,
    ensures
        run_from(earlier + peaks, fan_value, max_time_diff, earlier.len() + i, k) == run_from(
            peaks,
            fan_value,
            max_time_diff,
            i,
            k,
        ),
    decreases fan_value - k + 1,
{
    assert((earlier + peaks)[earlier.len() + i] == peaks[i]);
    if k <= fan_value && i + k < peaks.len() {
        assert((earlier + peaks)[earlier.len() + i + k] == peaks[i + k]);
        if within_reach(peaks, max_time_diff, i, i + k) {
            lemma_run_ignores_earlier_peaks(earlier, peaks, fan_value, max_time_diff, i, k + 1);
        }
    }
}

/// Two peak lists joined keep the fingerprints of both: every fingerprint
/// of the one and of the other is a fingerprint of the joined list.
pub proof fn lemma_joined_lists_keep_fingerprints(
    first: Seq<(usize, usize)>,
    second: Seq<(usize, usize)>,
    fan_value: usize,
    max_time_diff: usize,
    fp: Fingerprint,
)
    requires
        spec_generate_hashes(first, fan_value, max_time_diff).contains(fp)
            || spec_generate_hashes(second, fan_value, max_time_diff).contains(fp),
    ensures
        spec_generate_hashes(first + second, fan_value, max_time_diff).contains(fp),
{
    let both = first + second;
    if spec_generate_hashes(first, fan_value, max_time_diff).contains(fp) {
        let all = spec_generate_hashes(first, fan_value, max_time_diff);
        let k = choose|k: int| 0 <= k < all.len() && all[k] == fp;
        lemma_fingerprints_have_witnesses(first, fan_value, max_time_diff, first.len(), k);
        let (i, j) = choose|i: int, j: int|
            #[trigger] paired(first, fan_value, max_time_diff, i, j) && j - i <= fan_value
                && within_reach(first, max_time_diff, i, j) && fp == landmark(first[i], first[j]);
        lemma_run_survives_appending(first, second, fan_value, max_time_diff, i, 1);
        assert(both[i] == first[i] && both[j] == first[j]);
        assert(paired(both, fan_value, max_time_diff, i, j));
        lemma_pair_emitted(both, fan_value, max_time_diff, i, j);
    } else {
        let all = spec_generate_hashes(second, fan_value, max_time_diff);
        let k = choose|k: int| 0 <= k < all.len() && all[k] == fp;
        lemma_fingerprints_have_witnesses(second, fan_value, max_time_diff, second.len(), k);
        let (i, j) = choose|i: int, j: int|
            #[trigger] paired(second, fan_value, max_time_diff, i, j) && j - i <= fan_value
                && within_reach(second, max_time_diff, i, j) && fp == landmark(
                second[i],
                second[j],
            );
        lemma_run_ignores_earlier_peaks(first, second, fan_value, max_time_diff, i, 1);
        assert(both[first.len() + i] == second[i] && both[first.len() + j] == second[j]);
        assert(paired(both, fan_value, max_time_diff, first.len() + i, first.len() + j));
        lemma_pair_emitted(both, fan_value, max_time_diff, first.len() + i, first.len() + j);
    }
}

/// Pairings among the first peaks of a list do not depend on the peaks after
/// them.
pub proof fn lemma_run_within_prefix(
    peaks: Seq<(usize, usize)>,
    more: Seq<(usize, usize)>,
    fan_value: usize,
    max_time_diff: usize,
    i: int,
    k: int,
    m: int,
)
    requires
        0 <= i,
        1 <= k,
        0 <= m < run_from(peaks + more, fan_value, max_time_diff, i, k),
        i + k + m < peaks.len(),
    ensures
        m < run_from(peaks, fan_value, max_time_diff, i, k),
    decreases m,
{
    assert((peaks + more)[i] == peaks[i]);
    assert((peaks + more)[i + k] == peaks[i + k]);
    if m > 0 {
        lemma_run_within_prefix(peaks, more, fan_value, max_time_diff, i, k + 1, m - 1);
    }
}

/// A pair among the first peaks of a list is a pair of those peaks alone,
/// with the same fingerprint.
pub proof fn lemma_pair_within_prefix(
    peaks: Seq<(usize, usize)>,
    more: Seq<(usize, usize)>,
    fan_value: usize,
    max_time_diff: usize,
    i: int,
    j: int,
)
    requires
        paired(peaks + more, fan_value, max_time_diff, i, j),
        j < peaks.len(),
    ensures
        paired(peaks, fan_value, max_time_diff, i, j),
        landmark(peaks[i], peaks[j]) == landmark((peaks + more)[i], (peaks + more)[j]),
{
    lemma_run_within_prefix(peaks, more, fan_value, max_time_diff, i, 1, j - i - 1);
    assert((peaks + more)[i] == peaks[i]);
    assert((peaks + more)[j] == peaks[j]);
}

/// The peaks moved `frames` frames later.
pub open spec fn later_peaks(peaks: Seq<(usize, usize)>, frames: nat) -> Seq<(usize, usize)> {
    Seq::new(peaks.len(), |k: int| ((peaks[k].0 + frames) as usize, peaks[k].1))
}

/// The fingerprint anchored `frames` frames later.
pub open spec fn later_fingerprint(fp: Fingerprint, frames: nat) -> Fingerprint {
    Fingerprint { hash: fp.hash, frame_index: (fp.frame_index + frames) as usize }
}

/// Moving all peaks by the same number of frames changes no pairing.
pub proof fn lemma_run_of_later_peaks(
    peaks: Seq<(usize, usize)>,
    frames: nat,
    fan_value: usize,
    max_time_diff: usize,
    i: int,
    k: int,
)
    requires
        0 <= i < peaks.len(),
        1 <= k,
        forall|m: int| 0 <= m < peaks.len() ==> (#[trigger] peaks[m]).0 + frames <= usize::MAX,
    ensures
        run_from(later_peaks(peaks, frames), fan_value, max_time_diff, i, k) == run_from(
            peaks,
            fan_value,
            max_time_diff,
            i,
            k,
        ),
    decreases fan_value - k + 1,
{
    let later = later_peaks(peaks, frames);
    assert(later[i].0 == peaks[i].0 + frames);
    if k <= fan_value && i + k < peaks.len() {
        assert(later[i + k].0 == peaks[i + k].0 + frames);
        if within_reach(peaks, max_time_diff, i, i + k) {
            lemma_run_of_later_peaks(peaks, frames, fan_value, max_time_diff, i, k + 1);
        }
    }
}

/// The fingerprints of peaks moved later are the fingerprints of the peaks,
/// anchored as much later: the hash of a pair does not change.
pub proof fn lemma_later_peaks_give_later_fingerprints(
    peaks: Seq<(usize, usize)>,
    frames: nat,
    fan_value: usize,
    max_time_diff: usize,
    fp: Fingerprint,
)
    requires
        forall|m: int| 0 <= m < peaks.len() ==> (#[trigger] peaks[m]).0 + frames <= usize::MAX,
        spec_generate_hashes(peaks, fan_value, max_time_diff).contains(fp),
    ensures
        spec_generate_hashes(later_peaks(peaks, frames), fan_value, max_time_diff).contains(
            later_fingerprint(fp, frames),
        ),
{
    let later = later_peaks(peaks, frames);
    let all = spec_generate_hashes(peaks, fan_value, max_time_diff);
    let k = choose|k: int| 0 <= k < all.len() && all[k] == fp;
    lemma_fingerprints_have_witnesses(peaks, fan_value, max_time_diff, peaks.len(), k);
    let (i, j) = choose|i: int, j: int|
        #[trigger] paired(peaks, fan_value, max_time_diff, i, j) && j - i <= fan_value
            && within_reach(peaks, max_time_diff, i, j) && fp == landmark(peaks[i], peaks[j]);
    lemma_run_of_later_peaks(peaks, frames, fan_value, max_time_diff, i, 1);
    assert(later[i] == ((peaks[i].0 + frames) as usize, peaks[i].1));
    assert(later[j] == ((peaks[j].0 + frames) as usize, peaks[j].1));
    assert(paired(later, fan_value, max_time_diff, i, j));
    assert(landmark(later[i], later[j]) == later_fingerprint(fp, frames));
    lemma_pair_emitted(later, fan_value, max_time_diff, i, j);
}

/// The landmark code keeps to 48 bits.
pub proof fn lemma_hash_fits_48_bits(f1: usize, f2: usize, dt: usize)
    ensures
        pack_hash(f1, f2, dt) < 0x1_0000_0000_0000,
{
    let a: u64 = f1 as u64;
    let b: u64 = f2 as u64;
    let c: u64 = dt as u64;
    assert((((a & 0xFFFF) << 32) | ((b & 0xFFFF) << 16) | (c & 0xFFFF)) < 0x1_0000_0000_0000u64)
        by (bit_vector);
}

/// The landmark code determines the three 16-bit fields it was packed from.
pub proof fn lemma_hash_fields(f1: usize, f2: usize, dt: usize)
    ensures
        (pack_hash(f1, f2, dt) >> 32) == (f1 as u64) & 0xFFFF,
        (pack_hash(f1, f2, dt) >> 16) & 0xFFFF == (f2 as u64) & 0xFFFF,
        pack_hash(f1, f2, dt) & 0xFFFF == (dt as u64) & 0xFFFF,
{
    let a: u64 = f1 as u64;
    let b: u64 = f2 as u64;
    let c: u64 = dt as u64;
    let h: u64 = ((a & 0xFFFF) << 32) | ((b & 0xFFFF) << 16) | (c & 0xFFFF);
    assert((h >> 32) == a & 0xFFFF) by (bit_vector)
        requires
            h == ((a & 0xFFFF) << 32) | ((b & 0xFFFF) << 16) | (c & 0xFFFF),
    ;
    assert((h >> 16) & 0xFFFF == b & 0xFFFF) by (bit_vector)
        requires
            h == ((a & 0xFFFF) << 32) | ((b & 0xFFFF) << 16) | (c & 0xFFFF),
    ;
    assert(h & 0xFFFF == c & 0xFFFF) by (bit_vector)
        requires
            h == ((a & 0xFFFF) << 32) | ((b & 0xFFFF) << 16) | (c & 0xFFFF),
    ;
}

/// Packs the two bins and the frame distance of a pair into its landmark code.
fn pack(f1: usize, f2: usize, dt: usize) -> (hash: u64)
    ensures
        hash == pack_hash(f1, f2, dt),
{
    (((f1 as u64) & 0xFFFF) << 32) | (((f2 as u64) & 0xFFFF) << 16) | ((dt as u64) & 0xFFFF)
}

/// Pairs every peak with up to `fan_value` of the peaks that follow it in the
/// list and emits one fingerprint per pair.
///
/// Pairing for an anchor ends at the first successor that lies more than
/// `max_time_diff` frames after the anchor; a successor that lies before its
/// anchor ends the pairing as well.
pub fn generate_hashes(peaks: &[(usize, usize)], fan_value: usize, max_time_diff: usize) -> (fingerprints:
    Vec<Fingerprint>)
    ensures
        fingerprints@ == spec_generate_hashes(peaks@, fan_value, max_time_diff),
        forall|k: int|
            0 <= k < fingerprints.len() ==> has_witness_pair(
                peaks@,
                fan_value,
                max_time_diff,
                #[trigger] fingerprints[k],
            ),
{
    let mut fingerprints: Vec<Fingerprint> = Vec::new();
    let n: usize = peaks.len();
    let mut i: usize = 0;
    while i < n
        invariant
            n == peaks.len(),
            i <= n,
            fingerprints@ == fingerprints_upto(peaks@, fan_value, max_time_diff, i as nat),
        decreases n - i,
    {
        let t1: usize = peaks[i].0;
        let f1: usize = peaks[i].1;
        let last: usize = n - 1 - i;
        let mut j: usize = 1;
        let ghost before = fingerprints@;
        while j <= fan_value && j <= last
            invariant
                n == peaks.len(),
                i < n,
                last == n - 1 - i,
                1 <= j,
                j <= fan_value + 1,
                j <= last + 1,
                t1 == peaks[i as int].0,
                f1 == peaks[i as int].1,
                fan_len(peaks@, fan_value, max_time_diff, i as int) == (j - 1) + run_from(
                    peaks@,
                    fan_value,
                    max_time_diff,
                    i as int,
                    j as int,
                ),
                fingerprints@ == before + Seq::new(
                    (j - 1) as nat,
                    |k: int| landmark(peaks@[i as int], peaks@[i + 1 + k]),
                ),
            ensures
                fingerprints@ == before + anchor_fingerprints(
                    peaks@,
                    fan_value,
                    max_time_diff,
                    i as int,
                ),
            decreases fan_value + 1 - j,
        {
            let t2: usize = peaks[i + j].0;
            let f2: usize = peaks[i + j].1;
            if t2 < t1 || t2 - t1 > max_time_diff {
                break ;
            }
            fingerprints.push(Fingerprint { hash: pack(f1, f2, t2 - t1), frame_index: t1 });
            j += 1;
        }
        i += 1;
    }
    proof {
        assert forall|k: int| 0 <= k < fingerprints.len() implies has_witness_pair(
            peaks@,
            fan_value,
            max_time_diff,
            #[trigger] fingerprints[k],
        ) by {
            lemma_fingerprints_have_witnesses(peaks@, fan_value, max_time_diff, n as nat, k);
        }
    }
    fingerprints
}

} // verus!
