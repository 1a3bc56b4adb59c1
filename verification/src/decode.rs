//! From a decoded stream to a mono signal at the target rate: the checks on
//! what a container declares, the mixdown of interleaved channels and the
//! batching of the signal for rate conversion.
//!
//! The functions on samples are generic over the sample type and never look
//! into a sample. The mean of a group of samples and the conversion of a
//! batch of chunks are handed in as functions.

use crate::config::{CHUNKS_PER_BATCH, CHUNK_SIZE};
use crate::error::PipelineError;
use crate::extraction::{cut_window, padded_window};
use crate::table::grid;
use vstd::arithmetic::div_mod::{
    lemma_fundamental_div_mod,
    lemma_fundamental_div_mod_converse,
    lemma_mod_pos_bound,
};
use vstd::prelude::*;
use vstd::slice::{slice_subrange, slice_to_vec};

verus! {

/// What a container declares of a track.
#[derive(Debug, Clone, Copy, PartialEq, Eq, Structural, Hash)]
pub struct TrackInfo {
    pub id: u32,
    pub sample_rate: Option<u32>,
    pub channels: Option<usize>,
}

/// What probing a byte stream found.
#[derive(Debug, Clone, Copy, PartialEq, Eq, Structural, Hash)]
pub enum Probe {
    /// No known container format matches.
    Unrecognized,
    /// A container, with its default track if it names one.
    Container(Option<TrackInfo>),
}

/// The parameters under which a stream is decoded.
#[derive(Debug, Clone, Copy, PartialEq, Eq, Structural, Hash)]
pub struct StreamParams {
    pub track_id: u32,
    pub sample_rate: u32,
    pub channels: usize,
}

/// The outcome of checking a probe: the parameters of the default track, or
/// the reason why the stream cannot be decoded. A track that declares no
/// channel at all counts as one without a channel layout.
pub open spec fn spec_stream_params(probe: Probe) -> Result<StreamParams, PipelineError> {
    match probe {
        Probe::Unrecognized => Err(PipelineError::UnsupportedFormat),
        Probe::Container(None) => Err(PipelineError::NoDefaultTrack),
        Probe::Container(Some(track)) => match (track.sample_rate, track.channels) {
            (Some(sample_rate), Some(channels)) => if channels >= 1 {
                Ok(StreamParams { track_id: track.id, sample_rate, channels })
            } else {
                Err(PipelineError::CorruptHeader)
            },
            _ => Err(PipelineError::CorruptHeader),
        },
    }
}

/// Checks what probing found and gives the parameters of the default track.
pub fn stream_params(probe: Probe) -> (outcome: Result<StreamParams, PipelineError>)
    ensures
        outcome == spec_stream_params(probe),
        outcome matches Ok(params) ==> params.channels >= 1,
{
    match probe {
        Probe::Unrecognized => Err(PipelineError::UnsupportedFormat),
        Probe::Container(None) => Err(PipelineError::NoDefaultTrack),
        Probe::Container(Some(track)) => match (track.sample_rate, track.channels) {
            (Some(sample_rate), Some(channels)) => if channels >= 1 {
                Ok(StreamParams { track_id: track.id, sample_rate, channels })
            } else {
                Err(PipelineError::CorruptHeader)
            },
            _ => Err(PipelineError::CorruptHeader),
        },
    }
}

/// What to do with the next packet of a stream.
#[derive(Debug, Clone, Copy, PartialEq, Eq, Structural, Hash)]
pub enum PacketAction {
    /// The stream has ended or broke off: keep what was decoded so far.
    Stop,
    /// The packet belongs to another track: pass over it.
    Skip,
    /// The packet belongs to the default track: decode it, and pass over it
    /// if it does not decode.
    Decode,
}

/// Decides on the next packet from the track it belongs to; `None` stands
/// for a reader that gave no packet.
pub fn packet_action(default_track: u32, packet_track: Option<u32>) -> (action: PacketAction)
    ensures
        action == (match packet_track {
            None => PacketAction::Stop,
            Some(id) => if id == default_track {
                PacketAction::Decode
            } else {
                PacketAction::Skip
            },
        }),
{
    match packet_track {
        None => PacketAction::Stop,
        Some(id) => if id == default_track {
            PacketAction::Decode
        } else {
            PacketAction::Skip
        },
    }
}

/// Whether `sample` is a result of `mix` for the `channels` samples of the
/// `i`-th group of the interleaved signal.
pub open spec fn is_mix_of<T, F: Fn(&[T]) -> T>(
    mix: F,
    input: Seq<T>,
    channels: usize,
    i: int,
    sample: T,
) -> bool {
    exists|group: &[T]| #[trigger]
        call_ensures(mix, (group,), sample) && group@ == input.subrange(
            i * channels,
            (i + 1) * channels,
        )
}

/// Whether `mono` is a mixdown of the interleaved signal `input` of
/// `channels` channels: one sample per full group; the signal itself where
/// there is one channel; and else, for every group, a result of `mix`.
pub open spec fn is_mono_of<T, F: Fn(&[T]) -> T>(
    mix: F,
    input: Seq<T>,
    channels: usize,
    mono: Seq<T>,
) -> bool {
    &&& mono.len() == input.len() / (channels as nat)
    &&& channels == 1 ==> mono == input
    &&& channels > 1 ==> forall|i: int|
        0 <= i < mono.len() ==> is_mix_of(mix, input, channels, i, #[trigger] mono[i])
}

/// Mixes an interleaved signal of `channels` channels down to one channel:
/// sample `i` of the result is what `mix` gives for the `channels` samples of
/// group `i`. A signal of one channel is returned as it is. Samples after the
/// last full group are left out.
pub fn to_mono<T: Copy, F: Fn(&[T]) -> T>(input: &[T], channels: usize, mix: F) -> (mono: Vec<T>)
    requires
        channels >= 1,
        channels > 1 ==> forall|group: &[T]|
            group@.len() == channels ==> call_requires(mix, (group,)),
    ensures
        is_mono_of(mix, input@, channels, mono@),
        mono.len() == input.len() / channels,
        channels == 1 ==> mono@ == input@,
        channels > 1 ==> forall|i: int|
            0 <= i < mono.len() ==> is_mix_of(mix, input@, channels, i, #[trigger] mono[i]),
{
    if channels == 1 {
        return slice_to_vec(input);
    }
    let count: usize = input.len() / channels;
    let mut mono: Vec<T> = Vec::with_capacity(count);
    let mut i: usize = 0;
    while i < count
        invariant
            channels > 1,
            count == input.len() / channels,
            i <= count,
            mono.len() == i,
            forall|group: &[T]| group@.len() == channels ==> call_requires(mix, (group,)),
            forall|j: int| 0 <= j < i ==> is_mix_of(mix, input@, channels, j, #[trigger] mono[j]),
        decreases count - i,
    {
        assert((i + 1) * channels <= input.len()) by (nonlinear_arith)
            requires
                i + 1 <= count,
                count == input.len() / channels,
                channels > 1,
        ;
        assert(i * channels <= (i + 1) * channels) by (nonlinear_arith)
            requires
                channels > 1,
        ;
        assert((i + 1) * channels - i * channels == channels) by (nonlinear_arith);
        let start: usize = i * channels;
        let group: &[T] = slice_subrange(input, start, start + channels);
        let sample: T = mix(group);
        assert(is_mix_of(mix, input@, channels, i as int, sample));
        mono.push(sample);
        i += 1;
    }
    mono
}

/// The number of pieces of `size` samples that a signal of `len` samples
/// falls into, the last piece possibly shorter.
pub open spec fn piece_count(len: nat, size: int) -> nat {
    ((len + size - 1) / size) as nat
}

/// A signal falls into as many pieces as its length holds full pieces, and
/// one more if samples are left over; every piece starts inside the signal.
pub proof fn lemma_piece_count(len: nat, size: int)
    requires
        size >= 1,
    ensures
        piece_count(len, size) == if len % (size as nat) == 0 {
            len as int / size
        } else {
            len as int / size + 1
        },
        forall|k: int| 0 <= k < piece_count(len, size) ==> #[trigger] (k * size) < len,
        piece_count(len, size) * size >= len,
{
    let q = len as int / size;
    let r = len as int % size;
    lemma_fundamental_div_mod(len as int, size);
    lemma_mod_pos_bound(len as int, size);
    assert(size * q == q * size) by (nonlinear_arith);
    if r == 0 {
        lemma_fundamental_div_mod_converse(len + size - 1, size, q, size - 1);
    } else {
        assert((q + 1) * size == q * size + size) by (nonlinear_arith);
        lemma_fundamental_div_mod_converse(len + size - 1, size, q + 1, r - 1);
    }
    let count = piece_count(len, size) as int;
    assert(count * size >= len) by (nonlinear_arith)
        requires
            len == q * size + r,
            0 <= r < size,
            count == if r == 0 {
                q
            } else {
                q + 1
            },
    ;
    assert forall|k: int| 0 <= k < count implies #[trigger] (k * size) < len by {
        assert(k * size < len) by (nonlinear_arith)
            requires
                0 <= k < count,
                len == q * size + r,
                0 <= r < size,
                count == if r == 0 {
                    q
                } else {
                    q + 1
                },
        ;
    }
}

/// Counts the pieces of `size` samples that `len` samples fall into.
fn count_pieces(len: usize, size: usize) -> (count: usize)
    requires
        size >= 1,
    ensures
        count == piece_count(len as nat, size as int),
{
    proof {
        lemma_piece_count(len as nat, size as int);
        lemma_fundamental_div_mod(len as int, size as int);
        assert(len / size <= size * (len / size)) by (nonlinear_arith)
            requires
                size >= 1,
                len / size >= 0,
        ;
    }
    if len % size == 0 {
        len / size
    } else {
        len / size + 1
    }
}

/// The `k`-th piece of `size` samples of a signal, the last piece possibly
/// shorter.
pub open spec fn piece<T>(signal: Seq<T>, size: int, k: int) -> Seq<T> {
    signal.subrange(
        k * size,
        if (k + 1) * size <= signal.len() {
            (k + 1) * size
        } else {
            signal.len() as int
        },
    )
}

/// The chunks of `chunk_size` samples that a segment falls into, in order,
/// the last chunk continued with `silence` to full length.
pub open spec fn segment_chunks<T>(segment: Seq<T>, chunk_size: usize, silence: T) -> Seq<Seq<T>> {
    Seq::new(
        piece_count(segment.len(), chunk_size as int),
        |c: int| padded_window(segment, silence, c * chunk_size, chunk_size as nat),
    )
}

/// Cuts a segment into chunks of `chunk_size` samples, the last chunk
/// continued with `silence` to full length.
pub fn chunks_of<T: Copy>(segment: &[T], chunk_size: usize, silence: T) -> (chunks: Vec<Vec<T>>)
    requires
        chunk_size >= 1,
    ensures
        grid(chunks@) == segment_chunks(segment@, chunk_size, silence),
        forall|c: int| 0 <= c < chunks.len() ==> (#[trigger] chunks[c]).len() == chunk_size,
{
    let len: usize = segment.len();
    let count: usize = count_pieces(len, chunk_size);
    let mut chunks: Vec<Vec<T>> = Vec::with_capacity(count);
    let mut c: usize = 0;
    while c < count
        invariant
            chunk_size >= 1,
            len == segment.len(),
            count == piece_count(len as nat, chunk_size as int),
            c <= count,
            chunks.len() == c,
            forall|k: int|
                0 <= k < c ==> (#[trigger] chunks[k])@ == padded_window(
                    segment@,
                    silence,
                    k * chunk_size,
                    chunk_size as nat,
                ),
        decreases count - c,
    {
        proof {
            lemma_piece_count(len as nat, chunk_size as int);
            assert(c * chunk_size < len);
        }
        chunks.push(cut_window(segment, c * chunk_size, chunk_size, silence));
        c += 1;
    }
    assert(grid(chunks@) =~= segment_chunks(segment@, chunk_size, silence));
    chunks
}

/// Whether `chunks` is a list as a batch hands it to the converter: at
/// least one chunk and at most `CHUNKS_PER_BATCH`, each of `chunk_size`
/// samples.
pub open spec fn is_batch<T>(chunks: Seq<Vec<T>>, chunk_size: usize) -> bool {
    &&& 1 <= chunks.len() <= CHUNKS_PER_BATCH
    &&& forall|c: int| 0 <= c < chunks.len() ==> (#[trigger] chunks[c]).len() == chunk_size
}

/// Whether `output` is a result of `convert` for the two rates and a list of
/// chunks.
pub open spec fn converts<T, F: Fn(u32, u32, Vec<Vec<T>>) -> Option<Vec<T>>>(
    convert: F,
    input_rate: u32,
    output_rate: u32,
    chunks: Seq<Seq<T>>,
    output: Option<Vec<T>>,
) -> bool {
    exists|handed: Vec<Vec<T>>| #[trigger]
        call_ensures(convert, (input_rate, output_rate, handed), output) && grid(handed@)
            == chunks
}

/// The parts one after the other.
pub open spec fn joined<T>(parts: Seq<Vec<T>>) -> Seq<T>
    decreases parts.len(),
{
    if parts.len() == 0 {
        Seq::empty()
    } else {
        joined(parts.drop_last()) + parts.last()@
    }
}

/// The number of samples in a batch: `CHUNKS_PER_BATCH` chunks.
pub open spec fn batch_size(chunk_size: usize) -> int {
    chunk_size * CHUNKS_PER_BATCH
}

/// Whether `parts` holds, batch by batch, results of `convert` for the
/// chunks of the batches of `input`.
pub open spec fn converted_batches<T, F: Fn(u32, u32, Vec<Vec<T>>) -> Option<Vec<T>>>(
    convert: F,
    input_rate: u32,
    output_rate: u32,
    chunk_size: usize,
    input: Seq<T>,
    silence: T,
    parts: Seq<Vec<T>>,
) -> bool {
    &&& parts.len() == piece_count(input.len(), batch_size(chunk_size))
    &&& forall|b: int|
        0 <= b < parts.len() ==> converts(
            convert,
            input_rate,
            output_rate,
            segment_chunks(piece(input, batch_size(chunk_size), b), chunk_size, silence),
            Some(#[trigger] parts[b]),
        )
}

/// Whether `outcome` is a result of converting `input` batch by batch: on
/// success the results of the batches one after the other, in the order of
/// the batches; on failure a batch that `convert` refused.
pub open spec fn is_conversion<T, F: Fn(u32, u32, Vec<Vec<T>>) -> Option<Vec<T>>>(
    convert: F,
    input_rate: u32,
    output_rate: u32,
    chunk_size: usize,
    input: Seq<T>,
    silence: T,
    outcome: Result<Vec<T>, PipelineError>,
) -> bool {
    match outcome {
        Ok(output) => exists|parts: Seq<Vec<T>>| #[trigger]
            converted_batches(
                convert,
                input_rate,
                output_rate,
                chunk_size,
                input,
                silence,
                parts,
            ) && output@ == joined(parts),
        Err(kind) => kind == PipelineError::ResamplerInit && exists|b: int|
            0 <= b < piece_count(input.len(), batch_size(chunk_size)) && #[trigger] converts(
                convert,
                input_rate,
                output_rate,
                segment_chunks(piece(input, batch_size(chunk_size), b), chunk_size, silence),
                None,
            ),
    }
}

/// Converts a signal batch by batch. The signal falls into batches of
/// `CHUNKS_PER_BATCH` chunks of `chunk_size` samples, the last batch
/// possibly shorter and its last chunk continued with `silence`. Each batch
/// is handed to `convert` with the two rates, as the list of its chunks, and
/// the results are joined in the order of the batches. A batch that
/// `convert` refuses ends the conversion.
pub fn process<T: Copy, F: Fn(u32, u32, Vec<Vec<T>>) -> Option<Vec<T>>>(
    chunk_size: usize,
    input: &[T],
    input_rate: u32,
    output_rate: u32,
    silence: T,
    convert: F,
) -> (outcome: Result<Vec<T>, PipelineError>)
    requires
        chunk_size >= 1,
        chunk_size * CHUNKS_PER_BATCH <= usize::MAX,
        forall|chunks: Vec<Vec<T>>|
            is_batch(chunks@, chunk_size) ==> call_requires(
                convert,
                (input_rate, output_rate, chunks),
            ),
    ensures
        is_conversion(convert, input_rate, output_rate, chunk_size, input@, silence, outcome),
        input.len() == 0 ==> (outcome matches Ok(output) && output.len() == 0),
{
    let batch: usize = chunk_size * CHUNKS_PER_BATCH;
    let len: usize = input.len();
    let count: usize = count_pieces(len, batch);
    let mut output: Vec<T> = Vec::new();
    let ghost mut parts: Seq<Vec<T>> = Seq::empty();
    let mut b: usize = 0;
    while b < count
        invariant
            chunk_size >= 1,
            batch == batch_size(chunk_size),
            batch >= 1,
            len == input.len(),
            count == piece_count(len as nat, batch as int),
            b <= count,
            parts.len() == b,
            output@ == joined(parts),
            len == 0 ==> output.len() == 0,
            forall|chunks: Vec<Vec<T>>|
                is_batch(chunks@, chunk_size) ==> call_requires(
                    convert,
                    (input_rate, output_rate, chunks),
                ),
            forall|k: int|
                0 <= k < b ==> converts(
                    convert,
                    input_rate,
                    output_rate,
                    segment_chunks(piece(input@, batch as int, k), chunk_size, silence),
                    Some(#[trigger] parts[k]),
                ),
        decreases count - b,
    {
        proof {
            lemma_piece_count(len as nat, batch as int);
            assert(b * batch < len);
        }
        let start: usize = b * batch;
        let end: usize = if len - start > batch {
            start + batch
        } else {
            len
        };
        assert((b + 1) * batch == start + batch) by (nonlinear_arith)
            requires
                start == b * batch,
        ;
        let segment: &[T] = slice_subrange(input, start, end);
        assert(segment@ == piece(input@, batch as int, b as int));
        let chunks: Vec<Vec<T>> = chunks_of(segment, chunk_size, silence);
        let ghost handed = chunks;
        proof {
            let pieces = piece_count(segment@.len(), chunk_size as int) as int;
            assert(grid(chunks@).len() == pieces);
            lemma_piece_count(segment@.len(), chunk_size as int);
            assert(1 <= pieces <= CHUNKS_PER_BATCH) by (nonlinear_arith)
                requires
                    chunk_size >= 1,
                    1 <= segment@.len() <= chunk_size * 100,
                    pieces * chunk_size >= segment@.len(),
                    pieces >= 1 ==> (pieces - 1) * chunk_size < segment@.len(),
                    pieces >= 0,
                    CHUNKS_PER_BATCH == 100,
            ;
            assert(is_batch(chunks@, chunk_size));
        }
        match convert(input_rate, output_rate, chunks) {
            Some(part) => {
                let mut part: Vec<T> = part;
                proof {
                    assert(converts(
                        convert,
                        input_rate,
                        output_rate,
                        segment_chunks(piece(input@, batch as int, b as int), chunk_size, silence),
                        Some(part),
                    ));
                    assert(parts.push(part).drop_last() == parts);
                    parts = parts.push(part);
                }
                output.append(&mut part);
            },
            None => {
                proof {
                    assert(converts(
                        convert,
                        input_rate,
                        output_rate,
                        segment_chunks(piece(input@, batch as int, b as int), chunk_size, silence),
                        None,
                    ));
                }
                return Err(PipelineError::ResamplerInit);
            },
        }
        b += 1;
    }
    proof {
        assert(converted_batches(
            convert,
            input_rate,
            output_rate,
            chunk_size,
            input@,
            silence,
            parts,
        ));
    }
    Ok(output)
}

/// Whether `outcome` is a result of bringing `input` from `input_rate` to
/// `output_rate`: with equal rates the signal itself, and else a result of
/// converting it batch by batch in chunks of `CHUNK_SIZE` samples.
pub open spec fn is_resampling<T, F: Fn(u32, u32, Vec<Vec<T>>) -> Option<Vec<T>>>(
    convert: F,
    input_rate: u32,
    output_rate: u32,
    input: Seq<T>,
    silence: T,
    outcome: Result<Vec<T>, PipelineError>,
) -> bool {
    if input_rate == output_rate {
        outcome matches Ok(output) && output@ == input
    } else {
        is_conversion(convert, input_rate, output_rate, CHUNK_SIZE, input, silence, outcome)
    }
}

/// Brings a signal from `input_rate` to `output_rate`. With equal rates the
/// signal is returned as it is; otherwise it is converted batch by batch in
/// chunks of `CHUNK_SIZE` samples, as `process` does.
pub fn resample<T: Copy, F: Fn(u32, u32, Vec<Vec<T>>) -> Option<Vec<T>>>(
    input: &[T],
    input_rate: u32,
    output_rate: u32,
    silence: T,
    convert: F,
) -> (outcome: Result<Vec<T>, PipelineError>)
    requires
        input_rate != output_rate ==> forall|chunks: Vec<Vec<T>>|
            is_batch(chunks@, CHUNK_SIZE) ==> call_requires(
                convert,
                (input_rate, output_rate, chunks),
            ),
    ensures
        is_resampling(convert, input_rate, output_rate, input@, silence, outcome),
        input_rate == output_rate ==> (outcome matches Ok(output) && output@ == input@),
        input_rate != output_rate ==> is_conversion(
            convert,
            input_rate,
            output_rate,
            CHUNK_SIZE,
            input@,
            silence,
            outcome,
        ),
        input.len() == 0 ==> (outcome matches Ok(output) && output.len() == 0),
{
    if input_rate == output_rate {
        return Ok(slice_to_vec(input));
    }
    process(CHUNK_SIZE, input, input_rate, output_rate, silence, convert)
}

} // verus!
