//! The fixed parameters of the pipeline. They are tuned together: changing one
//! changes the fingerprints of every track.

use vstd::prelude::*;

verus! {

/// The sample rate, in Hz, to which every signal is converted before framing.
pub const TARGET_SAMPLE_RATE: u32 = 11_025;

/// The number of samples in a frame.
pub const FRAME_SIZE: usize = 1024;

/// The number of samples between the starts of two successive frames.
pub const HOP_SIZE: usize = 512;

/// The number of frequency bins kept of the spectrum of a frame.
pub const SPECTRUM_BINS: usize = 512;

/// The magnitude that a peak must reach: 0.01, as the bit pattern of that
/// single-precision number. For magnitudes, which are not negative, the order
/// of the bit patterns is the order of the numbers.
pub const MAGNITUDE_THRESHOLD: u32 = 0x3C23_D70A;

/// The number of later peaks that an anchor peak is paired with.
pub const FAN_VALUE: usize = 5;

/// The largest distance, in frames, between the two peaks of a pair.
pub const MAX_TIME_DIFF: usize = 50;

/// The number of samples that the rate converter takes at a time.
pub const CHUNK_SIZE: usize = 1024;

/// The number of chunks that one instance of the rate converter handles.
pub const CHUNKS_PER_BATCH: usize = 100;

} // verus!
