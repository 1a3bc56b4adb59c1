//! The ways in which extraction and identification fail.

use vstd::prelude::*;

verus! {

/// What went wrong in an extraction or an identification.
#[derive(Debug, Clone, Copy, PartialEq, Eq, Structural, Hash)]
pub enum PipelineError {
    /// No known container format matches the bytes.
    UnsupportedFormat,
    /// The container names no default track.
    NoDefaultTrack,
    /// The default track lacks its sample rate or its channel layout.
    CorruptHeader,
    /// The rate converter refused the pair of rates.
    ResamplerInit,
    /// Decoding gave no samples.
    EmptyAudio,
    /// Framing gave no frames.
    EmptySpectrogram,
    /// There is no match to elect a track from.
    NoMatches,
}

impl PipelineError {
    /// Whether the kind aborts an extraction. The other two kinds stand for
    /// audio without content, of which the fingerprint list is empty.
    pub open spec fn spec_is_fatal(&self) -> bool {
        !(*self is EmptyAudio || *self is EmptySpectrogram)
    }

    /// Tells whether the kind aborts an extraction.
    #[verifier::when_used_as_spec(spec_is_fatal)]
    pub fn is_fatal(&self) -> (fatal: bool)
        ensures
            fatal == self.spec_is_fatal(),
    {
        match self {
            PipelineError::EmptyAudio => false,
            PipelineError::EmptySpectrogram => false,
            _ => true,
        }
    }
}

} // verus!
