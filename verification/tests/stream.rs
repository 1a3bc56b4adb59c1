use resonate::config::{
    CHUNKS_PER_BATCH, CHUNK_SIZE, FAN_VALUE, FRAME_SIZE, HOP_SIZE, MAGNITUDE_THRESHOLD, MAX_TIME_DIFF,
    SPECTRUM_BINS, TARGET_SAMPLE_RATE,
};
use resonate::decode::{packet_action, stream_params, PacketAction, Probe, StreamParams, TrackInfo};
use resonate::error::PipelineError;
use resonate::events::{fingerprint_generated, fingerprint_generated_now, SongUploaded};
use resonate::hashing::Fingerprint;
use resonate::pipeline::{content_check, surface};

#[test]
fn an_unrecognized_stream_is_unsupported() {
    assert_eq!(stream_params(Probe::Unrecognized), Err(PipelineError::UnsupportedFormat));
}

#[test]
fn a_container_without_default_track_is_refused() {
    assert_eq!(stream_params(Probe::Container(None)), Err(PipelineError::NoDefaultTrack));
}

#[test]
fn a_track_without_rate_or_channels_has_a_corrupt_header() {
    let no_rate = TrackInfo { id: 0, sample_rate: None, channels: Some(2) };
    let no_channels = TrackInfo { id: 0, sample_rate: Some(44_100), channels: None };
    let neither = TrackInfo { id: 0, sample_rate: None, channels: None };
    let zero_channels = TrackInfo { id: 0, sample_rate: Some(44_100), channels: Some(0) };
    for track in [no_rate, no_channels, neither, zero_channels] {
        assert_eq!(stream_params(Probe::Container(Some(track))), Err(PipelineError::CorruptHeader));
    }
}

#[test]
fn a_full_header_gives_the_parameters() {
    let track = TrackInfo { id: 3, sample_rate: Some(48_000), channels: Some(2) };
    assert_eq!(
        stream_params(Probe::Container(Some(track))),
        Ok(StreamParams { track_id: 3, sample_rate: 48_000, channels: 2 })
    );
}

#[test]
fn packets_of_other_tracks_are_skipped() {
    assert_eq!(packet_action(3, Some(3)), PacketAction::Decode);
    assert_eq!(packet_action(3, Some(4)), PacketAction::Skip);
    assert_eq!(packet_action(3, None), PacketAction::Stop);
}

#[test]
fn only_empty_audio_is_not_fatal() {
    assert!(PipelineError::UnsupportedFormat.is_fatal());
    assert!(PipelineError::NoDefaultTrack.is_fatal());
    assert!(PipelineError::CorruptHeader.is_fatal());
    assert!(PipelineError::ResamplerInit.is_fatal());
    assert!(PipelineError::NoMatches.is_fatal());
    assert!(!PipelineError::EmptyAudio.is_fatal());
    assert!(!PipelineError::EmptySpectrogram.is_fatal());
}

#[test]
fn the_parameters_are_the_tuned_ones() {
    assert_eq!(TARGET_SAMPLE_RATE, 11_025);
    assert_eq!(FRAME_SIZE, 1024);
    assert_eq!(HOP_SIZE, 512);
    assert_eq!(SPECTRUM_BINS, 512);
    assert_eq!(MAGNITUDE_THRESHOLD, 0.01f32.to_bits());
    assert_eq!(FAN_VALUE, 5);
    assert_eq!(MAX_TIME_DIFF, 50);
    assert_eq!(CHUNK_SIZE, 1024);
    assert_eq!(CHUNK_SIZE * CHUNKS_PER_BATCH, 102_400);
}

#[test]
fn the_announcement_names_the_track_of_the_upload() {
    let event = SongUploaded { song_id: "test123".to_string(), s3_key: "dummy".to_string(), uploaded_at: 0 };
    let fingerprints = vec![Fingerprint { hash: 1, frame_index: 2 }, Fingerprint { hash: 3, frame_index: 4 }];
    let out = fingerprint_generated(&event, fingerprints.clone(), 1_700_000_000);
    assert_eq!(out.song_id, "test123");
    assert_eq!(out.fingerprints, fingerprints);
    assert_eq!(out.generated_at, 1_700_000_000);
}

#[test]
fn the_announcement_is_stamped_by_the_clock() {
    let event = SongUploaded { song_id: "test123".to_string(), s3_key: "dummy".to_string(), uploaded_at: 0 };
    let fingerprints = vec![Fingerprint { hash: 1, frame_index: 2 }];
    let out = fingerprint_generated_now(&event, fingerprints.clone());
    assert_eq!(out.song_id, "test123");
    assert_eq!(out.fingerprints, fingerprints);
    let again = fingerprint_generated_now(&event, Vec::new());
    assert_eq!(again.song_id, "test123");
    assert!(again.fingerprints.is_empty());
}

#[test]
fn audio_without_content_is_told_apart() {
    assert_eq!(content_check(0, 0), Err(PipelineError::EmptyAudio));
    assert_eq!(content_check(0, 5), Err(PipelineError::EmptyAudio));
    assert_eq!(content_check(5, 0), Err(PipelineError::EmptySpectrogram));
    assert_eq!(content_check(5, 1), Ok(()));
}

#[test]
fn audio_without_content_surfaces_as_an_empty_list() {
    let some = vec![Fingerprint { hash: 1, frame_index: 2 }];
    assert_eq!(surface(Ok(some.clone())), Ok(some));
    assert_eq!(surface(Err(PipelineError::EmptyAudio)), Ok(Vec::new()));
    assert_eq!(surface(Err(PipelineError::EmptySpectrogram)), Ok(Vec::new()));
    for kind in [
        PipelineError::UnsupportedFormat,
        PipelineError::NoDefaultTrack,
        PipelineError::CorruptHeader,
        PipelineError::ResamplerInit,
        PipelineError::NoMatches,
    ] {
        assert_eq!(surface(Err(kind)), Err(kind));
    }
}
