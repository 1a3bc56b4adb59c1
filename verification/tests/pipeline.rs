use resonate::config::MAGNITUDE_THRESHOLD;
use resonate::decode::{Probe, StreamParams, TrackInfo};
use resonate::error::PipelineError;
use resonate::extraction::{fft_magnitude, frame};
use resonate::hashing::Fingerprint;
use resonate::peaks::find_peaks;
use resonate::pipeline::{fingerprint_pipeline, fingerprints_of, fingerprints_of_stream};
use rustfft::num_complex::Complex;
use rustfft::FftPlanner;
use std::cell::Cell;

fn average(group: &[f32]) -> f32 {
    group.iter().sum::<f32>() / group.len() as f32
}

fn bell(i: usize, sample: f32) -> f32 {
    sample * 0.5 * (1.0 - (2.0 * std::f32::consts::PI * i as f32 / 1023.0).cos())
}

fn keys(samples: &Vec<f32>) -> Vec<u32> {
    let mut planner = FftPlanner::<f32>::new();
    let fft = planner.plan_fft_forward(samples.len());
    let mut buffer: Vec<Complex<f32>> = samples.iter().map(|&v| Complex { re: v, im: 0.0 }).collect();
    fft.process(&mut buffer);
    buffer
        .iter()
        .map(|c| {
            let m = (c.re * c.re + c.im * c.im).sqrt();
            if m > 0.0 {
                m.to_bits()
            } else {
                0
            }
        })
        .collect()
}

fn never_convert(_: u32, _: u32, _: Vec<Vec<f32>>) -> Option<Vec<f32>> {
    panic!("the signal is at the target rate")
}

fn never_decode(_: StreamParams) -> Vec<f32> {
    panic!("a stream that failed its probe is not decoded")
}

fn sine(hz: f64, samples: usize) -> Vec<f32> {
    (0..samples)
        .map(|n| (0.5 * (2.0 * std::f64::consts::PI * hz * n as f64 / 11_025.0).sin()) as f32)
        .collect()
}

fn parts(fp: &Fingerprint) -> (u64, u64, u64) {
    (fp.hash >> 32, (fp.hash >> 16) & 0xFFFF, fp.hash & 0xFFFF)
}

fn track(sample_rate: Option<u32>, channels: Option<usize>) -> Probe {
    Probe::Container(Some(TrackInfo { id: 0, sample_rate, channels }))
}

#[test]
fn a_stream_that_fails_its_probe_fails_with_its_kind() {
    for (probe, kind) in [
        (Probe::Unrecognized, PipelineError::UnsupportedFormat),
        (Probe::Container(None), PipelineError::NoDefaultTrack),
        (track(None, Some(2)), PipelineError::CorruptHeader),
        (track(Some(44_100), None), PipelineError::CorruptHeader),
        (track(Some(44_100), Some(0)), PipelineError::CorruptHeader),
    ] {
        let outcome =
            fingerprints_of_stream(probe, never_decode, 0.0f32, average, never_convert, bell, keys);
        assert_eq!(outcome, Err(kind));
    }
}

#[test]
fn a_stream_without_samples_has_no_fingerprints() {
    let decoded = Cell::new(0usize);
    let nothing = |params: StreamParams| -> Vec<f32> {
        assert_eq!(params, StreamParams { track_id: 0, sample_rate: 11_025, channels: 2 });
        decoded.set(decoded.get() + 1);
        Vec::new()
    };
    let outcome =
        fingerprints_of_stream(track(Some(11_025), Some(2)), nothing, 0.0f32, average, never_convert, bell, keys);
    assert_eq!(outcome, Ok(Vec::new()));
    assert_eq!(decoded.get(), 1);
    let pass = |_: u32, _: u32, chunks: Vec<Vec<f32>>| -> Option<Vec<f32>> { Some(chunks.concat()) };
    let other_rate = |_: StreamParams| -> Vec<f32> { Vec::new() };
    let outcome =
        fingerprints_of_stream(track(Some(48_000), Some(1)), other_rate, 0.0f32, average, pass, bell, keys);
    assert_eq!(outcome, Ok(Vec::new()));
}

#[test]
fn samples_short_of_one_group_have_no_fingerprints() {
    let outcome = fingerprints_of(&[0.5f32, 0.25], 11_025, 3, 0.0, average, never_convert, bell, keys);
    assert_eq!(outcome, Ok(Vec::new()));
    let outcome = fingerprints_of(&[] as &[f32], 8_000, 1, 0.0, average, never_convert, bell, keys);
    assert_eq!(outcome, Ok(Vec::new()));
}

#[test]
fn ten_seconds_of_silence_have_no_fingerprints() {
    let pcm = vec![0.0f32; 110_250];
    assert_eq!(
        fingerprints_of(&pcm, 11_025, 1, 0.0, average, never_convert, bell, keys),
        Ok(Vec::new())
    );
}

#[test]
fn a_refused_conversion_fails_the_extraction() {
    let pcm = vec![0.25f32; 4000];
    let refuse = |_: u32, _: u32, _: Vec<Vec<f32>>| -> Option<Vec<f32>> { None };
    assert_eq!(
        fingerprints_of(&pcm, 44_100, 1, 0.0, average, refuse, bell, keys),
        Err(PipelineError::ResamplerInit)
    );
    assert!(fingerprints_of(&pcm, 11_025, 1, 0.0, average, refuse, bell, keys).is_ok());
    let decoded = |_: StreamParams| -> Vec<f32> { vec![0.25f32; 4000] };
    assert_eq!(
        fingerprints_of_stream(track(Some(44_100), Some(1)), decoded, 0.0f32, average, refuse, bell, keys),
        Err(PipelineError::ResamplerInit)
    );
}

#[test]
fn the_stages_run_in_sequence() {
    let mut pcm = sine(440.0, 11_025);
    pcm.extend_from_slice(&sine(1_320.0, 6_000));
    pcm.extend_from_slice(&sine(700.0, 11_025));
    let staged = fingerprint_pipeline(fft_magnitude(frame(&pcm, 0.0f32, bell), keys));
    assert!(!staged.is_empty());
    assert_eq!(fingerprints_of(&pcm, 11_025, 1, 0.0, average, never_convert, bell, keys), Ok(staged.clone()));

    let stereo: Vec<f32> = pcm.iter().flat_map(|&x| vec![x, x]).collect();
    assert_eq!(fingerprints_of(&stereo, 11_025, 2, 0.0, average, never_convert, bell, keys), Ok(staged.clone()));

    let decoded = |params: StreamParams| -> Vec<f32> {
        assert_eq!(params.channels, 2);
        stereo.clone()
    };
    assert_eq!(
        fingerprints_of_stream(track(Some(11_025), Some(2)), decoded, 0.0f32, average, never_convert, bell, keys),
        Ok(staged)
    );
}

#[test]
fn the_converted_signal_is_what_is_framed() {
    let pcm = sine(440.0, 22_050);
    let halve = |a: u32, b: u32, chunks: Vec<Vec<f32>>| -> Option<Vec<f32>> {
        assert_eq!((a, b), (22_050, 11_025));
        Some(chunks.concat().iter().step_by(2).copied().collect())
    };
    let halved: Vec<f32> = {
        let mut padded = pcm.clone();
        padded.resize(22 * 1024, 0.0);
        padded.iter().step_by(2).copied().collect()
    };
    let expected = fingerprint_pipeline(fft_magnitude(frame(&halved, 0.0f32, bell), keys));
    assert!(!expected.is_empty());
    assert_eq!(fingerprints_of(&pcm, 22_050, 1, 0.0, average, halve, bell, keys), Ok(expected));
}

#[test]
fn a_pure_tone_is_fingerprinted_in_its_bin() {
    let pcm = sine(440.0, 110_250);
    let spectrogram = fft_magnitude(frame(&pcm, 0.0f32, bell), keys);
    let frames = spectrogram.len();
    assert_eq!(frames, 216);
    let peaks = find_peaks(spectrogram, MAGNITUDE_THRESHOLD);
    for &(t, f) in &peaks {
        assert_eq!(f, 41);
        assert!(t >= 1 && t <= frames - 2);
    }
    let found = fingerprints_of(&pcm, 11_025, 1, 0.0, average, never_convert, bell, keys).unwrap();
    assert!(!found.is_empty());
    for fp in &found {
        let (f1, f2, dt) = parts(fp);
        assert_eq!((f1, f2), (41, 41));
        assert!(dt >= 1 && dt <= 50);
        assert!(fp.frame_index >= 1 && fp.frame_index <= frames - 2);
    }
}

#[test]
fn signals_joined_at_a_hop_keep_their_fingerprints_away_from_the_joint() {
    let mut a = sine(440.0, 20 * 512);
    a.extend_from_slice(&sine(900.0, 20 * 512));
    let mut b = sine(1_500.0, 15 * 512);
    b.extend_from_slice(&sine(600.0, 25 * 512));
    let off = a.len() / 512;
    let mut ab = a.clone();
    ab.extend_from_slice(&b);
    let of = |pcm: &Vec<f32>| fingerprints_of(pcm, 11_025, 1, 0.0, average, never_convert, bell, keys).unwrap();
    let fa = of(&a);
    let fb = of(&b);
    let fab = of(&ab);
    assert!(!fa.is_empty() && !fb.is_empty());
    for fp in &fa {
        let (_, _, dt) = parts(fp);
        if fp.frame_index + dt as usize + 2 < off {
            assert!(fab.contains(fp));
        }
    }
    for fp in &fb {
        if fp.frame_index >= 2 {
            let later = Fingerprint { hash: fp.hash, frame_index: fp.frame_index + off };
            assert!(fab.contains(&later));
        }
    }
}
