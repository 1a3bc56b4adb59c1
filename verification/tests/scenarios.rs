use resonate::extraction::{fft_magnitude, frame};
use resonate::hashing::Fingerprint;
use resonate::peaks::find_peaks;
use resonate::pipeline::fingerprint_pipeline;
use resonate::config::MAGNITUDE_THRESHOLD;
use rustfft::num_complex::Complex;
use rustfft::FftPlanner;
use std::f32::consts::PI;

const RATE: usize = 11_025;

fn hann(i: usize) -> f32 {
    0.5 * (1.0 - (2.0 * PI * i as f32 / 1023.0).cos())
}

fn magnitude_key(magnitude: f32) -> u32 {
    if magnitude > 0.0 {
        magnitude.to_bits()
    } else {
        0
    }
}

fn spectrogram_of(pcm: &Vec<f32>) -> Vec<Vec<u32>> {
    let frames = frame(pcm, 0.0f32, |i: usize, x: f32| x * hann(i));
    let mut planner = FftPlanner::<f32>::new();
    let fft = planner.plan_fft_forward(1024);
    fft_magnitude(frames, |samples: &Vec<f32>| -> Vec<u32> {
        let mut buffer: Vec<Complex<f32>> = samples.iter().map(|&v| Complex { re: v, im: 0.0 }).collect();
        fft.process(&mut buffer);
        buffer.iter().map(|c| magnitude_key((c.re * c.re + c.im * c.im).sqrt())).collect()
    })
}

fn tone(hz: f64, samples: usize, amplitude: f64) -> Vec<f32> {
    (0..samples)
        .map(|n| (amplitude * (2.0 * std::f64::consts::PI * hz * n as f64 / RATE as f64).sin()) as f32)
        .collect()
}

fn fields(fp: &Fingerprint) -> (u64, u64, u64) {
    (fp.hash >> 32, (fp.hash >> 16) & 0xFFFF, fp.hash & 0xFFFF)
}

#[test]
fn silence_has_no_fingerprints() {
    let pcm = vec![0.0f32; 10 * RATE];
    let spectrogram = spectrogram_of(&pcm);
    assert_eq!(spectrogram.len(), (10 * RATE + 511) / 512);
    assert!(find_peaks(spectrogram.clone(), MAGNITUDE_THRESHOLD).is_empty());
    assert!(fingerprint_pipeline(spectrogram).is_empty());
}

#[test]
fn no_audio_has_no_fingerprints() {
    assert!(fingerprint_pipeline(spectrogram_of(&Vec::new())).is_empty());
    assert!(fingerprint_pipeline(Vec::new()).is_empty());
}

#[test]
fn spectra_have_one_row_per_frame_and_half_the_bins() {
    let pcm = tone(440.0, 3 * RATE, 0.5);
    let spectrogram = spectrogram_of(&pcm);
    assert_eq!(spectrogram.len(), (3 * RATE + 511) / 512);
    for row in &spectrogram {
        assert_eq!(row.len(), 512);
    }
}

#[test]
fn a_pure_tone_has_its_landmarks_in_one_bin() {
    let pcm = tone(440.0, 10 * RATE, 0.5);
    let spectrogram = spectrogram_of(&pcm);
    let frames = spectrogram.len();
    for row in &spectrogram[1..frames - 2] {
        let strongest = (0..512usize).max_by_key(|&f| row[f]).unwrap();
        assert_eq!(strongest, 41);
    }
    let peaks = find_peaks(spectrogram.clone(), MAGNITUDE_THRESHOLD);
    assert!(peaks.len() >= 2);
    for &(t, f) in &peaks {
        assert!(t >= 1 && t <= frames - 2);
        assert_eq!(f, 41);
    }
    let fingerprints = fingerprint_pipeline(spectrogram);
    assert!(!fingerprints.is_empty());
    for fp in &fingerprints {
        let (f1, f2, dt) = fields(fp);
        assert_eq!(f1, 41);
        assert_eq!(f2, 41);
        assert!(dt >= 1 && dt <= 50);
        assert!(peaks.contains(&(fp.frame_index, 41)));
        assert!(peaks.contains(&(fp.frame_index + dt as usize, 41)));
    }
}

#[test]
fn two_tones_a_second_apart_are_linked() {
    let mut pcm = tone(440.0, RATE, 0.5);
    pcm.extend_from_slice(&vec![0.0f32; RATE]);
    pcm.extend_from_slice(&tone(880.0, RATE, 0.5));
    let spectrogram = spectrogram_of(&pcm);
    let peaks = find_peaks(spectrogram.clone(), MAGNITUDE_THRESHOLD);
    assert!(peaks.iter().any(|&(_, f)| f >= 40 && f <= 42));
    assert!(peaks.iter().any(|&(_, f)| f >= 81 && f <= 83));
    for &(t, f) in &peaks {
        assert!(if t < 32 { f == 41 } else { f == 82 });
    }
    let fingerprints = fingerprint_pipeline(spectrogram);
    let linking: Vec<(u64, u64, u64)> =
        fingerprints.iter().map(fields).filter(|&(f1, f2, _)| f1 == 41 && f2 == 82).collect();
    assert!(!linking.is_empty());
    for &(_, _, dt) in &linking {
        assert!(dt >= 33 && dt <= 50);
    }
    assert!(linking.iter().any(|&(_, _, dt)| dt >= 40 && dt <= 46));
}

#[test]
fn extraction_is_repeatable() {
    let mut pcm = tone(440.0, RATE, 0.5);
    pcm.extend_from_slice(&tone(1320.0, RATE / 2, 0.3));
    pcm.extend_from_slice(&tone(700.0, RATE, 0.8));
    let first = fingerprint_pipeline(spectrogram_of(&pcm));
    for _ in 0..3 {
        assert_eq!(fingerprint_pipeline(spectrogram_of(&pcm)), first);
    }
}

fn table(rows: usize, seed: u32) -> Vec<Vec<u32>> {
    let mut state = seed;
    let mut out = Vec::with_capacity(rows);
    for _ in 0..rows {
        let mut row = Vec::with_capacity(24);
        for _ in 0..24 {
            state = state.wrapping_mul(1_664_525).wrapping_add(1_013_904_223);
            let level = (state >> 16) % 97;
            row.push(if level > 60 { MAGNITUDE_THRESHOLD + level } else { level });
        }
        out.push(row);
    }
    out
}

#[test]
fn spectrograms_put_one_after_the_other_keep_their_fingerprints() {
    for (rows_a, rows_b, seed) in [(40usize, 30usize, 7u32), (3, 3, 11), (2, 25, 5), (25, 1, 3), (0, 12, 9), (12, 0, 1)] {
        let first = table(rows_a, seed);
        let second = table(rows_b, seed + 100);
        let mut both = first.clone();
        both.extend(second.iter().cloned());
        let of_both = fingerprint_pipeline(both);
        let of_first = fingerprint_pipeline(first);
        let of_second = fingerprint_pipeline(second);
        if rows_a >= 25 {
            assert!(!of_first.is_empty());
        }
        for fp in &of_first {
            assert!(of_both.contains(fp));
        }
        for fp in &of_second {
            let later = Fingerprint { hash: fp.hash, frame_index: fp.frame_index + rows_a };
            assert!(of_both.contains(&later));
        }
    }
}
