use resonate::hashing::{generate_hashes, Fingerprint};

#[test]
fn pairs_each_anchor_with_the_peaks_after_it() {
    let peaks = vec![(1usize, 10usize), (2, 20), (3, 30)];
    let fingerprints = generate_hashes(&peaks, 5, 50);
    assert_eq!(
        fingerprints,
        vec![
            Fingerprint { hash: 42_950_983_681, frame_index: 1 },
            Fingerprint { hash: 42_951_639_042, frame_index: 1 },
            Fingerprint { hash: 85_901_312_001, frame_index: 2 },
        ]
    );
}

#[test]
fn hash_packs_bins_and_distance() {
    let peaks = vec![(7usize, 41usize), (50, 82)];
    let fingerprints = generate_hashes(&peaks, 5, 50);
    assert_eq!(fingerprints.len(), 1);
    assert_eq!(fingerprints[0].hash, (41u64 << 32) | (82u64 << 16) | 43u64);
    assert_eq!(fingerprints[0].frame_index, 7);
}

#[test]
fn no_peaks_give_no_fingerprints() {
    let peaks: Vec<(usize, usize)> = Vec::new();
    assert!(generate_hashes(&peaks, 5, 50).is_empty());
}

#[test]
fn a_single_peak_gives_no_fingerprint() {
    assert!(generate_hashes(&[(3usize, 4usize)], 5, 50).is_empty());
}

#[test]
fn fan_value_bounds_the_targets_of_an_anchor() {
    let peaks: Vec<(usize, usize)> = (0..7).map(|t| (t as usize, 100usize + t as usize)).collect();
    let fingerprints = generate_hashes(&peaks, 5, 50);
    let of_first = fingerprints.iter().filter(|fp| fp.frame_index == 0).count();
    assert_eq!(of_first, 5);
    assert_eq!(fingerprints.len(), 5 + 5 + 4 + 3 + 2 + 1);
}

#[test]
fn fan_value_zero_gives_nothing() {
    let peaks = vec![(1usize, 10usize), (2, 20), (3, 30)];
    assert!(generate_hashes(&peaks, 0, 50).is_empty());
}

#[test]
fn a_target_too_late_ends_the_pairing_of_its_anchor() {
    let peaks = vec![(0usize, 1usize), (10, 2), (100, 3), (101, 4)];
    let fingerprints = generate_hashes(&peaks, 5, 50);
    assert_eq!(
        fingerprints,
        vec![
            Fingerprint { hash: (1u64 << 32) | (2u64 << 16) | 10, frame_index: 0 },
            Fingerprint { hash: (3u64 << 32) | (4u64 << 16) | 1, frame_index: 100 },
        ]
    );
}

#[test]
fn the_distance_limit_is_inclusive() {
    let peaks = vec![(0usize, 1usize), (50, 2), (101, 3)];
    let fingerprints = generate_hashes(&peaks, 5, 50);
    assert_eq!(fingerprints, vec![Fingerprint { hash: (1u64 << 32) | (2u64 << 16) | 50, frame_index: 0 }]);
}

#[test]
fn pairing_does_not_resume_after_a_target_too_late() {
    let peaks = vec![(0usize, 1usize), (100, 2), (20, 3)];
    assert!(generate_hashes(&peaks, 5, 50).is_empty());
}

#[test]
fn peaks_of_one_frame_pair_at_distance_zero() {
    let peaks = vec![(4usize, 10usize), (4, 20)];
    let fingerprints = generate_hashes(&peaks, 5, 50);
    assert_eq!(fingerprints, vec![Fingerprint { hash: (10u64 << 32) | (20u64 << 16), frame_index: 4 }]);
}

#[test]
fn fields_are_cut_to_sixteen_bits() {
    let peaks = vec![(0usize, 0x1_0005usize), (3, 0x2_0007)];
    let fingerprints = generate_hashes(&peaks, 5, 50);
    assert_eq!(fingerprints, vec![Fingerprint { hash: (5u64 << 32) | (7u64 << 16) | 3, frame_index: 0 }]);
    let far = vec![(0usize, 1usize), (0x1_0002, 2)];
    let wide = generate_hashes(&far, 5, 0x2_0000);
    assert_eq!(wide, vec![Fingerprint { hash: (1u64 << 32) | (2u64 << 16) | 2, frame_index: 0 }]);
}

#[test]
fn every_hash_keeps_to_48_bits() {
    let peaks: Vec<(usize, usize)> = (0..40).map(|k| (k * 3usize, usize::MAX - k)).collect();
    for fp in generate_hashes(&peaks, 5, 50) {
        assert!(fp.hash < (1u64 << 48));
    }
}

#[test]
fn every_fingerprint_comes_from_a_pair_of_peaks() {
    let peaks: Vec<(usize, usize)> =
        vec![(1, 5), (1, 9), (2, 40), (7, 41), (30, 2), (58, 100), (59, 3), (200, 8)];
    let fingerprints = generate_hashes(&peaks, 5, 50);
    assert!(!fingerprints.is_empty());
    for fp in &fingerprints {
        let mut found = false;
        for i in 0..peaks.len() {
            for j in (i + 1)..peaks.len().min(i + 6) {
                let (t1, f1) = peaks[i];
                let (t2, f2) = peaks[j];
                if t2 >= t1
                    && t2 - t1 <= 50
                    && fp.frame_index == t1
                    && fp.hash == ((f1 as u64) << 32) | ((f2 as u64) << 16) | (t2 - t1) as u64
                {
                    found = true;
                }
            }
        }
        assert!(found);
    }
}

#[test]
fn joined_peak_lists_keep_the_fingerprints_of_both() {
    let first = vec![(1usize, 5usize), (2, 9), (3, 40)];
    let second = vec![(60usize, 7usize), (61, 8), (90, 3)];
    let mut both = first.clone();
    both.extend_from_slice(&second);
    let joined = generate_hashes(&both, 5, 50);
    for fp in generate_hashes(&first, 5, 50) {
        assert!(joined.contains(&fp));
    }
    for fp in generate_hashes(&second, 5, 50) {
        assert!(joined.contains(&fp));
    }
}
