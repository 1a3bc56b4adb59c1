use resonate::election::elect_id;
use resonate::error::PipelineError;
use resonate::hashing::Fingerprint;
use resonate::store::{lookup, stored_rows, StoredFingerprint};

#[test]
fn no_matches_elect_nothing() {
    assert_eq!(elect_id(Vec::new()), Err(PipelineError::NoMatches));
}

#[test]
fn one_match_elects_its_track() {
    assert_eq!(elect_id(vec![(42, -7)]), Ok(42));
}

#[test]
fn the_pair_with_most_votes_wins() {
    let matches = vec![(1, 10), (2, 5), (2, 6), (1, 10), (2, 7), (2, 8)];
    assert_eq!(elect_id(matches), Ok(1));
}

#[test]
fn votes_count_per_pair_and_not_per_track() {
    let matches = vec![(9, 1), (9, 2), (9, 3), (9, 4), (4, 0), (4, 0)];
    assert_eq!(elect_id(matches), Ok(4));
}

#[test]
fn of_two_pairs_with_equal_votes_the_first_wins() {
    assert_eq!(elect_id(vec![(5, 1), (3, 2), (3, 2), (5, 1)]), Ok(5));
    assert_eq!(elect_id(vec![(3, 2), (5, 1), (5, 1), (3, 2)]), Ok(3));
}

#[test]
fn extreme_ids_and_offsets_are_told_apart() {
    let matches = vec![
        (i64::MIN, i64::MAX),
        (i64::MAX, i64::MIN),
        (i64::MAX, i64::MIN),
        (-1, 0),
        (0, -1),
        (i64::MIN, i64::MIN),
    ];
    assert_eq!(elect_id(matches), Ok(i64::MAX));
}

#[test]
fn election_is_repeatable() {
    let matches: Vec<(i64, i64)> = (0..500).map(|k| ((k * 7 % 13) as i64, (k * 5 % 11) as i64)).collect();
    let first = elect_id(matches.clone());
    for _ in 0..20 {
        assert_eq!(elect_id(matches.clone()), first);
    }
}

#[test]
fn a_track_queried_at_an_offset_is_elected() {
    let song = 17i64;
    let stored = stored_rows(
        song,
        &[
            Fingerprint { hash: 101, frame_index: 10 },
            Fingerprint { hash: 102, frame_index: 20 },
            Fingerprint { hash: 103, frame_index: 30 },
        ],
    );
    let query = vec![
        Fingerprint { hash: 101, frame_index: 0 },
        Fingerprint { hash: 102, frame_index: 10 },
        Fingerprint { hash: 103, frame_index: 20 },
    ];
    let matches = lookup(&stored, &query);
    assert_eq!(matches, vec![(song, 10), (song, 10), (song, 10)]);
    assert_eq!(elect_id(matches.clone()), Ok(song));

    let mut noisy = vec![(3i64, -4i64), (8, 250)];
    noisy.extend_from_slice(&matches);
    noisy.push((5, 77));
    assert_eq!(elect_id(noisy), Ok(song));
}

#[test]
fn of_two_tracks_with_shared_hashes_the_coherent_one_is_elected() {
    let a = 1i64;
    let b = 2i64;
    let mut store: Vec<StoredFingerprint> = Vec::new();
    for k in 0..8usize {
        store.push(StoredFingerprint { song_id: a, hash: 1000 + k as u64, frame_index: 40 + 3 * k });
    }
    for k in 0..8usize {
        store.push(StoredFingerprint {
            song_id: b,
            hash: 1000 + k as u64,
            frame_index: 5 + (k * k * 7) % 90,
        });
    }
    let query: Vec<Fingerprint> =
        (2..7usize).map(|k| Fingerprint { hash: 1000 + k as u64, frame_index: 3 * k - 6 }).collect();
    let matches = lookup(&store, &query);
    assert_eq!(matches.iter().filter(|m| **m == (a, 46)).count(), 5);
    assert_eq!(matches.iter().filter(|m| m.0 == b).count(), 5);
    assert_eq!(elect_id(matches), Ok(a));
}
