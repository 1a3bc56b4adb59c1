//! The join of query fingerprints with stored fingerprints.
//!
//! A store holds the fingerprints of many tracks, each with the id of its
//! track. Looking a query up gives one match for every stored fingerprint
//! that shares its hash with a query fingerprint: the track, and how many
//! frames the stored fingerprint lies after the query fingerprint.

use crate::election::votes;
use crate::hashing::Fingerprint;
use vstd::prelude::*;

verus! {

/// A fingerprint as a store holds it: with the id of its track.
#[derive(Debug, Clone, Copy, PartialEq, Eq, Structural, Hash)]
pub struct StoredFingerprint {
    pub song_id: i64,
    pub hash: u64,
    pub frame_index: usize,
}

/// The rows under which the fingerprints of a track are stored: one per
/// fingerprint, in order, each with the id of the track.
pub open spec fn spec_stored_rows(song_id: i64, fingerprints: Seq<Fingerprint>) -> Seq<
    StoredFingerprint,
> {
    Seq::new(
        fingerprints.len(),
        |k: int|
            StoredFingerprint {
                song_id,
                hash: fingerprints[k].hash,
                frame_index: fingerprints[k].frame_index,
            },
    )
}

/// How many frames a stored fingerprint lies after a query fingerprint.
pub open spec fn delta(stored: StoredFingerprint, query: Fingerprint) -> int {
    stored.frame_index - query.frame_index
}

/// The 64-bit signed number that differs from `d` by a multiple of 2^64: `d`
/// itself where it is such a number.
pub open spec fn wrapped(d: int) -> i64 {
    let r = d % 0x1_0000_0000_0000_0000;
    if r < 0x8000_0000_0000_0000 {
        r as i64
    } else {
        (r - 0x1_0000_0000_0000_0000) as i64
    }
}

/// The match that the stored fingerprint `stored` gives for `query`: its
/// track and its offset from the query, as a 64-bit signed number.
pub open spec fn match_of(stored: StoredFingerprint, query: Fingerprint) -> (i64, i64) {
    (stored.song_id, wrapped(delta(stored, query)))
}

/// An offset that is a 64-bit signed number is matched as it is. Every
/// offset between frames below 2^63 is such a number.
pub proof fn lemma_offset_in_range(stored: StoredFingerprint, query: Fingerprint)
    ensures
        i64::MIN <= delta(stored, query) <= i64::MAX ==> match_of(stored, query).1 == delta(
            stored,
            query,
        ),
        stored.frame_index <= i64::MAX && query.frame_index <= i64::MAX ==> match_of(
            stored,
            query,
        ).1 == delta(stored, query),
{
}

/// The matches of one query fingerprint among the first `n` stored
/// fingerprints, in the order of the store.
pub open spec fn matches_among(store: Seq<StoredFingerprint>, query: Fingerprint, n: nat) -> Seq<
    (i64, i64),
>
    decreases n,
{
    if n == 0 {
        Seq::empty()
    } else if store[n - 1].hash == query.hash {
        matches_among(store, query, (n - 1) as nat).push(match_of(store[n - 1], query))
    } else {
        matches_among(store, query, (n - 1) as nat)
    }
}

/// The matches of one query fingerprint in the whole store.
pub open spec fn spec_matches_of(store: Seq<StoredFingerprint>, query: Fingerprint) -> Seq<
    (i64, i64),
> {
    matches_among(store, query, store.len())
}

/// The matches of the first `m` query fingerprints, query by query.
pub open spec fn lookup_upto(store: Seq<StoredFingerprint>, query: Seq<Fingerprint>, m: nat) -> Seq<
    (i64, i64),
>
    decreases m,
{
    if m == 0 {
        Seq::empty()
    } else {
        lookup_upto(store, query, (m - 1) as nat) + spec_matches_of(store, query[m - 1])
    }
}

/// The matches of a query: for each query fingerprint in turn, one match per
/// stored fingerprint of the same hash, in the order of the store.
pub open spec fn spec_lookup(store: Seq<StoredFingerprint>, query: Seq<Fingerprint>) -> Seq<
    (i64, i64),
> {
    lookup_upto(store, query, query.len())
}

/// The votes of a pair in two lists joined are its votes in the one and in
/// the other together.
pub proof fn lemma_votes_of_joined(
    first: Seq<(i64, i64)>,
    second: Seq<(i64, i64)>,
    pair: (i64, i64),
)
    ensures
        votes(first + second, pair) == votes(first, pair) + votes(second, pair),
    decreases second.len(),
{
    if second.len() == 0 {
        assert(first + second == first);
    } else {
        assert((first + second).drop_last() == first + second.drop_last());
        lemma_votes_of_joined(first, second.drop_last(), pair);
    }
}

/// A stored fingerprint of the same hash as the query fingerprint gives a
/// vote to its match.
pub proof fn lemma_row_votes_once(
    store: Seq<StoredFingerprint>,
    query: Fingerprint,
    n: nat,
    j: int,
)
    requires
        0 <= j < n <= store.len(),
        store[j].hash == query.hash,
    ensures
        votes(matches_among(store, query, n), match_of(store[j], query)) >= 1,
    decreases n,
{
    let shorter = matches_among(store, query, (n - 1) as nat);
    if store[n - 1].hash == query.hash {
        assert(shorter.push(match_of(store[n - 1], query)).drop_last() == shorter);
    }
    if j < n - 1 {
        lemma_row_votes_once(store, query, (n - 1) as nat, j);
    }
}

/// Two stored fingerprints of the same hash as the query fingerprint that
/// give the same match give it two votes.
pub proof fn lemma_rows_vote_twice(
    store: Seq<StoredFingerprint>,
    query: Fingerprint,
    n: nat,
    j1: int,
    j2: int,
)
    requires
        0 <= j1 < j2 < n <= store.len(),
        store[j1].hash == query.hash,
        store[j2].hash == query.hash,
        match_of(store[j1], query) == match_of(store[j2], query),
    ensures
        votes(matches_among(store, query, n), match_of(store[j1], query)) >= 2,
    decreases n,
{
    let shorter = matches_among(store, query, (n - 1) as nat);
    if store[n - 1].hash == query.hash {
        assert(shorter.push(match_of(store[n - 1], query)).drop_last() == shorter);
    }
    if j2 < n - 1 {
        lemma_rows_vote_twice(store, query, (n - 1) as nat, j1, j2);
    } else {
        lemma_row_votes_once(store, query, (n - 1) as nat, j1);
    }
}

/// A pair has at least as many votes in the matches of a query as in the
/// matches of any one of its fingerprints.
pub proof fn lemma_lookup_holds_matches(
    store: Seq<StoredFingerprint>,
    query: Seq<Fingerprint>,
    m: nat,
    i: int,
    pair: (i64, i64),
)
    requires
        0 <= i < m <= query.len(),
    ensures
        votes(lookup_upto(store, query, m), pair) >= votes(spec_matches_of(store, query[i]), pair),
    decreases m,
{
    lemma_votes_of_joined(
        lookup_upto(store, query, (m - 1) as nat),
        spec_matches_of(store, query[m - 1]),
        pair,
    );
    if i < m - 1 {
        lemma_lookup_holds_matches(store, query, (m - 1) as nat, i, pair);
    }
}

/// With the fingerprints of one track stored twice, under the ids `a` and
/// `b`, every query fingerprint that shares its hash with a fingerprint of
/// the track is matched twice at one and the same offset: once for `a` and
/// once for `b`, which is twice for the one id where the two are equal.
pub proof fn lemma_twice_stored_matches_twice(
    a: i64,
    b: i64,
    fingerprints: Seq<Fingerprint>,
    query: Seq<Fingerprint>,
    i: int,
    j: int,
)
    requires
        0 <= i < query.len(),
        0 <= j < fingerprints.len(),
        query[i].hash == fingerprints[j].hash,
    ensures
        ({
            let store = spec_stored_rows(a, fingerprints) + spec_stored_rows(b, fingerprints);
            let offset = wrapped(fingerprints[j].frame_index - query[i].frame_index);
            let found = spec_lookup(store, query);
            &&& votes(found, (a, offset)) >= 1
            &&& votes(found, (b, offset)) >= 1
            &&& a == b ==> votes(found, (a, offset)) >= 2
        }),
{
    let store = spec_stored_rows(a, fingerprints) + spec_stored_rows(b, fingerprints);
    let offset = wrapped(fingerprints[j].frame_index - query[i].frame_index);
    let second = fingerprints.len() + j;
    assert(store[j] == spec_stored_rows(a, fingerprints)[j]);
    assert(store[second] == spec_stored_rows(b, fingerprints)[j]);
    assert(match_of(store[j], query[i]) == (a, offset));
    assert(match_of(store[second], query[i]) == (b, offset));
    lemma_row_votes_once(store, query[i], store.len(), j);
    lemma_row_votes_once(store, query[i], store.len(), second);
    if a == b {
        lemma_rows_vote_twice(store, query[i], store.len(), j, second);
    }
    lemma_lookup_holds_matches(store, query, query.len(), i, (a, offset));
    lemma_lookup_holds_matches(store, query, query.len(), i, (b, offset));
}

/// The rows under which the fingerprints of a track are stored.
pub fn stored_rows(song_id: i64, fingerprints: &[Fingerprint]) -> (rows: Vec<StoredFingerprint>)
    ensures
        rows@ == spec_stored_rows(song_id, fingerprints@),
{
    let mut rows: Vec<StoredFingerprint> = Vec::with_capacity(fingerprints.len());
    let mut k: usize = 0;
    while k < fingerprints.len()
        invariant
            k <= fingerprints.len(),
            rows@ == spec_stored_rows(song_id, fingerprints@.take(k as int)),
        decreases fingerprints.len() - k,
    {
        rows.push(
            StoredFingerprint {
                song_id,
                hash: fingerprints[k].hash,
                frame_index: fingerprints[k].frame_index,
            },
        );
        assert(rows@ =~= spec_stored_rows(song_id, fingerprints@.take(k + 1)));
        k += 1;
    }
    assert(fingerprints@.take(fingerprints.len() as int) == fingerprints@);
    rows
}

/// The offset of a stored fingerprint from a query fingerprint.
fn offset(stored: &StoredFingerprint, query: &Fingerprint) -> (d: i64)
    ensures
        d == wrapped(delta(*stored, *query)),
{
    let s: u64 = stored.frame_index as u64;
    let q: u64 = query.frame_index as u64;
    if s >= q {
        let ahead: u64 = s - q;
        if ahead <= 0x7FFF_FFFF_FFFF_FFFF {
            ahead as i64
        } else {
            (ahead - 0x8000_0000_0000_0000) as i64 + i64::MIN
        }
    } else {
        let behind: u64 = q - s;
        if behind == 0x8000_0000_0000_0000 {
            i64::MIN
        } else if behind < 0x8000_0000_0000_0000 {
            -(behind as i64)
        } else {
            (0xFFFF_FFFF_FFFF_FFFF - behind + 1) as i64
        }
    }
}

/// Looks one query fingerprint up: one match `(song_id, delta)` per stored
/// fingerprint of the same hash, in the order of the store.
pub fn matches_of(store: &[StoredFingerprint], query: &Fingerprint) -> (matches: Vec<(i64, i64)>)
    ensures
        matches@ == spec_matches_of(store@, *query),
{
    let mut matches: Vec<(i64, i64)> = Vec::new();
    let mut j: usize = 0;
    while j < store.len()
        invariant
            j <= store.len(),
            matches@ == matches_among(store@, *query, j as nat),
        decreases store.len() - j,
    {
        if store[j].hash == query.hash {
            let d: i64 = offset(&store[j], query);
            matches.push((store[j].song_id, d));
        }
        j += 1;
    }
    matches
}

/// Looks a query up in a store: for each query fingerprint in turn, one
/// match `(song_id, delta)` per stored fingerprint of the same hash, where
/// `delta` is the stored frame less the query frame. A difference that is no
/// 64-bit signed number, as only frames from 2^63 on give it, is taken
/// modulo 2^64.
pub fn lookup(store: &[StoredFingerprint], query: &[Fingerprint]) -> (matches: Vec<(i64, i64)>)
    ensures
        matches@ == spec_lookup(store@, query@),
{
    let mut matches: Vec<(i64, i64)> = Vec::new();
    let mut i: usize = 0;
    while i < query.len()
        invariant
            i <= query.len(),
            matches@ == lookup_upto(store@, query@, i as nat),
        decreases query.len() - i,
    {
        let mut found: Vec<(i64, i64)> = matches_of(store, &query[i]);
        matches.append(&mut found);
        i += 1;
    }
    matches
}

} // verus!
