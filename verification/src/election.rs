//! Election of a track from offset matches.
//!
//! A match is a pair `(song_id, delta)`: a stored fingerprint of track
//! `song_id` shares its hash with a query fingerprint and lies `delta` frames
//! after it. A true match repeats one pair many times; chance collisions
//! scatter. The pair that occurs most often names the elected track.

use crate::error::PipelineError;
use std::collections::HashMap;
use vstd::prelude::*;

verus! {

/// How often `pair` occurs in `matches`.
pub open spec fn votes(matches: Seq<(i64, i64)>, pair: (i64, i64)) -> nat
    decreases matches.len(),
{
    if matches.len() == 0 {
        0
    } else {
        votes(matches.drop_last(), pair) + if matches.last() == pair {
            1nat
        } else {
            0nat
        }
    }
}

/// Whether the match at index `k` wins the election: no pair has more votes
/// than it, and every match before it has fewer. Among the pairs with the
/// most votes, the winner is thus the one that occurs first.
pub open spec fn wins(matches: Seq<(i64, i64)>, k: int) -> bool {
    &&& 0 <= k < matches.len()
    &&& forall|j: int|
        0 <= j < matches.len() ==> votes(matches, #[trigger] matches[j]) <= votes(
            matches,
            matches[k],
        )
    &&& forall|j: int|
        0 <= j < k ==> votes(matches, #[trigger] matches[j]) < votes(matches, matches[k])
}

/// The track elected from a non-empty list of matches.
pub open spec fn elected(matches: Seq<(i64, i64)>) -> i64 {
    matches[choose|k: int| wins(matches, k)].0
}

/// A pair has no more votes than there are matches.
pub proof fn lemma_votes_bounded(matches: Seq<(i64, i64)>, pair: (i64, i64))
    ensures
        votes(matches, pair) <= matches.len(),
    decreases matches.len(),
{
    if matches.len() > 0 {
        lemma_votes_bounded(matches.drop_last(), pair);
    }
}

/// A pair that occurs in the list has at least one vote.
pub proof fn lemma_member_has_vote(matches: Seq<(i64, i64)>, j: int)
    requires
        0 <= j < matches.len(),
    ensures
        votes(matches, matches[j]) >= 1,
    decreases matches.len(),
{
    if j < matches.len() - 1 {
        lemma_member_has_vote(matches.drop_last(), j);
    }
}

/// An election has at most one winner: two calls on one list of matches
/// elect the same track.
pub proof fn lemma_winner_unique(matches: Seq<(i64, i64)>, k1: int, k2: int)
    requires
        wins(matches, k1),
        wins(matches, k2),
    ensures
        k1 == k2,
{
    if k1 < k2 {
        assert(votes(matches, matches[k1]) < votes(matches, matches[k2]));
        assert(votes(matches, matches[k2]) <= votes(matches, matches[k1]));
    } else if k2 < k1 {
        assert(votes(matches, matches[k2]) < votes(matches, matches[k1]));
        assert(votes(matches, matches[k1]) <= votes(matches, matches[k2]));
    }
}

/// The pair `(song_id, delta)` as one integer, different pairs as different
/// integers.
closed spec fn vote_key(pair: (i64, i64)) -> u128 {
    ((pair.0 - i64::MIN) * 0x1_0000_0000_0000_0000 + (pair.1 - i64::MIN)) as u128
}

proof fn lemma_vote_key_injective(p: (i64, i64), q: (i64, i64))
    requires
        vote_key(p) == vote_key(q),
    ensures
        p == q,
{
}

fn key_of(pair: (i64, i64)) -> (key: u128)
    ensures
        key == vote_key(pair),
{
    let high: u128 = (pair.0 as i128 - i64::MIN as i128) as u128;
    let low: u128 = (pair.1 as i128 - i64::MIN as i128) as u128;
    high * 0x1_0000_0000_0000_0000 + low
}

/// Whether `tally` holds, for every pair, its votes in `counted`; a pair
/// without votes has no entry.
spec fn tallies(tally: Map<u128, usize>, counted: Seq<(i64, i64)>) -> bool {
    forall|pair: (i64, i64)|
        if tally.contains_key(#[trigger] vote_key(pair)) {
            tally[vote_key(pair)] == votes(counted, pair)
        } else {
            votes(counted, pair) == 0
        }
}

/// Counts the votes of every pair.
fn tally_votes(matches: &Vec<(i64, i64)>) -> (tally: HashMap<u128, usize>)
    ensures
        tallies(tally@, matches@),
{
    broadcast use vstd::std_specs::hash::group_hash_axioms;

    let mut tally: HashMap<u128, usize> = HashMap::new();
    let mut i: usize = 0;
    while i < matches.len()
        invariant
            i <= matches.len(),
            tallies(tally@, matches@.take(i as int)),
        decreases matches.len() - i,
    {
        let pair: (i64, i64) = matches[i];
        let key: u128 = key_of(pair);
        let ghost counted = matches@.take(i as int);
        let ghost before = tally@;
        let count: usize = match tally.get(&key) {
            Some(c) => *c,
            None => 0,
        };
        proof {
            lemma_votes_bounded(counted, pair);
            assert(count == votes(counted, pair));
        }
        tally.insert(key, count + 1);
        proof {
            let longer = matches@.take(i + 1);
            assert(longer.drop_last() == counted);
            assert(longer.last() == pair);
            assert forall|other: (i64, i64)|
                if tally@.contains_key(#[trigger] vote_key(other)) {
                    tally@[vote_key(other)] == votes(longer, other)
                } else {
                    votes(longer, other) == 0
                } by {
                if vote_key(other) == key {
                    lemma_vote_key_injective(other, pair);
                } else {
                    assert(before.contains_key(vote_key(other)) == tally@.contains_key(
                        vote_key(other),
                    ));
                }
            }
        }
        i += 1;
    }
    assert(matches@.take(matches.len() as int) == matches@);
    tally
}

/// Elects the track of the pair `(song_id, delta)` that occurs most often
/// among the matches. Of several pairs with the most occurrences the one
/// that occurs first in the list is taken. Without a match there is nothing
/// to elect.
pub fn elect_id(matches: Vec<(i64, i64)>) -> (outcome: Result<i64, PipelineError>)
    ensures
        matches.len() == 0 <==> outcome == Err::<i64, PipelineError>(PipelineError::NoMatches),
        matches.len() > 0 ==> outcome is Ok,
        outcome matches Ok(id) ==> id == elected(matches@) && exists|k: int|
            wins(matches@, k) && id == matches[k].0,
{
    broadcast use vstd::std_specs::hash::group_hash_axioms;

    if matches.len() == 0 {
        return Err(PipelineError::NoMatches);
    }
    let tally: HashMap<u128, usize> = tally_votes(&matches);
    let mut best: usize = 0;
    let mut best_votes: usize = 0;
    let mut i: usize = 0;
    while i < matches.len()
        invariant
            i <= matches.len(),
            matches.len() > 0,
            tallies(tally@, matches@),
            i == 0 ==> best == 0 && best_votes == 0,
            i > 0 ==> best < i && best_votes == votes(matches@, matches[best as int]),
            forall|j: int| 0 <= j < i ==> votes(matches@, #[trigger] matches[j]) <= best_votes,
            forall|j: int| 0 <= j < best ==> votes(matches@, #[trigger] matches[j]) < best_votes,
        decreases matches.len() - i,
    {
        let key: u128 = key_of(matches[i]);
        proof {
            lemma_member_has_vote(matches@, i as int);
        }
        let count: usize = match tally.get(&key) {
            Some(c) => *c,
            None => 0,
        };
        assert(count == votes(matches@, matches[i as int]));
        if count > best_votes {
            best = i;
            best_votes = count;
        }
        i += 1;
    }
    proof {
        assert(wins(matches@, best as int));
        let chosen = choose|k: int| wins(matches@, k);
        lemma_winner_unique(matches@, chosen, best as int);
    }
    Ok(matches[best].0)
}

} // verus!
