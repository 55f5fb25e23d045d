//! Nearest-centroid matching.
//!
//! A distance enters this module as an order key: an unsigned integer that
//! orders as the distance does. The bit pattern of a non-negative IEEE 754
//! double is such a key. [`UNREACHABLE`] stands for a distance that is
//! infinite or undefined; no centroid is ever chosen at that distance.

use vstd::prelude::*;

verus! {

/// The key of a distance that is infinite or undefined.
pub const UNREACHABLE: u64 = 0xffff_ffff_ffff_ffff;

/// The outcome of looking for the nearest centroid under a threshold.
#[derive(Clone, Copy, Debug, PartialEq, Eq, Structural)]
pub enum MatchDecision {
    /// The nearest centroid is closer than the threshold.
    Matched { index: usize, distance: u64 },
    /// No centroid is closer than the threshold.
    Unmatched { distance: u64 },
}

/// Whether `distance` is the least of `distances`, and `index` the first
/// position that holds it. Where no distance is below [`UNREACHABLE`], the
/// least is [`UNREACHABLE`] and the position is 0.
pub open spec fn is_nearest(distances: Seq<u64>, index: usize, distance: u64) -> bool {
    &&& forall|i: int| 0 <= i < distances.len() ==> distance <= #[trigger] distances[i]
    &&& if distance == UNREACHABLE {
        index == 0
    } else {
        &&& index < distances.len()
        &&& distances[index as int] == distance
        &&& forall|i: int| 0 <= i < index ==> distance < #[trigger] distances[i]
    }
}

/// The decision that a nearest distance and a threshold lead to: a match if
/// and only if the distance is strictly below the threshold.
pub open spec fn decision_for(index: usize, distance: u64, threshold: u64) -> MatchDecision {
    if distance < threshold {
        MatchDecision::Matched { index, distance }
    } else {
        MatchDecision::Unmatched { distance }
    }
}

/// Whether some distance is strictly below the threshold.
pub open spec fn within_reach(distances: Seq<u64>, threshold: u64) -> bool {
    exists|i: int| 0 <= i < distances.len() && #[trigger] distances[i] < threshold
}

/// Whether `decision` is the one that `distances` and `threshold` lead to.
pub open spec fn is_decision(distances: Seq<u64>, threshold: u64, decision: MatchDecision) -> bool {
    exists|index: usize, distance: u64|
        #![trigger is_nearest(distances, index, distance)]
        is_nearest(distances, index, distance) && decision == decision_for(
            index,
            distance,
            threshold,
        )
}

/// Only one position and distance are the nearest of given distances.
pub proof fn lemma_nearest_unique(distances: Seq<u64>, i1: usize, d1: u64, i2: usize, d2: u64)
    requires
        is_nearest(distances, i1, d1),
        is_nearest(distances, i2, d2),
    ensures
        i1 == i2,
        d1 == d2,
{
    if d1 != UNREACHABLE {
        assert(d2 <= distances[i1 as int]);
    }
    if d2 != UNREACHABLE {
        assert(d1 <= distances[i2 as int]);
    }
    if d1 != UNREACHABLE && d2 != UNREACHABLE {
        if i1 < i2 {
            assert(d2 < distances[i1 as int]);
        }
        if i2 < i1 {
            assert(d1 < distances[i2 as int]);
        }
    }
}

/// Scans the distances in order and returns the least of them with the first
/// position that holds it.
pub fn nearest(distances: &Vec<u64>) -> (result: (usize, u64))
    ensures
        is_nearest(distances@, result.0, result.1),
{
    let mut index: usize = 0;
    let mut least: u64 = UNREACHABLE;
    let mut i: usize = 0;
    while i < distances.len()
        invariant
            i <= distances@.len(),
            is_nearest(distances@.take(i as int), index, least),
        decreases distances@.len() - i,
    {
        let ghost seen = distances@.take(i as int);
        let ghost next = distances@.take(i + 1);
        assert forall|k: int| 0 <= k < i implies #[trigger] next[k] == seen[k] by {}
        let distance = distances[i];
        if distance < least {
            least = distance;
            index = i;
        }
        i = i + 1;
        assert(is_nearest(next, index, least));
    }
    assert(distances@.take(distances@.len() as int) =~= distances@);
    (index, least)
}

/// Decides whether a message matches: finds the nearest centroid by
/// [`nearest`], and calls it a match if and only if its distance is strictly
/// below `threshold`.
pub fn classify(distances: &Vec<u64>, threshold: u64) -> (decision: MatchDecision)
    ensures
        is_decision(distances@, threshold, decision),
        decision is Matched <==> within_reach(distances@, threshold),
        decision matches MatchDecision::Matched { index, distance } ==> is_nearest(
            distances@,
            index,
            distance,
        ) && distance < threshold,
        decision matches MatchDecision::Unmatched { distance } ==> threshold <= distance && (
        forall|i: int| 0 <= i < distances@.len() ==> distance <= #[trigger] distances@[i]),
{
    let (index, distance) = nearest(distances);
    if distance < threshold {
        MatchDecision::Matched { index, distance }
    } else {
        MatchDecision::Unmatched { distance }
    }
}

} // verus!
