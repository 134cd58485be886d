use vstd::prelude::*;
use crate::order::Ranked;

verus! {

/// One line of a leaderboard: who, how many points, and when the score was set.
///
/// `points` and `timestamp` are integers. A caller whose scores are real numbers
/// hands in an integer image of them that keeps their order.
#[derive(Clone, Copy, Debug, PartialEq, Eq, Structural)]
pub struct Entry {
    pub timestamp: u64,
    pub points: i64,
    pub key: i64,
}

impl Entry {
    /// Builds an entry from its three parts.
    pub fn new(key: i64, points: i64, timestamp: u64) -> (e: Entry)
        ensures
            e.key == key,
            e.points == points,
            e.timestamp == timestamp,
    {
        Entry { timestamp, points, key }
    }

    /// `self` is outranked by `other`: fewer points; on equal points the later
    /// timestamp; on equal points and timestamp the smaller key.
    pub open spec fn outranked_by(self, other: Entry) -> bool {
        ||| self.points < other.points
        ||| (self.points == other.points && self.timestamp > other.timestamp)
        ||| (self.points == other.points && self.timestamp == other.timestamp && self.key
            < other.key)
    }
}

impl Default for Entry {
    fn default() -> (e: Entry)
        ensures
            e.key == 0,
            e.points == 0,
            e.timestamp == 0,
    {
        Entry { timestamp: 0, points: 0, key: 0 }
    }
}

impl Ranked for Entry {
    open spec fn below(self, other: Self) -> bool {
        self.outranked_by(other)
    }

    proof fn law_irreflexive(a: Self) {
    }

    proof fn law_transitive(a: Self, b: Self, c: Self) {
    }

    proof fn law_connected(a: Self, b: Self) {
    }

    fn is_below(&self, other: &Self) -> (r: bool) {
        if self.points != other.points {
            self.points < other.points
        } else if self.timestamp != other.timestamp {
            self.timestamp > other.timestamp
        } else {
            self.key < other.key
        }
    }

    fn is_same(&self, other: &Self) -> (r: bool) {
        self.points == other.points && self.timestamp == other.timestamp && self.key == other.key
    }
}

} // verus!
