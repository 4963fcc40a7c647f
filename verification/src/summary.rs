//! The rules that decide which clusters are shown, and the tally of
//! neighbour counts that the distance survey prints.
use vstd::prelude::*;

verus! {

/// The default least number of points that makes a group of points a cluster.
pub const DEFAULT_MIN_POINTS: usize = 5;

/// A cluster enters the summary of clusters when it has at least
/// `min_points` points.
pub fn in_summary(num_points: i64, min_points: usize) -> (b: bool)
    ensures
        b == (num_points >= min_points as i64),
{
    num_points >= min_points as i64
}

/// A cluster is drawn on the GPX track of clusters when it has more than
/// five points.
pub fn drawn_on_track(num_points: i64) -> (b: bool)
    ensures
        b == (num_points > 5),
{
    num_points > 5
}

/// Running totals of how many neighbours each point has.
pub struct CountTally {
    total: usize,
    max: usize,
}

impl CountTally {
    /// The sum of the counts recorded so far.
    pub closed spec fn spec_total(&self) -> int {
        self.total as int
    }

    /// The largest count recorded so far (0 when none was).
    pub closed spec fn spec_max(&self) -> int {
        self.max as int
    }

    /// A tally with nothing recorded.
    pub fn new() -> (t: CountTally)
        ensures
            t.spec_total() == 0,
            t.spec_max() == 0,
    {
        CountTally { total: 0, max: 0 }
    }

    /// Records the neighbour count of one more point; returns whether it is
    /// larger than every count before it.
    pub fn record(&mut self, count: usize) -> (new_max: bool)
        requires
            old(self).spec_total() + count <= usize::MAX,
        ensures
            new_max == (count > old(self).spec_max()),
            final(self).spec_total() == old(self).spec_total() + count,
            final(self).spec_max() == (if count > old(self).spec_max() {
                count as int
            } else {
                old(self).spec_max()
            }),
    {
        self.total = self.total + count;
        if count > self.max {
            self.max = count;
            true
        } else {
            false
        }
    }

    /// The sum of the counts recorded so far.
    pub fn total(&self) -> (n: usize)
        ensures
            n == self.spec_total(),
    {
        self.total
    }

    /// The largest count recorded so far.
    pub fn max(&self) -> (n: usize)
        ensures
            n == self.spec_max(),
    {
        self.max
    }
}

} // verus!
