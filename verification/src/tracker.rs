//! The running state kept for one window length while a series is scanned
//! once from its first sample to its last.

use vstd::prelude::*;
use crate::best::{
    is_best_for, is_first_maximum, lemma_best_unique, window_average, Average, BestAverage,
    BestAverageResult,
};
use crate::window::{lemma_window_slide, lemma_window_sum_bounds, window_sum};

verus! {

/// What a scan remembers for one window length: the sum of the window that
/// ends at the last sample consumed, and the best complete window so far.
#[derive(Clone, Copy, Debug, PartialEq, Eq)]
pub struct WindowTracker {
    /// The window length, in samples.
    pub distance: u64,
    /// The sum of the last `distance` samples consumed, or of all of them
    /// while fewer have been consumed.
    pub running_sum: i128,
    /// The sum of the best complete window so far; zero while there is none.
    pub max_sum: i128,
    /// Where the best complete window so far starts.
    pub start_index: Option<u64>,
}

impl WindowTracker {
    /// The tracker is in the state that consuming the first `consumed`
    /// samples of `series`, in order, leaves it in.
    pub open spec fn tracks(self, series: Seq<i64>, consumed: int) -> bool {
        let d = self.distance as int;
        &&& 0 < d
        &&& 0 <= consumed <= series.len()
        &&& if consumed < d {
            &&& self.running_sum == window_sum(series, 0, consumed)
            &&& self.max_sum == 0
            &&& self.start_index is None
        } else {
            &&& self.running_sum == window_sum(series, consumed - d, d)
            &&& self.start_index matches Some(s)
            &&& is_first_maximum(series, d, consumed - d + 1, s as int)
            &&& self.max_sum == window_sum(series, s as int, d)
        }
    }

    /// The best window that the tracker has recorded, with its average.
    pub open spec fn best(self) -> Option<BestAverage> {
        match self.start_index {
            Some(s) => Some(
                BestAverage {
                    start_index: s,
                    average: Average { total: self.max_sum, count: self.distance },
                },
            ),
            None => None,
        }
    }

    /// A tracker for windows of `distance` samples that has consumed nothing.
    pub fn new(distance: u64) -> (tracker: Self)
        requires
            distance > 0,
        ensures
            tracker == (WindowTracker { distance, running_sum: 0, max_sum: 0, start_index: None }),
            forall|series: Seq<i64>| tracker.tracks(series, 0),
    {
        WindowTracker { distance, running_sum: 0, max_sum: 0, start_index: None }
    }

    /// Consumes the sample at `index`: the sample enters the running sum, the
    /// sample `distance` places before it leaves, and the window that now ends
    /// at `index` replaces the recorded best if its sum is strictly greater.
    pub fn advance(self, series: &Vec<i64>, index: usize) -> (next: Self)
        requires
            index < series.len(),
            self.tracks(series@, index as int),
        ensures
            next.distance == self.distance,
            next.tracks(series@, index + 1),
    {
        let ghost d = self.distance as int;
        let entering: i128 = series[index] as i128;
        let running_sum: i128 = if index as u64 >= self.distance {
            let gone: usize = index - self.distance as usize;
            let leaving: i128 = series[gone] as i128;
            proof {
                lemma_window_slide(series@, gone as int, d);
                lemma_window_sum_bounds(series@, gone + 1, d);
            }
            self.running_sum + (entering - leaving)
        } else {
            proof {
                lemma_window_sum_bounds(series@, 0, index + 1);
            }
            self.running_sum + entering
        };
        if index as u64 + 1 < self.distance {
            WindowTracker { running_sum, ..self }
        } else {
            let start: u64 = index as u64 + 1 - self.distance;
            let replaces: bool = match self.start_index {
                Some(_) => running_sum > self.max_sum,
                None => true,
            };
            if replaces {
                WindowTracker {
                    distance: self.distance,
                    running_sum,
                    max_sum: running_sum,
                    start_index: Some(start),
                }
            } else {
                WindowTracker { running_sum, ..self }
            }
        }
    }

    /// The result for this tracker's window length: the recorded best window
    /// with its average, or none if no window was ever complete.
    pub fn finish(self) -> (result: BestAverageResult)
        ensures
            result == (BestAverageResult { distance: self.distance, best: self.best() }),
    {
        let best = match self.start_index {
            Some(start_index) => Some(
                BestAverage {
                    start_index,
                    average: Average { total: self.max_sum, count: self.distance },
                },
            ),
            None => None,
        };
        BestAverageResult { distance: self.distance, best }
    }

    /// The single scan and the rescan agree: once the whole series is
    /// consumed, what the tracker has recorded is the start and the average
    /// that adding up every window of its length would find.
    pub proof fn lemma_scan_agrees_with_rescan(
        self,
        series: Seq<i64>,
        rescanned: Option<BestAverage>,
    )
        requires
            self.tracks(series, series.len() as int),
            is_best_for(series, self.distance, rescanned),
        ensures
            self.best() == rescanned,
    {
        self.lemma_finished(series);
        lemma_best_unique(series, self.distance, self.best(), rescanned);
    }

    /// Once the whole series is consumed, what the tracker has recorded is
    /// the answer for its window length.
    pub proof fn lemma_finished(self, series: Seq<i64>)
        requires
            self.tracks(series, series.len() as int),
        ensures
            is_best_for(series, self.distance, self.best()),
    {
        let d = self.distance as int;
        if d <= series.len() {
            let s = self.start_index->0;
            lemma_window_sum_bounds(series, s as int, d);
            assert(self.best()->0.average == window_average(series, s as int, self.distance));
        }
    }
}

} // verus!
