//! What the best window of a given length is: the window with the greatest
//! sum, and among equals the one that starts first.

use vstd::prelude::*;
use crate::window::{lemma_window_sum_bounds, window_sum};

verus! {

/// The exact average of a window, as the fraction `total / count`.
#[derive(Clone, Copy, Debug, PartialEq, Eq)]
pub struct Average {
    /// The sum of the window's samples.
    pub total: i128,
    /// The number of samples in the window.
    pub count: u64,
}

/// The best window of one length: where it starts, and its average.
#[derive(Clone, Copy, Debug, PartialEq, Eq)]
pub struct BestAverage {
    pub start_index: u64,
    pub average: Average,
}

/// The answer to one request: the requested window length, and the best
/// window of that length, if the series holds one.
#[derive(Clone, Copy, Debug, PartialEq, Eq)]
pub struct BestAverageResult {
    pub distance: u64,
    pub best: Option<BestAverage>,
}

impl Average {
    /// `self` is no greater than `other`, both read as fractions with a
    /// positive `count`.
    pub open spec fn at_most(self, other: Average) -> bool {
        self.total * other.count <= other.total * self.count
    }
}

/// The average of the window of `distance` samples that starts at `start`.
pub open spec fn window_average(series: Seq<i64>, start: int, distance: u64) -> Average {
    Average { total: window_sum(series, start, distance as int) as i128, count: distance }
}

/// The number of windows of `distance` samples that lie inside the series.
pub open spec fn window_count(series: Seq<i64>, distance: int) -> int {
    if 0 < distance <= series.len() {
        series.len() - distance + 1
    } else {
        0
    }
}

/// Among the windows of `distance` samples that start at the indices below
/// `candidates`, the one at `start` has the greatest sum, and every one
/// before it has a smaller sum.
pub open spec fn is_first_maximum(
    series: Seq<i64>,
    distance: int,
    candidates: int,
    start: int,
) -> bool {
    &&& 0 <= start < candidates
    &&& forall|j: int|
        0 <= j < candidates ==> window_sum(series, j, distance) <= window_sum(
            series,
            start,
            distance,
        )
    &&& forall|j: int|
        0 <= j < start ==> window_sum(series, j, distance) < window_sum(series, start, distance)
}

/// `start` is where the best window of `distance` samples starts: no window
/// of that length inside the series has a greater sum, and none that starts
/// earlier has an equal one.
pub open spec fn is_best_start(series: Seq<i64>, distance: int, start: int) -> bool {
    is_first_maximum(series, distance, window_count(series, distance), start)
}

/// `best` is the answer to a request for `distance` on `series`: absent when
/// the distance is zero or longer than the series, else the first window of
/// greatest sum with its exact average.
pub open spec fn is_best_for(series: Seq<i64>, distance: u64, best: Option<BestAverage>) -> bool {
    match best {
        Some(b) => {
            &&& 0 < distance <= series.len()
            &&& is_best_start(series, distance as int, b.start_index as int)
            &&& b.average == window_average(series, b.start_index as int, distance)
        },
        None => distance == 0 || distance > series.len(),
    }
}

/// Ties are broken one way only: two indices that are both the first maximum
/// among the same candidates are the same index.
pub proof fn lemma_first_maximum_unique(
    series: Seq<i64>,
    distance: int,
    candidates: int,
    a: int,
    b: int,
)
    requires
        is_first_maximum(series, distance, candidates, a),
        is_first_maximum(series, distance, candidates, b),
    ensures
        a == b,
{
    if a < b {
        assert(window_sum(series, a, distance) < window_sum(series, b, distance));
        assert(window_sum(series, b, distance) <= window_sum(series, a, distance));
    } else if b < a {
        assert(window_sum(series, b, distance) < window_sum(series, a, distance));
        assert(window_sum(series, a, distance) <= window_sum(series, b, distance));
    }
}

/// A request has one answer: two values that both answer the same request on
/// the same series are equal.
pub proof fn lemma_best_unique(
    series: Seq<i64>,
    distance: u64,
    first: Option<BestAverage>,
    second: Option<BestAverage>,
)
    requires
        is_best_for(series, distance, first),
        is_best_for(series, distance, second),
    ensures
        first == second,
{
    if let Some(a) = first {
        if let Some(b) = second {
            lemma_first_maximum_unique(
                series,
                distance as int,
                window_count(series, distance as int),
                a.start_index as int,
                b.start_index as int,
            );
        }
    }
}

/// The reported window lies inside the series, and its average is over as
/// many samples as were requested.
pub proof fn lemma_best_lies_inside(series: Seq<i64>, distance: u64, best: BestAverage)
    requires
        is_best_for(series, distance, Some(best)),
    ensures
        best.start_index + distance <= series.len(),
        best.average.count == distance,
        best.average.total == window_sum(series, best.start_index as int, distance as int),
{
    lemma_window_sum_bounds(series, best.start_index as int, distance as int);
}

/// The reported average is the greatest average of any window of the
/// requested length: it is the average of the window at the reported start,
/// and the average of no window of that length inside the series exceeds it.
pub proof fn lemma_best_average_is_greatest(
    series: Seq<i64>,
    distance: u64,
    best: BestAverage,
    start: int,
)
    requires
        is_best_for(series, distance, Some(best)),
        0 <= start,
        start + distance <= series.len(),
    ensures
        best.average == window_average(series, best.start_index as int, distance),
        window_sum(series, start, distance as int) <= best.average.total,
        window_average(series, start, distance).at_most(best.average),
{
    let d = distance as int;
    lemma_window_sum_bounds(series, start, d);
    lemma_window_sum_bounds(series, best.start_index as int, d);
    let here = window_sum(series, start, d);
    let top = window_sum(series, best.start_index as int, d);
    assert(here <= top);
    assert(d * i64::MIN <= here <= d * i64::MAX);
    assert(d * i64::MIN <= top <= d * i64::MAX);
    assert(here * d <= top * d) by (nonlinear_arith)
        requires
            here <= top,
            d > 0,
    ;
}

} // verus!
