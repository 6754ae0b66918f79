//! The same answers found the direct way: every window is added up from its
//! first sample to its last. This takes time in proportion to the window
//! length for each window, where the single scan takes a constant; it is the
//! plain reading of what a best window is, to hold the single scan against.

use vstd::prelude::*;
use crate::best::{is_best_for, is_first_maximum, Average, BestAverage, BestAverageResult};
use crate::distances::{answer_order, lemma_answer_order_len, retained};
use crate::solver::{answered, is_solution};
use crate::window::{lemma_window_sum_bounds, window_sum};

verus! {

/// The sum of the `len` samples that start at `start`, added up one by one.
pub fn window_total(series: &Vec<i64>, start: usize, len: usize) -> (total: i128)
    requires
        start + len <= series.len(),
    ensures
        total == window_sum(series@, start as int, len as int),
{
    let mut total: i128 = 0;
    let mut taken: usize = 0;
    while taken < len
        invariant
            taken <= len,
            start + len <= series.len(),
            total == window_sum(series@, start as int, taken as int),
        decreases len - taken,
    {
        proof {
            lemma_window_sum_bounds(series@, start as int, taken as int);
            lemma_window_sum_bounds(series@, start as int, taken + 1);
        }
        total = total + series[start + taken] as i128;
        taken += 1;
    }
    total
}

/// The best window of `distance` samples, found by adding up every window of
/// that length in turn and keeping the first of greatest sum.
pub fn best_window_by_rescan(series: &Vec<i64>, distance: u64) -> (best: Option<BestAverage>)
    ensures
        is_best_for(series@, distance, best),
{
    if distance == 0 || distance > series.len() as u64 {
        return None;
    }
    let len: usize = distance as usize;
    let last: usize = series.len() - len;
    let mut start_index: usize = 0;
    let mut max_sum: i128 = window_total(series, 0, len);
    let mut start: usize = 1;
    while start <= last
        invariant
            0 < len <= series.len(),
            last == series.len() - len,
            1 <= start <= last + 1,
            is_first_maximum(series@, len as int, start as int, start_index as int),
            max_sum == window_sum(series@, start_index as int, len as int),
        decreases last + 1 - start,
    {
        let sum: i128 = window_total(series, start, len);
        if sum > max_sum {
            max_sum = sum;
            start_index = start;
        }
        start += 1;
    }
    Some(
        BestAverage {
            start_index: start_index as u64,
            average: Average { total: max_sum, count: distance },
        },
    )
}

/// For each requested window length, the best window of that length, each
/// found by `best_window_by_rescan`. The results are those of
/// `best_averages_for_distances`.
pub fn best_averages_by_rescan(data_points: Vec<i64>, distances: Vec<u64>) -> (results: Vec<
    BestAverageResult,
>)
    ensures
        is_solution(data_points@, distances@, results@),
        results.len() == retained(distances@).len(),
{
    let order = answer_order(&distances);
    let mut results: Vec<BestAverageResult> = Vec::new();
    let mut k: usize = 0;
    while k < order.len()
        invariant
            k <= order.len(),
            results.len() == k,
            forall|m: int|
                0 <= m < k ==> (#[trigger] results[m]).distance == order[m] && is_best_for(
                    data_points@,
                    order[m],
                    results[m].best,
                ),
        decreases order.len() - k,
    {
        let distance: u64 = order[k];
        let best = best_window_by_rescan(&data_points, distance);
        results.push(BestAverageResult { distance, best });
        k += 1;
    }
    proof {
        assert(answered(results@) =~= order@);
        lemma_answer_order_len(distances@, order@);
    }
    results
}

} // verus!
