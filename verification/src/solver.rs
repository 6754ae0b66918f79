//! The best window for each of several window lengths, found in one pass
//! over the series.

use vstd::prelude::*;
use vstd::relations::{sorted_by, total_ordering};
use vstd::seq_lib::lemma_sorted_unique;
use crate::best::{is_best_for, lemma_best_unique, BestAverageResult};
use crate::distances::{
    answer_order, is_answer_order, lemma_answer_order_len, lemma_answered_was_requested,
    lemma_requested_is_answered, retained,
};
use crate::tracker::WindowTracker;

verus! {

/// The window lengths that the results answer, in the results' order.
pub open spec fn answered(results: Seq<BestAverageResult>) -> Seq<u64> {
    results.map_values(|r: BestAverageResult| r.distance)
}

/// `results` answers the requests `distances` on `series`: one result for
/// each request of a positive length, in ascending order of length, each with
/// the best window of its length, or with none where the series is shorter
/// than the length.
pub open spec fn is_solution(
    series: Seq<i64>,
    distances: Seq<u64>,
    results: Seq<BestAverageResult>,
) -> bool {
    &&& is_answer_order(distances, answered(results))
    &&& forall|k: int|
        0 <= k < results.len() ==> is_best_for(
            series,
            (#[trigger] results[k]).distance,
            results[k].best,
        )
}

/// One tracker for each length in `order`, each having consumed the whole
/// series. The series is read once: every sample is handed to every tracker
/// before the next sample is read.
fn scan(series: &Vec<i64>, order: &Vec<u64>) -> (trackers: Vec<WindowTracker>)
    requires
        forall|k: int| 0 <= k < order.len() ==> order[k] > 0,
    ensures
        trackers.len() == order.len(),
        forall|k: int|
            0 <= k < order.len() ==> (#[trigger] trackers[k]).distance == order[k]
                && trackers[k].tracks(series@, series.len() as int),
{
    let mut trackers: Vec<WindowTracker> = Vec::new();
    let mut k: usize = 0;
    while k < order.len()
        invariant
            k <= order.len(),
            trackers.len() == k,
            forall|m: int| 0 <= m < order.len() ==> order[m] > 0,
            forall|m: int|
                0 <= m < k ==> (#[trigger] trackers[m]).distance == order[m]
                    && trackers[m].tracks(series@, 0),
        decreases order.len() - k,
    {
        trackers.push(WindowTracker::new(order[k]));
        k += 1;
    }
    let mut index: usize = 0;
    while index < series.len()
        invariant
            index <= series.len(),
            trackers.len() == order.len(),
            forall|m: int|
                0 <= m < order.len() ==> (#[trigger] trackers[m]).distance == order[m]
                    && trackers[m].tracks(series@, index as int),
        decreases series.len() - index,
    {
        let mut k: usize = 0;
        while k < trackers.len()
            invariant
                index < series.len(),
                k <= trackers.len(),
                trackers.len() == order.len(),
                forall|m: int|
                    0 <= m < order.len() ==> (#[trigger] trackers[m]).distance == order[m],
                forall|m: int| 0 <= m < k ==> (#[trigger] trackers[m]).tracks(series@, index + 1),
                forall|m: int|
                    k <= m < order.len() ==> (#[trigger] trackers[m]).tracks(
                        series@,
                        index as int,
                    ),
            decreases trackers.len() - k,
        {
            let next = trackers[k].advance(series, index);
            trackers.set(k, next);
            k += 1;
        }
        index += 1;
    }
    trackers
}

/// For each requested window length, the window of that length with the
/// greatest sum: where it starts, and its average.
///
/// Requests of length zero are dropped. The results come in ascending order
/// of length; a length requested twice is answered twice. Where several
/// windows share the greatest sum, the first of them is reported. A length
/// greater than the series has no window, and its result holds none.
///
/// The series is scanned once, with one running sum per requested length.
pub fn best_averages_for_distances(data_points: Vec<i64>, distances: Vec<u64>) -> (results: Vec<
    BestAverageResult,
>)
    ensures
        is_solution(data_points@, distances@, results@),
        results.len() == retained(distances@).len(),
{
    let order = answer_order(&distances);
    proof {
        assert forall|k: int| 0 <= k < order.len() implies order[k] > 0 by {
            assert(order@.contains(order@[k]));
            lemma_answered_was_requested(distances@, order@, order@[k]);
        }
    }
    let trackers = scan(&data_points, &order);
    let mut results: Vec<BestAverageResult> = Vec::new();
    let mut k: usize = 0;
    while k < trackers.len()
        invariant
            k <= trackers.len(),
            trackers.len() == order.len(),
            results.len() == k,
            forall|m: int|
                0 <= m < order.len() ==> (#[trigger] trackers[m]).distance == order[m]
                    && trackers[m].tracks(data_points@, data_points.len() as int),
            forall|m: int|
                0 <= m < k ==> (#[trigger] results[m]).distance == order[m] && is_best_for(
                    data_points@,
                    order[m],
                    results[m].best,
                ),
        decreases trackers.len() - k,
    {
        let tracker = trackers[k];
        proof {
            tracker.lemma_finished(data_points@);
        }
        results.push(tracker.finish());
        k += 1;
    }
    proof {
        assert(answered(results@) =~= order@);
        lemma_answer_order_len(distances@, order@);
    }
    results
}

/// The outcome is a function of the inputs: any two sequences of results
/// that answer the same requests on the same series are equal. So two calls
/// with equal inputs return equal results, and so do two ways of computing
/// them.
pub proof fn lemma_solution_unique(
    series: Seq<i64>,
    distances: Seq<u64>,
    first: Seq<BestAverageResult>,
    second: Seq<BestAverageResult>,
)
    requires
        is_solution(series, distances, first),
        is_solution(series, distances, second),
    ensures
        first == second,
{
    let leq = |a: u64, b: u64| a <= b;
    let x = answered(first);
    let y = answered(second);
    assert(total_ordering(leq));
    assert(sorted_by(x, leq));
    assert(sorted_by(y, leq));
    lemma_sorted_unique(x, y, leq);
    assert(first.len() == second.len());
    assert forall|k: int| 0 <= k < first.len() implies first[k] == second[k] by {
        assert(first[k].distance == x[k]);
        assert(second[k].distance == y[k]);
        lemma_best_unique(series, first[k].distance, first[k].best, second[k].best);
    }
    assert(first =~= second);
}

/// Zero is never answered, nothing is answered that was not requested, and
/// every positive length that was requested is answered; a result is absent
/// exactly where the length exceeds the series.
pub proof fn lemma_solution_answers_requests(
    series: Seq<i64>,
    distances: Seq<u64>,
    results: Seq<BestAverageResult>,
)
    requires
        is_solution(series, distances, results),
    ensures
        forall|k: int|
            0 <= k < results.len() ==> (#[trigger] results[k]).distance > 0 && distances.contains(
                results[k].distance,
            ),
        forall|i: int|
            0 <= i < distances.len() && #[trigger] distances[i] > 0 ==> answered(results).contains(
                distances[i],
            ),
        forall|k: int|
            0 <= k < results.len() ==> ((#[trigger] results[k]).best is None
                <==> results[k].distance > series.len()),
{
    let order = answered(results);
    assert forall|k: int| 0 <= k < results.len() implies (#[trigger] results[k]).distance > 0
        && distances.contains(results[k].distance) by {
        assert(order[k] == results[k].distance);
        assert(order.contains(order[k]));
        lemma_answered_was_requested(distances, order, results[k].distance);
    }
    assert forall|i: int| 0 <= i < distances.len() && #[trigger] distances[i] > 0 implies order.contains(
        distances[i],
    ) by {
        assert(distances.contains(distances[i]));
        lemma_requested_is_answered(distances, order, distances[i]);
    }
}

/// The results are in ascending order of length, and there are as many of
/// them as there are requests of a positive length.
pub proof fn lemma_solution_is_ordered(
    series: Seq<i64>,
    distances: Seq<u64>,
    results: Seq<BestAverageResult>,
)
    requires
        is_solution(series, distances, results),
    ensures
        forall|i: int, j: int|
            0 <= i <= j < results.len() ==> (#[trigger] results[i]).distance <= (
            #[trigger] results[j]).distance,
        results.len() == retained(distances).len(),
        results.len() <= distances.len(),
{
    let order = answered(results);
    lemma_answer_order_len(distances, order);
    assert forall|i: int, j: int| 0 <= i <= j < results.len() implies (
    #[trigger] results[i]).distance <= (#[trigger] results[j]).distance by {
        assert(order[i] <= order[j]);
    }
}

/// On an empty series no request has a window: every result holds none.
pub proof fn lemma_empty_series_has_no_best(
    distances: Seq<u64>,
    results: Seq<BestAverageResult>,
)
    requires
        is_solution(Seq::<i64>::empty(), distances, results),
    ensures
        forall|k: int| 0 <= k < results.len() ==> (#[trigger] results[k]).best is None,
{
}

} // verus!
