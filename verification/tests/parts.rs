use best_averages::distances::{answer_order, nonzero_distances, sort_ascending};
use best_averages::rescan::{best_window_by_rescan, window_total};
use best_averages::tracker::WindowTracker;
use best_averages::{Average, BestAverage, BestAverageResult};

#[test]
fn nonzero_distances_keeps_order() {
    assert_eq!(nonzero_distances(&vec![3, 0, 1, 0, 0, 3, 2]), vec![3, 1, 3, 2]);
    assert_eq!(nonzero_distances(&vec![0, 0]), vec![]);
    assert_eq!(nonzero_distances(&vec![]), vec![]);
}

#[test]
fn sort_ascending_sorts() {
    assert_eq!(sort_ascending(vec![]), vec![]);
    assert_eq!(sort_ascending(vec![9]), vec![9]);
    assert_eq!(sort_ascending(vec![2, 1]), vec![1, 2]);
    assert_eq!(sort_ascending(vec![5, 3, 5, 1, u64::MAX, 0, 3]), vec![0, 1, 3, 3, 5, 5, u64::MAX]);
    let descending: Vec<u64> = (0..1000).rev().collect();
    let ascending: Vec<u64> = (0..1000).collect();
    assert_eq!(sort_ascending(descending), ascending);
}

#[test]
fn answer_order_drops_zero_and_sorts() {
    assert_eq!(answer_order(&vec![4, 0, 2, 4, 0, 1]), vec![1, 2, 4, 4]);
}

#[test]
fn window_total_adds_the_window() {
    let series = vec![1, -2, 3, -4, 5];
    assert_eq!(window_total(&series, 0, 5), 3);
    assert_eq!(window_total(&series, 1, 3), -3);
    assert_eq!(window_total(&series, 4, 1), 5);
    assert_eq!(window_total(&series, 5, 0), 0);
    assert_eq!(window_total(&vec![i64::MIN, i64::MIN], 0, 2), 2 * (i64::MIN as i128));
}

#[test]
fn best_window_by_rescan_finds_first_maximum() {
    let series = vec![2, 9, 1, 9, 2];
    assert_eq!(
        best_window_by_rescan(&series, 1),
        Some(BestAverage { start_index: 1, average: Average { total: 9, count: 1 } })
    );
    assert_eq!(
        best_window_by_rescan(&series, 2),
        Some(BestAverage { start_index: 0, average: Average { total: 11, count: 2 } })
    );
    assert_eq!(
        best_window_by_rescan(&series, 5),
        Some(BestAverage { start_index: 0, average: Average { total: 23, count: 5 } })
    );
    assert_eq!(best_window_by_rescan(&series, 6), None);
    assert_eq!(best_window_by_rescan(&series, 0), None);
    assert_eq!(best_window_by_rescan(&vec![], 1), None);
}

#[test]
fn tracker_starts_empty() {
    let tracker = WindowTracker::new(3);
    assert_eq!(
        tracker,
        WindowTracker { distance: 3, running_sum: 0, max_sum: 0, start_index: None }
    );
    assert_eq!(tracker.finish(), BestAverageResult { distance: 3, best: None });
}

#[test]
fn tracker_follows_the_window() {
    let series = vec![4, -1, 6, 6, -3, 2];
    let mut tracker = WindowTracker::new(2);
    let mut seen = Vec::new();
    for index in 0..series.len() {
        tracker = tracker.advance(&series, index);
        seen.push((tracker.running_sum, tracker.max_sum, tracker.start_index));
    }
    assert_eq!(
        seen,
        vec![
            (4, 0, None),
            (3, 3, Some(0)),
            (5, 5, Some(1)),
            (12, 12, Some(2)),
            (3, 12, Some(2)),
            (-1, 12, Some(2)),
        ]
    );
    assert_eq!(
        tracker.finish(),
        BestAverageResult {
            distance: 2,
            best: Some(BestAverage { start_index: 2, average: Average { total: 12, count: 2 } }),
        }
    );
}

#[test]
fn tracker_records_a_negative_first_window() {
    let series = vec![-7, -8];
    let tracker = WindowTracker::new(1).advance(&series, 0).advance(&series, 1);
    assert_eq!(tracker.start_index, Some(0));
    assert_eq!(tracker.max_sum, -7);
    assert_eq!(tracker.running_sum, -8);
}

#[test]
fn tracker_longer_than_series_never_completes() {
    let series = vec![1, 2, 3];
    let mut tracker = WindowTracker::new(4);
    for index in 0..series.len() {
        tracker = tracker.advance(&series, index);
    }
    assert_eq!(tracker.running_sum, 6);
    assert_eq!(tracker.finish(), BestAverageResult { distance: 4, best: None });
}
