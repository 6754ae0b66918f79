//! Sums of contiguous windows of a series, and what moving a window by one
//! sample does to its sum.

use vstd::prelude::*;

verus! {

/// The sum of the `len` samples of `series` that start at index `start`.
pub open spec fn window_sum(series: Seq<i64>, start: int, len: int) -> int
    decreases len,
{
    if len <= 0 {
        0
    } else {
        window_sum(series, start, len - 1) + series[start + len - 1]
    }
}

/// A window of `len` samples that starts at `start` lies inside the series.
pub open spec fn fits(series: Seq<i64>, start: int, len: int) -> bool {
    0 <= start && 0 <= len && start + len <= series.len()
}

/// The sum of a window of `len` samples is at most `len` times the largest
/// sample value and at least `len` times the smallest.
pub proof fn lemma_window_sum_bounds(series: Seq<i64>, start: int, len: int)
    requires
        fits(series, start, len),
    ensures
        len * i64::MIN <= window_sum(series, start, len) <= len * i64::MAX,
    decreases len,
{
    if len > 0 {
        lemma_window_sum_bounds(series, start, len - 1);
    }
}

/// Moving a window one sample to the right removes its first sample from the
/// sum and adds the sample that follows its last.
pub proof fn lemma_window_slide(series: Seq<i64>, start: int, len: int)
    requires
        0 <= len,
        fits(series, start, len + 1),
    ensures
        window_sum(series, start + 1, len) == window_sum(series, start, len) - series[start]
            + series[start + len],
    decreases len,
{
    if len > 0 {
        lemma_window_slide(series, start, len - 1);
    }
}

} // verus!
