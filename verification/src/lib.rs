//! Best average over sliding windows of an integer series.
//!
//! For a series of samples and a set of window lengths ("distances"), the
//! library finds, for each distance, the contiguous window of that length with
//! the greatest sum, and reports where it starts and its exact average.

pub mod best;
pub mod distances;
pub mod rescan;
pub mod solver;
pub mod tracker;
pub mod window;

pub use best::{Average, BestAverage, BestAverageResult};
pub use rescan::best_averages_by_rescan;
pub use solver::best_averages_for_distances;
