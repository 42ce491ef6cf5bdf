use math_strat::progress::{progress_bar, progress_counts, ProgressTracker};
use std::sync::atomic::Ordering;

#[test]
fn progress_tracker_starts_empty() {
    let tracker = ProgressTracker::new(416_500);
    assert_eq!(tracker.total, 416_500);
    assert_eq!(tracker.completed.load(Ordering::Relaxed), 0);
    assert!(!tracker.finished.load(Ordering::Relaxed));
}

#[test]
fn progress_counts_clamp_to_total() {
    assert_eq!(progress_counts(2, 10), (2, 8));
    assert_eq!(progress_counts(15, 10), (10, 0));
    assert_eq!(progress_counts(0, 0), (0, 0));
}

#[test]
fn progress_bar_fills_cells() {
    assert_eq!(progress_bar(0), "          ");
    assert_eq!(progress_bar(3), "###       ");
    assert_eq!(progress_bar(10), "##########");
    assert_eq!(progress_bar(15), "##########");
}
