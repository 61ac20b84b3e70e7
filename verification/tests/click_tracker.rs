use std::time::{Duration, Instant};
use termide_logic::click_tracker::{ClickTracker, IndexClickTracker, PositionClickTracker};

#[test]
fn test_new_tracker_no_double_click() {
    let tracker: IndexClickTracker = ClickTracker::new();
    assert!(!tracker.is_double_click(&0));
}

#[test]
fn test_click_sequence() {
    let mut tracker: IndexClickTracker = ClickTracker::new();

    // First click - record it
    tracker.record(5);

    // Checking same position immediately after recording = double-click pattern
    assert!(tracker.is_double_click(&5));

    // After reset, no double-click
    tracker.reset();
    assert!(!tracker.is_double_click(&5));
}

#[test]
fn test_no_double_click_different_position() {
    let mut tracker: IndexClickTracker = ClickTracker::new();
    tracker.record(5);
    // Different position should not be a double-click
    assert!(!tracker.is_double_click(&10));
}

#[test]
fn test_reset() {
    let mut tracker: IndexClickTracker = ClickTracker::new();
    tracker.record(5);
    tracker.reset();
    assert!(!tracker.is_double_click(&5));
    assert!(tracker.last_position().is_none());
}

#[test]
fn test_position_tracker() {
    let mut tracker: PositionClickTracker = ClickTracker::new();
    tracker.record((10, 5));
    assert!(tracker.is_double_click(&(10, 5)));
    assert!(!tracker.is_double_click(&(10, 6)));
    assert!(!tracker.is_double_click(&(11, 5)));
}

#[test]
fn timed_clicks() {
    let mut tracker: IndexClickTracker = ClickTracker::new();
    let t0 = Instant::now();
    tracker.record_at(t0, 3);
    assert_eq!(tracker.last_time(), Some(t0));
    assert_eq!(tracker.last_position(), Some(&3));
    assert!(tracker.is_double_click_at(t0 + Duration::from_millis(499), &3));
    assert!(!tracker.is_double_click_at(t0 + Duration::from_millis(500), &3));
    assert!(tracker.is_double_click_within(0, &3));
    assert!(!tracker.is_double_click_within(500, &3));
    assert!(!tracker.is_double_click_within(10, &4));
    assert!(!tracker.skip_next_up);
}

#[test]
fn skip_next_up_flag() {
    let mut t: ClickTracker<usize> = ClickTracker::new();
    assert!(!t.skip_next_up());
    t.record(3);
    t.set_skip_next_up(true);
    assert!(t.skip_next_up());
    assert!(t.skip_next_up);
    assert_eq!(t.last_position(), Some(&3));
    t.reset();
    assert!(t.skip_next_up());
    t.set_skip_next_up(false);
    assert!(!t.skip_next_up);
}
