use kvm_share::cursor::{CursorTracker, Direction};

#[test]
fn stays_within_bounds_returns_none() {
    let mut tracker = CursorTracker::new(1920, 1080);
    assert_eq!(tracker.accumulate(10, 10), None);
    assert_eq!(tracker.accumulate(-5, -5), None);
}

#[test]
fn crosses_right_edge() {
    let mut tracker = CursorTracker::new(1920, 1080);
    assert_eq!(tracker.accumulate(2000, 0), Some(Direction::Right));
}

#[test]
fn crosses_left_edge() {
    let mut tracker = CursorTracker::new(1920, 1080);
    assert_eq!(tracker.accumulate(-2000, 0), Some(Direction::Left));
}

#[test]
fn crosses_down_edge() {
    let mut tracker = CursorTracker::new(1920, 1080);
    assert_eq!(tracker.accumulate(0, 2000), Some(Direction::Down));
}

#[test]
fn crosses_up_edge() {
    let mut tracker = CursorTracker::new(1920, 1080);
    assert_eq!(tracker.accumulate(0, -2000), Some(Direction::Up));
}

#[test]
fn crossing_resets_only_the_crossed_dimension() {
    let mut tracker = CursorTracker::new(100, 100);
    // Right, with 40 down: x returns to 50, y is 90.
    assert_eq!(tracker.accumulate(60, 40), Some(Direction::Right));
    assert_eq!(tracker.accumulate(49, 0), None);
    assert_eq!(tracker.accumulate(0, 10), Some(Direction::Down));
    // y returned to 50.
    assert_eq!(tracker.accumulate(0, 49), None);
    assert_eq!(tracker.accumulate(0, 1), Some(Direction::Down));
}

#[test]
fn edges_are_exact() {
    let mut tracker = CursorTracker::new(10, 10);
    assert_eq!(tracker.accumulate(-5, 0), None);
    assert_eq!(tracker.accumulate(-1, 0), Some(Direction::Left));
    assert_eq!(tracker.accumulate(4, 0), None);
    assert_eq!(tracker.accumulate(1, 0), Some(Direction::Right));
}

#[test]
fn horizontal_crossing_counts_first() {
    let mut tracker = CursorTracker::new(10, 10);
    assert_eq!(tracker.accumulate(-100, -100), Some(Direction::Left));
    // The vertical position is still out of the screen.
    assert_eq!(tracker.accumulate(0, 0), Some(Direction::Up));
    assert_eq!(tracker.accumulate(0, 0), None);
}

#[test]
fn screen_without_width_always_crosses() {
    let mut tracker = CursorTracker::new(0, 10);
    assert!(!tracker.has_width());
    assert!(tracker.can_move(i32::MAX));
    assert_eq!(tracker.accumulate(0, 1), Some(Direction::Right));
    assert_eq!(tracker.accumulate(0, 0), Some(Direction::Right));
}
