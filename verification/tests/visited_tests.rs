use vector_rs::visited::VisitedTracker;

#[test]
fn test_visited_basic() {
    let mut tracker = VisitedTracker::new(10);
    assert!(!tracker.is_visited(0));
    assert!(!tracker.is_visited(5));

    tracker.mark_visited(5);
    assert!(tracker.is_visited(5));
    assert!(!tracker.is_visited(0));
    assert!(!tracker.is_visited(4));
}

#[test]
fn test_visited_advance_epoch() {
    let mut tracker = VisitedTracker::new(10);
    tracker.mark_visited(3);
    tracker.mark_visited(7);
    assert!(tracker.is_visited(3));
    assert!(tracker.is_visited(7));

    tracker.advance_epoch(10);
    assert!(!tracker.is_visited(3));
    assert!(!tracker.is_visited(7));

    tracker.mark_visited(3);
    assert!(tracker.is_visited(3));
    assert!(!tracker.is_visited(7));
}

#[test]
fn test_visited_auto_grow() {
    let mut tracker = VisitedTracker::new(5);
    assert!(!tracker.is_visited(100));

    tracker.mark_visited(100);
    assert!(tracker.is_visited(100));
    assert!(!tracker.is_visited(99));
}

#[test]
fn test_visited_default() {
    let mut tracker = VisitedTracker::default();
    assert!(!tracker.is_visited(0));
    tracker.mark_visited(0);
    assert!(tracker.is_visited(0));
}

#[test]
fn test_visited_epoch_wrapping() {
    let mut tracker = VisitedTracker::new(10);
    tracker.fast_forward_epoch(u32::MAX);
    tracker.mark_visited(2);
    assert!(tracker.is_visited(2));

    tracker.advance_epoch(10);
    assert_eq!(tracker.current_epoch(), 1);
    assert!(!tracker.is_visited(2));

    tracker.mark_visited(2);
    assert!(tracker.is_visited(2));
}

#[test]
fn test_visited_multiple_nodes() {
    let mut tracker = VisitedTracker::new(100);
    for id in (0..100).step_by(2) {
        tracker.mark_visited(id);
    }

    for id in 0..100 {
        if id % 2 == 0 {
            assert!(tracker.is_visited(id));
        } else {
            assert!(!tracker.is_visited(id));
        }
    }
}

#[test]
fn test_visited_out_of_bounds_query_returns_false() {
    let tracker = VisitedTracker::new(10);
    assert!(!tracker.is_visited(10_000));
}

#[test]
fn visited_epoch_advance_keeps_marks_of_new_epoch_only() {
    let mut tracker = VisitedTracker::new(4);
    tracker.mark_visited(1);
    tracker.advance_epoch(4);
    tracker.mark_visited(2);
    assert!(!tracker.is_visited(1));
    assert!(tracker.is_visited(2));
    assert_eq!(tracker.current_epoch(), 2);
}

#[test]
fn visits_are_the_marks_since_the_last_advance() {
    let mut t = VisitedTracker::new(8);
    t.mark_visited(1);
    t.mark_visited(3);
    t.advance_epoch(8);
    t.mark_visited(5);
    t.mark_visited(3);
    for id in 0..8 {
        assert_eq!(t.is_visited(id), id == 5 || id == 3);
    }
    t.fast_forward_epoch(u32::MAX);
    t.mark_visited(7);
    t.advance_epoch(8);
    t.mark_visited(2);
    for id in 0..8 {
        assert_eq!(t.is_visited(id), id == 2);
    }
}
