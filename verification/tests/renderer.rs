use world_smith::renderer::{DirtyRect, DirtyRectTracker};

#[test]
fn test_dirty_rect_merge() {
    let mut tracker = DirtyRectTracker::new();
    tracker.mark_dirty(10, 10, 20, 20);
    tracker.mark_dirty(50, 50, 10, 10);

    let rect = tracker.take_dirty().unwrap();
    assert_eq!(rect.x, 10);
    assert_eq!(rect.y, 10);
    assert_eq!(rect.width, 50);
    assert_eq!(rect.height, 50);

    assert!(!tracker.is_dirty());
}

#[test]
fn merged_region_covers_both_rectangles() {
    let mut tracker = DirtyRectTracker::new();
    assert!(!tracker.is_dirty());
    tracker.mark_dirty(30, 5, 10, 40);
    tracker.mark_dirty(0, 20, 5, 5);
    assert!(tracker.is_dirty());
    assert_eq!(tracker.take_dirty(), Some(DirtyRect { x: 0, y: 5, width: 40, height: 40 }));
    assert_eq!(tracker.take_dirty(), None);
}

#[test]
fn mark_all_dirty_replaces_the_region() {
    let mut tracker = DirtyRectTracker::new();
    tracker.mark_dirty(3, 3, 1, 1);
    tracker.mark_all_dirty(640, 480);
    assert_eq!(tracker.take_dirty(), Some(DirtyRect { x: 0, y: 0, width: 640, height: 480 }));
}

#[test]
fn marks_in_any_order_give_the_same_region() {
    let marks = [(10u32, 10u32, 20u32, 20u32), (50, 50, 10, 10), (5, 40, 3, 1)];
    let mut forward = DirtyRectTracker::new();
    for &(x, y, w, h) in marks.iter() {
        forward.mark_dirty(x, y, w, h);
    }
    let mut backward = DirtyRectTracker::new();
    for &(x, y, w, h) in marks.iter().rev() {
        backward.mark_dirty(x, y, w, h);
    }
    let expected = Some(DirtyRect { x: 5, y: 10, width: 55, height: 50 });
    assert_eq!(forward.take_dirty(), expected);
    assert_eq!(backward.take_dirty(), expected);
    assert!(!forward.is_dirty());
    forward.mark_dirty(1, 1, 0, 0);
    assert!(forward.is_dirty());
}

#[test]
fn dirty_only_after_a_mark_since_the_last_take() {
    let mut tracker = DirtyRectTracker::new();
    tracker.mark_all_dirty(8, 8);
    assert!(tracker.is_dirty());
    assert!(tracker.take_dirty().is_some());
    assert!(!tracker.is_dirty());
    tracker.mark_dirty(4, 4, 1, 1);
    tracker.mark_dirty(2, 6, 1, 1);
    assert_eq!(tracker.is_dirty(), true);
    assert_eq!(tracker.take_dirty(), Some(DirtyRect { x: 2, y: 4, width: 3, height: 3 }));
    assert!(!tracker.is_dirty());
}
