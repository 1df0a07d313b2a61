use bustubx::buffer::LRUKReplacer;
use bustubx::BustubxError;

#[test]
fn replacer_starts_empty() {
    let mut replacer = LRUKReplacer::new(3, 2);
    assert_eq!(replacer.size(), 0);
    assert_eq!(replacer.evict(), None);
}

#[test]
fn replacer_counts_evictable_frames() {
    let mut replacer = LRUKReplacer::new(3, 2);
    replacer.record_access(0).unwrap();
    replacer.record_access(1).unwrap();
    assert_eq!(replacer.size(), 0);
    replacer.set_evictable(0, true).unwrap();
    replacer.set_evictable(1, true).unwrap();
    assert_eq!(replacer.size(), 2);
    replacer.set_evictable(1, false).unwrap();
    assert_eq!(replacer.size(), 1);
    replacer.remove(0);
    assert_eq!(replacer.size(), 0);
}

#[test]
fn replacer_leaves_untracked_frame_alone() {
    let mut replacer = LRUKReplacer::new(3, 2);
    replacer.set_evictable(2, true).unwrap();
    assert_eq!(replacer.size(), 0);
    assert_eq!(replacer.evict(), None);
}

#[test]
fn replacer_rejects_frame_out_of_range() {
    let mut replacer = LRUKReplacer::new(3, 2);
    assert_eq!(replacer.record_access(3), Err(BustubxError::InvalidFrame));
    assert_eq!(replacer.set_evictable(3, true), Err(BustubxError::InvalidFrame));
    assert_eq!(replacer.size(), 0);
}

#[test]
fn replacer_evicts_frames_with_few_accesses_first() {
    let mut replacer = LRUKReplacer::new(3, 2);
    // frame 0 at times 0 and 1, frame 1 at time 2, frame 2 at time 3
    replacer.record_access(0).unwrap();
    replacer.record_access(0).unwrap();
    replacer.record_access(1).unwrap();
    replacer.record_access(2).unwrap();
    for frame in 0..3 {
        replacer.set_evictable(frame, true).unwrap();
    }
    // frames 1 and 2 have fewer than two accesses: the older first access goes first
    assert_eq!(replacer.evict(), Some(1));
    assert_eq!(replacer.evict(), Some(2));
    assert_eq!(replacer.evict(), Some(0));
    assert_eq!(replacer.evict(), None);
}

#[test]
fn replacer_evicts_largest_backward_distance() {
    let mut replacer = LRUKReplacer::new(3, 2);
    // accesses: 0, 1, 2, 0, 1, 2, 0 at times 0..7
    for frame in [0usize, 1, 2, 0, 1, 2, 0] {
        replacer.record_access(frame).unwrap();
    }
    for frame in 0..3 {
        replacer.set_evictable(frame, true).unwrap();
    }
    // second most recent access: frame 0 at 3, frame 1 at 1, frame 2 at 2
    assert_eq!(replacer.evict(), Some(1));
    assert_eq!(replacer.evict(), Some(2));
    assert_eq!(replacer.evict(), Some(0));
}

#[test]
fn replacer_skips_frames_that_are_not_evictable() {
    let mut replacer = LRUKReplacer::new(3, 2);
    replacer.record_access(0).unwrap();
    replacer.record_access(1).unwrap();
    replacer.set_evictable(1, true).unwrap();
    assert_eq!(replacer.evict(), Some(1));
    assert_eq!(replacer.evict(), None);
    assert_eq!(replacer.size(), 0);
}
