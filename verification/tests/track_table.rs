use sonar_vision::tracks::{vec_contains, Batch, TrackTable};

#[test]
fn tracks_created_with_fresh_ids() {
    let mut table: TrackTable<&str> = TrackTable::new();
    assert_eq!(table.next_id(), 1);
    assert_eq!(table.create("a"), 1);
    assert_eq!(table.create("b"), 2);
    assert_eq!(table.len(), 2);
    assert_eq!(table.next_id(), 3);
    let e = table.get(2).unwrap();
    assert_eq!((e.id, e.detections, e.state), (2, 1, "b"));
    assert!(table.get(3).is_none());
    assert_eq!(table.position(1), Some(0));
}

#[test]
fn tracks_record_counts_detections() {
    let mut table: TrackTable<i32> = TrackTable::new();
    let id = table.create(5);
    assert!(table.record(id, 6));
    assert!(!table.record(99, 7));
    let e = table.get(id).unwrap();
    assert_eq!((e.detections, e.state), (2, 6));
    assert_eq!(table.len(), 1);
}

#[test]
fn tracks_single_detection_creates_one_track() {
    let mut table: TrackTable<(f64, f64)> = TrackTable::new();
    let mut batch = Batch::new();
    let id = table.assign(&mut batch, None, (1.0, 2.0));
    assert_eq!(id, 1);
    assert_eq!(batch.into_assigned(), vec![1]);
    assert_eq!(table.len(), 1);
}

#[test]
fn tracks_updated_at_most_once_per_batch() {
    let mut table: TrackTable<u8> = TrackTable::new();
    let mut batch = Batch::new();
    assert_eq!(table.assign(&mut batch, None, 0), 1);
    assert_eq!(table.assign(&mut batch, Some(1), 1), 1);
    assert_eq!(batch.used(), &vec![1]);
    // Track 1 was already updated in this batch: a second choice of it creates a track.
    assert_eq!(table.assign(&mut batch, Some(1), 2), 2);
    // A choice that names no track creates one too.
    assert_eq!(table.assign(&mut batch, Some(77), 3), 3);
    assert_eq!(batch.into_assigned(), vec![1, 1, 2, 3]);
    assert_eq!(table.get(1).unwrap().detections, 2);
    assert_eq!(table.get(1).unwrap().state, 1);

    let mut next = Batch::new();
    assert_eq!(table.unused_ids(next.used()), vec![1, 2, 3]);
    assert_eq!(table.assign(&mut next, Some(2), 9), 2);
    assert_eq!(table.unused_ids(next.used()), vec![1, 3]);
}

#[test]
fn tracks_prune_removes_listed_ids() {
    let mut table: TrackTable<()> = TrackTable::new();
    for _ in 0..4 {
        table.create(());
    }
    assert_eq!(table.remove_ids(&vec![2, 4, 9, 2]), 2);
    assert_eq!(table.len(), 2);
    assert_eq!(table.entry(0).id, 1);
    assert_eq!(table.entry(1).id, 3);
    assert_eq!(table.remove_ids(&vec![1, 3]), 2);
    assert_eq!(table.len(), 0);
    assert_eq!(table.create(()), 5);
}

#[test]
fn tracks_vec_contains() {
    assert!(vec_contains(&vec![3, 4], 4));
    assert!(!vec_contains(&vec![3, 4], 5));
    assert!(!vec_contains(&vec![], 0));
}
