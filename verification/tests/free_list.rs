//! The free-range bookkeeping: neighbour merging on release and
//! smallest-fit splitting on allocation.

use rrprof::arena::FreeList;

#[test]
fn test_free_list_merge() {
    let mut fl = FreeList::new();

    // [10..20]
    fl.dealloc(10, 20);
    assert_eq!(fl.lookup(10), Some(20));

    // [0..5, 10..20]
    fl.dealloc(0, 5);
    assert_eq!(fl.segment_count(), 2);

    // [0..5, 10..20, 25..30]
    fl.dealloc(25, 30);
    assert_eq!(fl.segment_count(), 3);

    // Merge next: [0..10, 10..20, 25..30] -> [0..20, 25..30]
    fl.dealloc(5, 10);
    assert_eq!(fl.segment_count(), 2);
    assert_eq!(fl.lookup(0), Some(20));

    // Merge both: [0..20, 20..25, 25..30] -> [0..30]
    fl.dealloc(20, 25);
    assert_eq!(fl.segment_count(), 1);
    assert_eq!(fl.lookup(0), Some(30));
}

#[test]
fn test_free_list_alloc_split() {
    let mut fl = FreeList::new();
    fl.dealloc(0, 10);
    fl.dealloc(20, 30);
    fl.dealloc(40, 50);

    // Alloc 5. Should pick 0..10
    let r1 = fl.allocate(5).unwrap();
    assert_eq!(r1, (0, 5));
    // remains 5..10, 20..30, 40..50
    assert_eq!(fl.lookup(5), Some(10));

    // Alloc 10. Should pick 20..30
    let r2 = fl.allocate(10).unwrap();
    assert_eq!(r2, (20, 30));
    // remains 5..10, 40..50
    assert_eq!(fl.segment_count(), 2);
}

#[test]
fn alloc_from_empty_list_is_none() {
    let mut fl = FreeList::new();
    assert_eq!(fl.allocate(1), None);
    fl.dealloc(0, 4);
    assert_eq!(fl.allocate(5), None);
    assert_eq!(fl.allocate(4), Some((0, 4)));
    assert_eq!(fl.segment_count(), 0);
}
