use draw_order::cache::CachedDrawOrder;
use draw_order::cache::DrawEntry;

fn entry(depth: u64, id: u32) -> DrawEntry {
    DrawEntry { depth, id }
}

#[test]
fn painter_order_example() {
    // Membership {A: 1, B: 3} draws B (further back) first.
    let a = 1;
    let b = 2;
    let c = 3;
    let mut cache = CachedDrawOrder::new();
    cache.refresh(&vec![entry(1, a), entry(3, b)]);
    assert_eq!(*cache.entries(), vec![entry(3, b), entry(1, a)]);

    // C appears at depth 2 and lands between the two.
    cache.refresh(&vec![entry(1, a), entry(3, b), entry(2, c)]);
    assert_eq!(*cache.entries(), vec![entry(3, b), entry(2, c), entry(1, a)]);

    // B disappears; exactly its entry is removed.
    cache.refresh(&vec![entry(1, a), entry(2, c)]);
    assert_eq!(*cache.entries(), vec![entry(2, c), entry(1, a)]);
}

#[test]
fn refresh_is_idempotent() {
    let membership = vec![entry(7, 4), entry(7, 9), entry(1, 2), entry(40, 8)];
    let mut cache = CachedDrawOrder::new();
    cache.refresh(&membership);
    let first = cache.entries().clone();
    cache.refresh(&membership);
    assert_eq!(*cache.entries(), first);
    cache.refresh(&membership);
    assert_eq!(*cache.entries(), first);
}

#[test]
fn empty_membership_clears_the_cache() {
    let mut cache = CachedDrawOrder::new();
    cache.refresh(&vec![entry(5, 1), entry(6, 2)]);
    assert_eq!(cache.len(), 2);
    cache.refresh(&vec![]);
    assert_eq!(cache.len(), 0);
    assert!(cache.entries().is_empty());
}

#[test]
fn depth_changes_resort_the_cache() {
    let mut cache = CachedDrawOrder::new();
    cache.refresh(&vec![entry(10, 1), entry(20, 2)]);
    assert_eq!(*cache.entries(), vec![entry(20, 2), entry(10, 1)]);
    // Element 1 moves behind element 2.
    cache.refresh(&vec![entry(30, 1), entry(20, 2)]);
    assert_eq!(*cache.entries(), vec![entry(30, 1), entry(20, 2)]);
}

#[test]
fn equal_depths_keep_every_entry() {
    let mut cache = CachedDrawOrder::new();
    cache.refresh(&vec![entry(5, 1), entry(5, 2), entry(5, 3)]);
    assert_eq!(cache.len(), 3);
    let mut ids: Vec<u32> = cache.entries().iter().map(|e| e.id).collect();
    ids.sort();
    assert_eq!(ids, vec![1, 2, 3]);
    assert!(cache.entries().iter().all(|e| e.depth == 5));
}

#[test]
fn removal_removes_exactly_one_entry() {
    let mut cache = CachedDrawOrder::new();
    cache.refresh(&vec![entry(1, 1), entry(2, 2), entry(3, 3)]);
    assert_eq!(*cache.entries(), vec![entry(3, 3), entry(2, 2), entry(1, 1)]);
    cache.refresh(&vec![entry(1, 1), entry(3, 3)]);
    assert_eq!(*cache.entries(), vec![entry(3, 3), entry(1, 1)]);
}

#[test]
fn membership_set_is_tracked_exactly() {
    let mut cache = CachedDrawOrder::new();
    // Grow, shrink, replace: the identity set always matches the input.
    cache.refresh(&vec![entry(4, 10), entry(9, 20)]);
    cache.refresh(&vec![entry(4, 10), entry(9, 20), entry(6, 30), entry(2, 40)]);
    cache.refresh(&vec![entry(3, 50), entry(8, 20)]);
    let mut ids: Vec<u32> = cache.entries().iter().map(|e| e.id).collect();
    ids.sort();
    assert_eq!(ids, vec![20, 50]);
    assert_eq!(*cache.entries(), vec![entry(8, 20), entry(3, 50)]);
}
