use lox::gc::{Gc, Heap};

fn double_plus_hundred(bytes: usize) -> usize {
    ((bytes as f32 * 2.0) as usize) + 100
}

#[test]
fn collection_keeps_what_roots_reach() {
    let mut heap: Heap<Vec<Gc>> = Heap::new();
    let leaf = heap.manage(vec![]);
    let parent = heap.manage(vec![leaf]);
    let garbage = heap.manage(vec![]);
    let cycle_a = heap.manage(vec![]);
    let cycle_b = heap.manage(vec![cycle_a]);
    let unit = std::mem::size_of::<Vec<Gc>>();
    assert_eq!(heap.bytes_allocated(), 5 * unit);

    let root = vec![parent];
    heap.force_collect(&[root], double_plus_hundred);

    assert!(heap.contains(parent));
    assert!(heap.contains(leaf));
    assert!(!heap.contains(garbage));
    assert!(!heap.contains(cycle_a));
    assert!(!heap.contains(cycle_b));
    assert_eq!(heap.get(parent), &vec![leaf]);
    assert_eq!(heap.bytes_allocated(), 2 * unit);
    assert!(!heap.should_collect());
}

#[test]
fn collect_waits_for_the_threshold() {
    let mut heap: Heap<Vec<Gc>> = Heap::new();
    let lonely = heap.manage(vec![]);
    let roots: [Vec<Gc>; 0] = [];
    heap.collect(&roots, double_plus_hundred);
    assert!(heap.contains(lonely));
    heap.force_collect(&roots, double_plus_hundred);
    assert!(!heap.contains(lonely));
    assert_eq!(heap.bytes_allocated(), 0);
}

#[test]
fn references_compare_by_identity() {
    let mut heap: Heap<Vec<Gc>> = Heap::new();
    let a = heap.manage(vec![]);
    let b = heap.manage(vec![]);
    assert!(Gc::ptr_eq(&a, &a));
    assert!(!Gc::ptr_eq(&a, &b));
    assert_ne!(a.to_bits(), b.to_bits());
    heap.adjust_size(a);
    assert_eq!(heap.bytes_allocated(), 2 * std::mem::size_of::<Vec<Gc>>());
}

#[test]
fn bits_are_nonzero_and_round_trip() {
    let mut heap: Heap<Vec<Gc>> = Heap::new();
    let a = heap.manage(vec![]);
    assert_ne!(a.to_bits(), 0);
    assert!(Gc::ptr_eq(&Gc::from_bits(a.to_bits()), &a));
    assert_eq!(a.erase().to_bits(), a.to_bits());
}
