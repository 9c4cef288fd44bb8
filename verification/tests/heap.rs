use lox::heap::Heap;

#[test]
fn heap_it_works() {
    let mut heap = Heap::new().unwrap();

    let size = std::mem::size_of::<u64>();
    let first = heap.allocate(size).unwrap();
    let ptr = heap.allocate(size).unwrap();
    assert_eq!(heap.is_marked(ptr), true);

    heap.start_gc();
    assert_eq!(heap.is_marked(ptr), false);

    heap.mark(ptr);
    heap.sweep();
    assert_eq!(heap.is_marked(ptr), true);
    assert_eq!(heap.is_marked(first), false);

    let again = heap.allocate(size).unwrap();
    assert!(first == again);
}
