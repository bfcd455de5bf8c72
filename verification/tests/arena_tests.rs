use axon::arena::TensorArena;

#[test]
fn test_alloc_and_reset() {
    let mut arena = TensorArena::new(1024);
    let a = arena.allocate(512);
    assert!(a.is_some());
    assert_eq!(a.unwrap().len(), 512);
    arena.reset();
    assert_eq!(arena.cursor(), 0);
}

#[test]
fn test_overflow_returns_none() {
    let mut arena = TensorArena::new(10);
    let a = arena.allocate(20);
    assert!(a.is_none());
}

#[test]
fn test_sequential_alloc() {
    let mut arena = TensorArena::new(100);
    let a = arena.allocate(50);
    assert!(a.is_some());
    let b = arena.allocate(50);
    assert!(b.is_some());
    let c = arena.allocate(1);
    assert!(c.is_none());
}

#[test]
fn zero_capacity_becomes_one_byte() {
    let mut arena = TensorArena::new(0);
    assert_eq!(arena.capacity(), 1);
    assert!(arena.allocate(1).is_some());
    assert!(arena.allocate(1).is_none());
}

#[test]
fn allocations_are_zeroed_and_advance_the_cursor() {
    let mut arena = TensorArena::new(64);
    let s = arena.allocate(16).unwrap();
    assert!(s.iter().all(|b| *b == 0));
    assert_eq!(arena.cursor(), 16);
    assert!(arena.allocate(0).is_some());
    assert_eq!(arena.cursor(), 16);
}

#[test]
fn failed_allocation_leaves_cursor() {
    let mut arena = TensorArena::new(8);
    assert!(arena.allocate(5).is_some());
    assert!(arena.allocate(4).is_none());
    assert_eq!(arena.cursor(), 5);
    assert!(arena.allocate(3).is_some());
    assert_eq!(arena.cursor(), 8);
}

#[test]
fn reset_makes_the_whole_slab_available() {
    let mut arena = TensorArena::new(8);
    assert!(arena.allocate(8).is_some());
    assert!(arena.allocate(1).is_none());
    arena.reset();
    assert!(arena.allocate(8).is_some());
}
