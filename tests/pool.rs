use id_pool::Pool;

#[test]
fn pool_starts_with_all_slots_free() {
    let mut pool = Pool::new(3, 2);
    assert_eq!(pool.allocated(), 3);
    assert_eq!(pool.chunk_size(), 2);
    assert_eq!(pool.take(), Some(2));
    assert_eq!(pool.take(), Some(1));
    assert_eq!(pool.take(), Some(0));
    assert_eq!(pool.take(), Some(4));
    assert_eq!(pool.allocated(), 5);
    assert_eq!(pool.take(), Some(3));
    assert_eq!(pool.take(), Some(6));
}

#[test]
fn pool_gives_back_only_held_slots() {
    let mut pool = Pool::new(2, 1);
    assert!(!pool.give_back(0));
    assert!(!pool.give_back(7));
    assert_eq!(pool.take(), Some(1));
    assert!(pool.give_back(1));
    assert!(!pool.give_back(1));
    assert_eq!(pool.take(), Some(1));
    assert_eq!(pool.take(), Some(0));
    assert_eq!(pool.take(), Some(2));
}

#[test]
fn pool_reuse_is_last_in_first_out() {
    let mut pool = Pool::new(4, 4);
    for _ in 0..4 {
        pool.take();
    }
    assert!(pool.give_back(0));
    assert!(pool.give_back(3));
    assert!(pool.give_back(2));
    assert_eq!(pool.take(), Some(2));
    assert_eq!(pool.take(), Some(3));
    assert_eq!(pool.take(), Some(0));
    assert_eq!(pool.allocated(), 4);
}
