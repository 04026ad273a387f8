use lilypads::Pond;
use std::rc::Rc;

#[test]
fn basic_allocate_get() {
    let mut pool = Pond::new();
    assert_eq!(pool.insert(42), 0);
    assert_eq!(pool.insert(123), 1);
    assert_eq!(pool.get(0), Some(&42));
    assert_eq!(pool.get(1), Some(&123));
    assert_eq!(pool.get(2), None);
}

#[test]
fn reuse_of_lowest_free() {
    let mut pool = Pond::new();
    let a = pool.insert(1);
    let b = pool.insert(2);
    pool.free(a).unwrap();
    assert_eq!(pool.insert(3), a);
    assert_eq!(pool.get(b), Some(&2));
}

#[test]
fn defragment_with_interior_gaps() {
    let mut pool = Pond::new();
    for i in 0..5 {
        let _ = pool.insert(i);
    }
    pool.free(1).unwrap();
    pool.free(3).unwrap();

    let remap = pool.defrag();
    // One value moves: the one at the highest index into the lowest gap
    assert_eq!(remap.len(), 1);
    assert_eq!(remap.get(&4), Some(&1));
    assert_eq!(pool.next_index(), 3);

    // The surviving values all sit in the dense prefix
    let mut values: Vec<i32> = (0..3).map(|i| *pool.get(i).unwrap()).collect();
    values.sort();
    assert_eq!(values, vec![0, 2, 4]);
}

#[test]
fn write_past_capacity() {
    let mut pool = Pond::new();
    assert_eq!(pool.write(17, 1000), None);
    assert_eq!(pool.get(17), Some(&1000));
    assert!(pool.len() >= 18);
}

#[test]
fn resize_shrink_drops_exactly_once() {
    let mut pool = Pond::new();
    let resource = Rc::new(5);
    pool.write(6, resource.clone());
    assert_eq!(Rc::strong_count(&resource), 2);
    pool.resize(3);
    // The pool's copy was dropped exactly once by the shrink
    assert_eq!(Rc::strong_count(&resource), 1);
    pool.resize(8);
    assert!(!pool.is_occupied(6));
    assert_eq!(pool.get(6), None);
}

#[test]
fn bitmap_boundary_through_pool() {
    let mut pool = Pond::new();
    pool.resize(63);
    pool.write(62, 7);
    pool.resize(64);
    assert!(pool.is_occupied(62));
    assert!(!pool.is_occupied(63));
}

#[test]
fn insert_free_round_trip() {
    let mut pool = Pond::new();
    let _ = pool.insert(10);
    let _ = pool.insert(20);
    let _ = pool.insert(30);
    pool.free(1).unwrap();
    let before: Vec<Option<i32>> = pool.safe_data().iter().map(|o| o.copied()).collect();

    let idx = pool.insert(99);
    assert_eq!(idx, 1);
    assert_eq!(pool.free(idx), Some(99));

    // Bit for bit, the pool is back to its old state
    let after: Vec<Option<i32>> = pool.safe_data().iter().map(|o| o.copied()).collect();
    assert_eq!(before, after);
}

#[test]
fn write_twice_keeps_last_value() {
    let mut pool = Pond::new();
    pool.write(5, "v");
    assert_eq!(pool.write(5, "w"), Some("v"));
    assert_eq!(pool.get(5), Some(&"w"));
}

#[test]
fn trim_shrinks_to_occupied_count() {
    let mut pool = Pond::new();
    for i in 0..8 {
        let _ = pool.insert(i);
    }
    pool.free(2).unwrap();
    pool.free(5).unwrap();
    pool.free(7).unwrap();
    let _ = pool.trim();
    assert_eq!(pool.len(), 5);
    for i in 0..5 {
        assert!(pool.is_occupied(i));
    }
}

#[test]
fn next_index_reports_lowest_free() {
    let mut pool = Pond::new();
    assert_eq!(pool.next_index(), 0);
    let _ = pool.insert(1);
    let _ = pool.insert(2);
    assert_eq!(pool.next_index(), 2);
    pool.free(0).unwrap();
    assert_eq!(pool.next_index(), 0);
}

#[test]
fn safe_data_mirrors_slots() {
    let mut pool = Pond::new();
    let _ = pool.insert(4);
    let _ = pool.insert(5);
    pool.free(0).unwrap();
    let view = pool.safe_data();
    assert_eq!(view.len(), 2);
    assert_eq!(view[0], None);
    assert_eq!(view[1], Some(&5));
    let raw = pool.unsafe_data();
    assert_eq!(raw.len(), 2);
    assert_eq!(raw[1], Some(5));
}

#[test]
fn resize_preserves_below_new_size() {
    let mut pool = Pond::new();
    for i in 0..6 {
        let _ = pool.insert(i * 10);
    }
    pool.resize(4);
    for i in 0..4 {
        assert_eq!(pool.get(i), Some(&(i as i32 * 10)));
    }
    assert_eq!(pool.len(), 4);
}
