use lilypads::AcceleratedBitmap;

#[test]
fn bitmap_write() {
    let mut tree = AcceleratedBitmap::new(2);
    tree.resize(7);

    tree.set(0, true);
    // Does setting work correctly
    tree.set(1, true);
    assert_eq!(tree.is_set(1), true);

    // Make sure setting and unsetting work
    tree.set(2, true);
    assert_eq!(tree.is_set(2), true);
    tree.set(2, false);
    assert_eq!(tree.is_set(2), false);

    tree.set(1, false);

    assert_eq!(tree.first_free(), Some(1));
}

#[test]
fn resize_boundary() {
    let mut tree = AcceleratedBitmap::new(2);
    tree.resize(63);
    tree.set(62, true);
    tree.resize(64);
    assert_eq!(tree.is_set(62), true);
}

#[test]
fn boundary_bit_stays_free() {
    let mut tree = AcceleratedBitmap::new(2);
    tree.resize(63);
    tree.set(62, true);
    tree.resize(64);
    // The slot uncovered by the growth starts out free
    assert_eq!(tree.is_set(63), false);
    assert_eq!(tree.first_free(), Some(0));
}

#[test]
fn first_free_none_when_full() {
    let mut tree = AcceleratedBitmap::new(3);
    tree.resize(3);
    tree.set(0, true);
    tree.set(1, true);
    tree.set(2, true);
    assert_eq!(tree.first_free(), None);
    tree.set(1, false);
    assert_eq!(tree.first_free(), Some(1));
}

#[test]
fn first_free_across_words() {
    let mut tree = AcceleratedBitmap::new(3);
    tree.resize(200);
    for i in 0..130 {
        tree.set(i, true);
    }
    assert_eq!(tree.first_free(), Some(130));
    tree.set(70, false);
    assert_eq!(tree.first_free(), Some(70));
}

#[test]
fn shrink_drops_bits() {
    let mut tree = AcceleratedBitmap::new(2);
    tree.resize(10);
    tree.set(9, true);
    tree.set(1, true);
    tree.resize(5);
    tree.resize(10);
    assert_eq!(tree.is_set(9), false);
    assert_eq!(tree.is_set(1), true);
}
