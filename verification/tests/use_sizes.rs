//! The operations behave the same over every composed size.

fn empty_works(bits: usize) {
    let mut s = flat_veb::new_with_bits(bits);
    assert!(s.is_empty());
    s.clear();
    assert!(s.is_empty());

    let capacity = s.capacity();
    for x in 0..capacity.min(1000) {
        assert!(!s.contains(x));
    }
}

fn small_collect(bits: usize) {
    let mut s = flat_veb::new_with_bits(bits);
    s.insert(2);
    s.insert(4);
    s.insert(6);

    let mut it = s.iter();
    assert_eq!(it.next(), Some(2));
    assert_eq!(it.next(), Some(4));
    assert_eq!(it.next(), Some(6));
    assert_eq!(it.next(), None);
}

fn spaced_collect(bits: usize) {
    let mut s = flat_veb::new_with_bits(bits);
    let capacity = s.capacity();
    let spacing = (capacity / 20).max(2);

    for x in (0..capacity).step_by(spacing) {
        s.insert(x);
    }

    let mut iter = s.iter();

    for x in (0..capacity).step_by(spacing) {
        assert_eq!(iter.next(), Some(x));
    }
    assert_eq!(iter.next(), None);
}

#[test]
fn empty_works_all_sizes() {
    for bits in [4, 5, 6, 7, 8, 9, 10, 15, 20] {
        empty_works(bits);
    }
}

#[test]
fn small_collect_all_sizes() {
    for bits in [4, 5, 6, 7, 8, 9, 10, 15, 20] {
        small_collect(bits);
    }
}

#[test]
fn spaced_collect_all_sizes() {
    for bits in [4, 5, 6, 7, 8, 9, 10, 15, 20] {
        spaced_collect(bits);
    }
}
