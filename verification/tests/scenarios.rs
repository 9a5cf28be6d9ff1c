//! Concrete scenarios for the ordered-set operations: membership after
//! updates, the query answers on small fixed contents, the boundary and
//! singleton cases, and a cross-check of a long random operation sequence
//! against a plain reference model.
use flat_veb::{new_with_capacity, InnerVEBTree, SmallSet, VEBTree};

#[test]
fn insert_then_contains_then_remove() {
    let mut t = new_with_capacity(256);
    for x in 0..256 {
        assert!(!t.contains(x));
        assert!(t.insert(x));
        assert!(t.contains(x));
    }
    for x in 0..256 {
        assert!(t.remove(x));
        assert!(!t.contains(x));
    }
    assert!(t.is_empty());
}

#[test]
fn insert_and_remove_report_prior_membership() {
    let mut t = new_with_capacity(64);
    assert!(t.insert(10));
    assert!(!t.insert(10));
    assert!(t.insert(20));
    assert!(t.remove(10));
    assert!(!t.remove(10));
    assert!(t.remove(20));
    assert!(!t.remove(20));
}

#[test]
fn is_empty_iff_no_member() {
    let mut t = new_with_capacity(128);
    assert!(t.is_empty());
    for x in 0..128 {
        assert!(!t.contains(x));
    }
    t.insert(77);
    assert!(!t.is_empty());
    t.remove(77);
    assert!(t.is_empty());
}

#[test]
fn capacity_16_scenario() {
    // Capacity 16: insert 2, 4, 6; iteration, neighbours, then remove 4.
    let mut t = new_with_capacity(16);
    assert_eq!(t.capacity(), 16);
    t.insert(2);
    t.insert(4);
    t.insert(6);

    let mut it = t.iter();
    assert_eq!(it.next(), Some(2));
    assert_eq!(it.next(), Some(4));
    assert_eq!(it.next(), Some(6));
    assert_eq!(it.next(), None);

    assert_eq!(t.next(3), Some(4));
    assert_eq!(t.prev(5), Some(4));

    assert!(t.remove(4));
    let mut it = t.iter();
    assert_eq!(it.next(), Some(2));
    assert_eq!(it.next(), Some(6));
    assert_eq!(it.next(), None);

    assert_eq!(t.next(4), Some(6));
    assert!(!t.remove(4));
}

#[test]
fn empty_boundaries() {
    let t = new_with_capacity(16);
    assert_eq!(t.first(), None);
    assert_eq!(t.last(), None);
    assert_eq!(t.next(0), None);
    assert_eq!(t.prev(15), None);
}

#[test]
fn singleton_round_trip() {
    for x in [0, 7, 15] {
        let mut t = new_with_capacity(16);
        assert!(t.insert(x));
        assert_eq!(t.first(), Some(x));
        assert_eq!(t.last(), Some(x));
        assert!(t.remove(x));
        assert!(t.is_empty());
        assert!(!t.remove(x));
        assert!(!t.remove(x));
    }
}

#[test]
fn neighbours_at_every_point() {
    let mut t = new_with_capacity(64);
    for x in [3, 9, 10, 31, 32, 60] {
        t.insert(x);
    }
    let members = [3usize, 9, 10, 31, 32, 60];
    for q in 0..64 {
        let expected_next = members.iter().copied().find(|&m| m >= q);
        let expected_prev = members.iter().copied().rev().find(|&m| m <= q);
        assert_eq!(t.next(q), expected_next);
        assert_eq!(t.prev(q), expected_prev);
    }
    assert_eq!(t.first(), Some(3));
    assert_eq!(t.last(), Some(60));
}

#[test]
fn small_set_direct() {
    let mut s = SmallSet::new(4);
    assert_eq!(s.capacity(), 16);
    assert!(s.is_empty());
    assert!(s.insert(5));
    assert!(s.insert(11));
    assert!(!s.insert(5));
    assert!(s.contains(5));
    assert!(!s.contains(6));
    assert_eq!(s.next(6), Some(11));
    assert_eq!(s.prev(10), Some(5));
    assert_eq!(s.first(), Some(5));
    assert_eq!(s.last(), Some(11));
    assert!(s.remove(5));
    assert_eq!(s.first(), Some(11));
    s.clear();
    assert!(s.is_empty());
}

#[test]
fn composite_node_direct() {
    let mut t = VEBTree::new(8);
    assert_eq!(t.capacity(), 256);
    assert!(t.insert(200));
    assert!(t.insert(3));
    assert!(t.insert(77));
    assert_eq!(t.first(), Some(3));
    assert_eq!(t.last(), Some(200));
    assert_eq!(t.next(4), Some(77));
    assert_eq!(t.prev(199), Some(77));
    assert!(t.remove(77));
    assert_eq!(t.next(4), Some(200));
    t.clear();
    assert!(t.is_empty());
}

#[test]
fn inner_handle_direct() {
    let mut t = InnerVEBTree::new(9);
    assert_eq!(t.capacity(), 512);
    assert!(t.insert(511));
    assert!(t.insert(0));
    assert_eq!(t.first(), Some(0));
    assert_eq!(t.last(), Some(511));
    assert_eq!(t.next(1), Some(511));
    assert_eq!(t.prev(510), Some(0));
}

#[test]
fn large_universe_walkthrough() {
    let mut tree = flat_veb::new_with_bits(24);
    assert_eq!(tree.insert(123), true);
    assert_eq!(tree.insert(1337), true);
    assert_eq!(tree.insert(123), false);

    assert_eq!(tree.contains(123), true);
    assert_eq!(tree.contains(42), false);

    assert_eq!(tree.next(42), Some(123));
    assert_eq!(tree.next(123), Some(123));
    assert_eq!(tree.next(124), Some(1337));

    assert_eq!(tree.remove(1337), true);
    assert_eq!(tree.remove(1337), false);

    assert_eq!(tree.next(124), None);
}

/// Reference model: a plain membership array over the same universe.
struct Reference {
    present: Vec<bool>,
}

impl Reference {
    fn new(capacity: usize) -> Self {
        Reference { present: vec![false; capacity] }
    }

    fn insert(&mut self, x: usize) -> bool {
        let was = self.present[x];
        self.present[x] = true;
        !was
    }

    fn remove(&mut self, x: usize) -> bool {
        let was = self.present[x];
        self.present[x] = false;
        was
    }

    fn next(&self, x: usize) -> Option<usize> {
        (x..self.present.len()).find(|&y| self.present[y])
    }

    fn prev(&self, x: usize) -> Option<usize> {
        (0..=x).rev().find(|&y| self.present[y])
    }

    fn first(&self) -> Option<usize> {
        self.next(0)
    }

    fn last(&self) -> Option<usize> {
        self.prev(self.present.len() - 1)
    }
}

#[test]
fn random_ops_match_reference() {
    let capacity: usize = 1 << 10;
    let mut t = new_with_capacity(capacity);
    let mut r = Reference::new(capacity);
    // A small linear congruential generator keeps the sequence reproducible.
    let mut state: u64 = 0x2545_f491_4f6c_dd1d;
    for step in 0..4000 {
        state = state.wrapping_mul(6364136223846793005).wrapping_add(1442695040888963407);
        let x = (state >> 33) as usize % capacity;
        if step % 3 == 2 {
            assert_eq!(t.remove(x), r.remove(x));
        } else {
            assert_eq!(t.insert(x), r.insert(x));
        }
        let q = (state >> 13) as usize % capacity;
        assert_eq!(t.contains(q), r.present[q]);
        assert_eq!(t.next(q), r.next(q));
        assert_eq!(t.prev(q), r.prev(q));
        assert_eq!(t.first(), r.first());
        assert_eq!(t.last(), r.last());
    }
    // Drain through the iterator and compare with the reference contents.
    let collected: Vec<usize> = {
        let mut out = Vec::new();
        let mut it = t.iter();
        while let Some(v) = it.next() {
            out.push(v);
        }
        out
    };
    let expected: Vec<usize> = (0..capacity).filter(|&y| r.present[y]).collect();
    assert_eq!(collected, expected);
}
