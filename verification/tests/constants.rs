//! The dynamically selected sizes expose exactly the requested universe.

#[test]
fn constants_are_correct() {
    for bits in 4..=20 {
        let t = flat_veb::new_with_bits(bits);
        assert_eq!(t.capacity(), 1usize << bits);
    }

    let t = flat_veb::new_with_capacity(1 << 30);
    assert_eq!(t.capacity(), 1 << 30);

    assert_eq!(flat_veb::new_with_capacity(100).capacity(), 128);
}
