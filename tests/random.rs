use zpath::{LcgRng, XorShiftRng};

#[test]
fn xorshift_sequence_from_seed_one() {
    let mut rng = XorShiftRng::new(1);
    assert_eq!(rng.next_u32(), 16787457);
    assert_eq!(rng.next_u32(), 281475182231555);
    assert_eq!(rng.next_u32(), 2883782236988975201);
}

#[test]
fn xorshift_is_reproducible() {
    let mut a = XorShiftRng::new(42);
    let mut b = XorShiftRng::new(42);
    assert_eq!(a.next_u32(), 704909354);
    assert_eq!(b.next_u32(), 704909354);
    assert_eq!(a.next_u32(), 11821957385289854);
}

#[test]
fn lcg_sequence_from_seed_one() {
    let mut rng = LcgRng::new(1);
    assert_eq!(rng.next(), 5576963409015390);
    assert_eq!(rng.next(), 6545076158659061799);
    assert_eq!(rng.next(), 16012570891860063276);
}
