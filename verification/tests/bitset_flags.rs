use gpgoap::bitset::BitSetU64;

#[test]
fn test() {
    let empty = BitSetU64::empty();
    let full = BitSetU64::full();
    let mut march = BitSetU64::empty();
    for i in 0..64 {
        assert!(empty.get(i) != true);
        assert!(full.get(i) == true);
        march.enable(i);
        assert!(march.get(i) == true);
        for j in 0..i {
            assert!(march.get(j) == false);
        }
        for j in i + 1..64 {
            assert!(march.get(j) == false);
        }
        march.disable(i);
    }
    march.set(1, true);
    assert!(full.get(1) == true);
    march.set(1, false);
    assert!(empty.get(1) != true);
}

#[test]
fn set_writes_one_flag() {
    let mut b = BitSetU64::empty();
    b.set(5, true);
    assert!(b.get(5));
    assert!(b == BitSetU64::new_with(1 << 5));
    b.set(63, true);
    assert!(b == BitSetU64::new_with((1 << 5) | (1 << 63)));
    b.set(5, false);
    assert!(!b.get(5));
    assert!(b.get(63));
    assert!(b == BitSetU64::new_with(1 << 63));
    b.set(63, true);
    assert!(b == BitSetU64::new_with(1 << 63));
}

#[test]
fn count_ones_counts_set_flags() {
    assert_eq!(BitSetU64::empty().count_ones(), 0);
    assert_eq!(BitSetU64::full().count_ones(), 64);
    assert_eq!(BitSetU64::new_with(0b1011).count_ones(), 3);
    assert_eq!(BitSetU64::new_with(1 << 63).count_ones(), 1);
}

#[test]
fn max_values_is_sixty_four() {
    assert_eq!(BitSetU64::max_values(), 64);
}

#[test]
fn default_is_empty() {
    assert!(BitSetU64::default() == BitSetU64::empty());
}

#[test]
fn whole_set_operators() {
    let a = BitSetU64::new_with(0b1100);
    let b = BitSetU64::new_with(0b1010);
    assert!((a & b) == BitSetU64::new_with(0b1000));
    assert!((a | b) == BitSetU64::new_with(0b1110));
    assert!((a ^ b) == BitSetU64::new_with(0b0110));
    assert!((!a) == BitSetU64::new_with(!0b1100u64));
    assert!((!BitSetU64::empty()) == BitSetU64::full());
}

#[test]
fn assigning_operators() {
    let b = BitSetU64::new_with(0b1010);
    let mut x = BitSetU64::new_with(0b1100);
    x &= b;
    assert!(x == BitSetU64::new_with(0b1000));
    let mut y = BitSetU64::new_with(0b1100);
    y |= b;
    assert!(y == BitSetU64::new_with(0b1110));
    let mut z = BitSetU64::new_with(0b1100);
    z ^= b;
    assert!(z == BitSetU64::new_with(0b0110));
}
