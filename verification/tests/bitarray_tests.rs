use exit_analysis::bitarray::{ceil_div, BitArray};

#[test]
fn ceil_div_rounds_up() {
    assert_eq!(ceil_div(10, 3), 4);
    assert_eq!(ceil_div(9, 3), 3);
    assert_eq!(ceil_div(0, 64), 0);
    assert_eq!(ceil_div(64, 64), 1);
    assert_eq!(ceil_div(65, 64), 2);
}

#[test]
fn new_array_is_filled() {
    let a = BitArray::new(100, false);
    assert_eq!(a.len(), 100);
    assert!(!a.is_set(0));
    assert!(!a.is_set(99));
    assert_eq!(a.count(), 0);
    let b = BitArray::new(100, true);
    assert!(b.is_set(0));
    assert!(b.is_set(99));
    assert_eq!(b.count(), 100);
    assert_eq!(BitArray::new(3, true).count(), 3);
    assert_eq!(BitArray::new(64, true).count(), 64);
    assert_eq!(BitArray::new(0, true).count(), 0);
}

#[test]
fn set_bit_and_is_set() {
    let mut a = BitArray::new(130, false);
    a.set_bit(5, true);
    a.set_bit(64, true);
    a.set_bit(129, true);
    assert!(a.is_set(5));
    assert!(a.is_set(64));
    assert!(a.is_set(129));
    assert!(!a.is_set(4));
    assert_eq!(a.count(), 3);
    a.set_bit(64, false);
    assert!(!a.is_set(64));
    assert_eq!(a.count(), 2);
}

#[test]
fn set_range_is_inclusive() {
    let mut a = BitArray::new(200, false);
    a.set_range(3, 7, true);
    assert_eq!(a.count(), 5);
    assert!(a.is_set(3));
    assert!(a.is_set(7));
    assert!(!a.is_set(8));
    a.set_range(60, 70, true);
    assert_eq!(a.count(), 16);
    a.set_range(5, 4, false);
    assert_eq!(a.count(), 16);
    a.set_range(0, 199, false);
    assert_eq!(a.count(), 0);
}

#[test]
fn contains_and_negation_contains() {
    let mut big = BitArray::new(100, false);
    big.set_range(10, 20, true);
    let mut small = BitArray::new(100, false);
    small.set_range(12, 15, true);
    let mut other = BitArray::new(100, false);
    other.set_range(50, 60, true);
    assert!(big.contains(&small));
    assert!(!small.contains(&big));
    assert!(big.contains(&BitArray::new(100, false)));
    assert!(big.negation_contains(&other));
    assert!(!big.negation_contains(&small));
}

#[test]
fn set_operations() {
    let mut a = BitArray::new(128, false);
    a.set_range(0, 9, true);
    let mut b = BitArray::new(128, false);
    b.set_range(5, 14, true);
    let i = a.intersect(&b);
    assert_eq!(i.count(), 5);
    assert!(i.is_set(5) && i.is_set(9) && !i.is_set(4) && !i.is_set(10));
    let u = a.union(&b);
    assert_eq!(u.count(), 15);
    let s = a.subtract(&b);
    assert_eq!(s.count(), 5);
    assert!(s.is_set(0) && s.is_set(4) && !s.is_set(5));
    let n = a.negate();
    assert_eq!(n.len(), 128);
    assert_eq!(n.count(), 118);
    assert!(!n.is_set(0) && n.is_set(10));
}

#[test]
fn grow_adds_clear_words() {
    let mut a = BitArray::new(64, true);
    a.grow(10);
    assert_eq!(a.len(), 64);
    a.grow(64);
    assert_eq!(a.len(), 64);
    a.grow(65);
    assert_eq!(a.len(), 128);
    assert!(a.is_set(63));
    assert!(!a.is_set(64));
    assert!(!a.is_set(127));
    assert_eq!(a.count(), 64);
    let mut b = BitArray::new(10, true);
    b.grow(20);
    assert_eq!(b.len(), 64);
    assert!(b.is_set(9));
    assert!(!b.is_set(10));
    assert!(!b.is_set(15));
    assert_eq!(b.count(), 10);
}

#[test]
fn negate_keeps_to_the_size() {
    let a = BitArray::new(10, false);
    let n = a.negate();
    assert_eq!(n.len(), 10);
    assert_eq!(n.count(), 10);
    let mut g = n.clone();
    g.grow(11);
    assert_eq!(g.len(), 64);
    assert!(g.is_set(9) && !g.is_set(10));
    assert_eq!(g.count(), 10);
    assert_eq!(n.negate().count(), 0);
    assert!(n.negate().equals(&a));
}

#[test]
fn counts_of_set_operations_add_up() {
    let mut a = BitArray::new(100, false);
    a.set_range(0, 59, true);
    let mut b = BitArray::new(100, false);
    b.set_range(40, 89, true);
    let u = a.union(&b).count();
    let i = a.intersect(&b).count();
    let d = a.subtract(&b).count();
    assert_eq!((u, i, d), (90, 20, 40));
    assert_eq!(u + i, a.count() + b.count());
    assert_eq!(d + i, a.count());
}

#[test]
fn negation_contains_over_different_sizes() {
    let mut a = BitArray::new(10, false);
    a.set_bit(3, true);
    let mut b = BitArray::new(200, false);
    b.set_bit(150, true);
    assert!(a.negation_contains(&b));
    b.set_bit(3, true);
    assert!(!a.negation_contains(&b));
}

#[test]
fn from_iter_collects_booleans() {
    let a = BitArray::from_iter(&[true, false, true]);
    assert_eq!(a.len(), 64);
    assert!(a.is_set(0) && !a.is_set(1) && a.is_set(2));
    assert_eq!(a.count(), 2);
    let mut v = vec![false; 65];
    v[64] = true;
    let b = BitArray::from_iter(&v);
    assert_eq!(b.len(), 128);
    assert!(b.is_set(64));
    assert_eq!(b.count(), 1);
    let empty = BitArray::from_iter(&[]);
    assert_eq!(empty.len(), 64);
    assert_eq!(empty.count(), 0);
}

#[test]
fn equals_compares_bits_and_size() {
    let mut a = BitArray::new(70, false);
    let mut b = BitArray::new(70, false);
    assert!(a.equals(&b));
    a.set_bit(69, true);
    assert!(!a.equals(&b));
    b.set_bit(69, true);
    assert!(a.equals(&b));
    assert!(!BitArray::new(64, false).equals(&BitArray::new(65, false)));
    assert!(!BitArray::new(64, false).equals(&BitArray::new(60, false)));
}
