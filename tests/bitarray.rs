use maximizer::bitarray::{cells_needed, zero, BitArray};

fn set_of(bits: &[usize]) -> BitArray<1> {
    let mut s = zero::<1>();
    for &b in bits {
        s.set(b);
    }
    s
}

#[test]
fn cells_needed_rounds_up() {
    assert_eq!(cells_needed(0), 0);
    assert_eq!(cells_needed(1), 1);
    assert_eq!(cells_needed(64), 1);
    assert_eq!(cells_needed(65), 2);
    assert_eq!(cells_needed(128), 2);
}

#[test]
fn zero_is_empty() {
    let z = zero::<2>();
    assert_eq!(z.size(), 0);
    assert!(z.is_zero());
    for i in 0..128 {
        assert!(!z.get(i));
    }
}

#[test]
fn set_and_get() {
    let mut s = zero::<2>();
    s.set(3);
    s.set(64);
    s.set(127);
    assert!(s.get(3));
    assert!(s.get(64));
    assert!(s.get(127));
    assert!(!s.get(4));
    assert!(!s.get(0));
    assert_eq!(s.size(), 3);
}

#[test]
fn union_intersection_difference() {
    let a = set_of(&[0, 1]);
    let b = set_of(&[1, 2]);
    assert!(a.bitor(b) == set_of(&[0, 1, 2]));
    assert!(a.bitand(b) == set_of(&[1]));
    assert!(a.bitxor(b) == set_of(&[0, 2]));
    let mut c = a;
    c.bitor_assign(b);
    assert!(c == set_of(&[0, 1, 2]));
}

#[test]
fn complement_flips_every_bit() {
    let a = set_of(&[0, 5]);
    let n = a.not();
    assert!(!n.get(0));
    assert!(!n.get(5));
    assert!(n.get(1));
    assert!(n.get(63));
    assert_eq!(n.size(), 62);
    assert_eq!(zero::<1>().not().size(), 64);
}

#[test]
fn subset_test() {
    let a = set_of(&[0]);
    let ab = set_of(&[0, 1]);
    assert!(a.is_subset_of(&ab));
    assert!(!ab.is_subset_of(&a));
    assert!(zero::<1>().is_subset_of(&a));
    assert!(a.is_subset_of(&a));
}

#[test]
fn order_of_words() {
    let a = set_of(&[0]);
    let b = set_of(&[1]);
    assert_eq!(a.cmp(&b), std::cmp::Ordering::Less);
    assert_eq!(b.cmp(&a), std::cmp::Ordering::Greater);
    assert_eq!(a.cmp(&a), std::cmp::Ordering::Equal);
    let mut hi = zero::<2>();
    hi.set(64);
    let mut lo = zero::<2>();
    lo.set(63);
    assert_eq!(lo.cmp(&hi), std::cmp::Ordering::Greater);
}
