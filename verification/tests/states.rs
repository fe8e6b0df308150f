//! The set of recorded states.

use xorpl::states::{fingerprint_of, StateSet};
use xorpl::swap::XMatrix;

#[test]
fn test_state_set_insert_and_contains() {
    let a = XMatrix::<2, 3>::parse("101\n011\n").unwrap();
    let b = XMatrix::<2, 3>::parse("101\n010\n").unwrap();
    let mut set = StateSet::<2, 3>::new();
    assert_eq!(set.len(), 0);
    assert!(!set.contains(&a));
    assert!(set.insert(a));
    assert!(set.contains(&a));
    assert!(!set.contains(&b));
    assert!(!set.insert(a));
    assert_eq!(set.len(), 1);
    assert!(set.insert(b));
    assert!(!set.insert(b));
    assert_eq!(set.len(), 2);
    assert_eq!(set.states(), &vec![a, b]);
}

#[test]
fn test_state_set_holds_every_matrix_once() {
    let mut set = StateSet::<2, 3>::new();
    for round in 0..2 {
        for bits in 0u32..64 {
            let mut x = XMatrix::<2, 3>::new();
            for k in 0..6 {
                x.set(k / 3, k % 3, ((bits >> k) & 1) as u8);
            }
            assert_eq!(set.insert(x), round == 0);
            assert!(set.contains(&x));
        }
    }
    assert_eq!(set.len(), 64);
}

#[test]
fn test_fingerprint_reads_bits_as_a_number() {
    assert_eq!(fingerprint_of(&XMatrix::<2, 3>::new()), 0);
    assert_eq!(fingerprint_of(&XMatrix::<2, 3>::parse("000\n001\n").unwrap()), 1);
    assert_eq!(fingerprint_of(&XMatrix::<2, 3>::parse("101\n011\n").unwrap()), 0b101011);
    assert_eq!(fingerprint_of(&XMatrix::<2, 3>::parse("111\n111\n").unwrap()), 63);
}

#[test]
fn test_state_set_tells_equal_fingerprints_apart() {
    let mut a = XMatrix::<8, 9>::new();
    a.set(7, 8, 1);
    let mut b = XMatrix::<8, 9>::new();
    b.set(1, 1, 1);
    assert_eq!(fingerprint_of(&a), 1);
    assert_eq!(fingerprint_of(&b), 1);
    let mut set = StateSet::<8, 9>::new();
    assert!(set.insert(a));
    assert!(!set.contains(&b));
    assert!(set.insert(b));
    assert!(set.contains(&a));
    assert!(set.contains(&b));
    assert!(!set.insert(a));
    assert!(!set.insert(b));
    assert_eq!(set.len(), 2);
}
