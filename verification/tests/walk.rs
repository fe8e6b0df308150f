//! The safety predicates, the legal moves and the walk.

use xorpl::swap::XMatrix;
use xorpl::walk::{
    default_layout, has_plaintext, neighbors, neighbors_by, valid_end_state, Pairing, Walk,
};

#[test]
fn test_default_layout() {
    let x = default_layout::<8, 6>();
    assert_eq!(
        x.serialize(),
        "100000\n010000\n001000\n000100\n000010\n000001\n000000\n000000\n"
    );
    assert_eq!(x.rank(), 6);
    assert!(!has_plaintext(&x));
    assert!(valid_end_state(&x));
}

#[test]
fn test_default_layout_of_other_sizes() {
    let x = default_layout::<2, 2>();
    assert_eq!(x.serialize(), "10\n01\n");
    assert!(!has_plaintext(&x));
    assert!(valid_end_state(&x));
    let y = default_layout::<5, 4>();
    assert_eq!(y.rank(), 4);
    assert!(!has_plaintext(&y));
    assert!(valid_end_state(&y));
    let z = default_layout::<3, 0>();
    assert!(!has_plaintext(&z));
    assert!(valid_end_state(&z));
}

#[test]
fn test_has_plaintext() {
    let x = XMatrix::<3, 4>::parse("1100\n0010\n0001\n").unwrap();
    assert!(has_plaintext(&x));
    let y = XMatrix::<3, 4>::parse("0110\n1010\n1001\n").unwrap();
    assert!(!has_plaintext(&y));
    let z = XMatrix::<3, 4>::parse("1110\n1000\n0100\n").unwrap();
    assert!(!has_plaintext(&z));
    let w = XMatrix::<3, 4>::parse("1000\n0100\n0011\n").unwrap();
    assert!(has_plaintext(&w));
    let v = XMatrix::<3, 4>::parse("1111\n0000\n0101\n").unwrap();
    assert!(!has_plaintext(&v));
}

#[test]
fn test_valid_end_state() {
    let x = XMatrix::<4, 2>::parse("01\n11\n10\n00\n").unwrap();
    assert!(valid_end_state(&x));
    let y = XMatrix::<4, 2>::parse("01\n11\n01\n00\n").unwrap();
    assert!(!valid_end_state(&y));
    let z = XMatrix::<4, 2>::parse("01\n10\n01\n10\n").unwrap();
    assert!(valid_end_state(&z));
    let w = XMatrix::<4, 2>::parse("11\n11\n00\n00\n").unwrap();
    assert!(!valid_end_state(&w));
}

#[test]
fn test_valid_end_state_of_every_small_matrix() {
    for bits in 0u32..(1 << 12) {
        let mut x = XMatrix::<3, 4>::new();
        for k in 0..12 {
            x.set(k / 4, k % 4, ((bits >> k) & 1) as u8);
        }
        let mut covered = [false; 4];
        for r in 0..3 {
            let row = x.row(r).collect();
            if row.iter().filter(|&&b| b == 1).count() == 1 {
                covered[row.iter().position(|&b| b == 1).unwrap()] = true;
            }
        }
        assert_eq!(valid_end_state(&x), covered.iter().all(|&c| c));
    }
    for bits in 0u32..(1 << 8) {
        let mut x = XMatrix::<4, 2>::new();
        for k in 0..8 {
            x.set(k / 2, k % 2, ((bits >> k) & 1) as u8);
        }
        let mut covered = [false; 2];
        for r in 0..4 {
            let row = x.row(r).collect();
            if row.iter().filter(|&&b| b == 1).count() == 1 {
                covered[row.iter().position(|&b| b == 1).unwrap()] = true;
            }
        }
        assert_eq!(valid_end_state(&x), covered.iter().all(|&c| c));
    }
}

#[test]
fn test_has_plaintext_of_every_small_matrix() {
    for bits in 0u32..(1 << 8) {
        let mut x = XMatrix::<2, 4>::new();
        for k in 0..8 {
            x.set(k / 4, k % 4, ((bits >> k) & 1) as u8);
        }
        let mut exposed = false;
        for r in 0..2 {
            let row = x.row(r).collect();
            if row == vec![1, 1, 0, 0] || row == vec![0, 0, 1, 1] {
                exposed = true;
            }
        }
        assert_eq!(has_plaintext(&x), exposed);
    }
}

#[test]
fn test_neighbors_of_default_layout() {
    let x = default_layout::<8, 6>();
    let ns = neighbors(&x);
    assert_eq!(ns.len(), 50);
    for n in &ns {
        assert_eq!(n.rank(), 6);
        assert!(!has_plaintext(n));
    }
    let mut first = x;
    first.add_row(0, 2);
    assert_eq!(ns[0], first);
    let mut last = x;
    last.add_row(7, 6);
    assert_eq!(ns[49], last);
}

#[test]
fn test_neighbors_are_in_order() {
    let x = default_layout::<2, 2>();
    assert_eq!(neighbors(&x).len(), 0);
    let y = XMatrix::<3, 2>::parse("10\n01\n00\n").unwrap();
    let expected = ["10\n01\n00\n", "10\n01\n00\n", "10\n01\n10\n", "10\n01\n01\n"];
    let ns = neighbors(&y);
    assert_eq!(ns.len(), 4);
    for k in 0..4 {
        assert_eq!(ns[k].serialize(), expected[k]);
    }
}

#[test]
fn test_neighbors_keep_rank_and_secrecy() {
    let mut x = default_layout::<5, 4>();
    x.add_row(4, 0);
    x.add_row(4, 2);
    x.add_row(1, 4);
    let rank = x.rank();
    for n in neighbors(&x) {
        assert_eq!(n.rank(), rank);
        assert!(!has_plaintext(&n));
    }
}

#[test]
fn test_walk_starts_on_default_layout() {
    let walk = Walk::<8, 6>::new();
    assert_eq!(*walk.current(), default_layout::<8, 6>());
    assert_eq!(walk.seen().len(), 0);
    assert_eq!(walk.end_states().len(), 0);
    assert!(!walk.is_stuck());
}

#[test]
fn test_walk_record_and_advance() {
    let mut walk = Walk::<8, 6>::new();
    let start = *walk.current();
    assert!(walk.record());
    assert_eq!(walk.seen(), &vec![start]);
    assert_eq!(walk.end_states(), &vec![start]);
    assert!(!walk.record());
    assert_eq!(walk.seen().len(), 1);
    assert_eq!(walk.end_states().len(), 1);
    let candidates = neighbors(walk.current());
    walk.advance(&candidates, 3);
    assert_eq!(*walk.current(), candidates[3]);
    assert!(!walk.is_stuck());
    assert!(!walk.record());
    assert_eq!(walk.seen().len(), 2);
    assert_eq!(walk.end_states().len(), 1);
}

#[test]
fn test_walk_gets_stuck() {
    let mut walk = Walk::<2, 2>::new();
    let steps = walk.run(10);
    assert_eq!(steps, 1);
    assert!(walk.is_stuck());
    assert_eq!(walk.seen().len(), 1);
    assert_eq!(walk.end_states().len(), 1);
    assert_eq!(*walk.current(), default_layout::<2, 2>());
    assert_eq!(walk.run(10), 0);
}

#[test]
fn test_walk_of_eight_registers() {
    let mut walk = Walk::<8, 6>::new();
    let steps = walk.run(400);
    assert!(steps <= 400);
    assert!(steps == 400 || walk.is_stuck());
    assert!(walk.seen().len() <= steps);
    assert!(walk.seen().len() >= 1);
    for state in walk.seen() {
        assert!(!has_plaintext(state));
        assert_eq!(state.rank(), 6);
    }
    assert!(walk.end_states().len() >= 1);
    for state in walk.end_states() {
        assert!(valid_end_state(state));
        assert!(walk.seen().contains(state));
    }
    for (i, a) in walk.seen().iter().enumerate() {
        for b in &walk.seen()[..i] {
            assert_ne!(a, b);
        }
    }
    assert!(!has_plaintext(walk.current()));
    assert_eq!(walk.current().rank(), 6);
}

#[test]
fn test_walk_step_by_step() {
    let mut walk = Walk::<6, 4>::new();
    let mut rng = rand::rng();
    let mut found = 0;
    for _ in 0..200 {
        let before = *walk.current();
        let candidates = neighbors(&before);
        let was_seen = walk.seen().contains(&before);
        let fresh_end = walk.step(&mut rng);
        assert_eq!(fresh_end, !was_seen && valid_end_state(&before));
        if fresh_end {
            found += 1;
        }
        assert!(walk.seen().contains(&before));
        if candidates.is_empty() {
            assert!(walk.is_stuck());
            break;
        }
        assert!(candidates.contains(walk.current()));
    }
    assert_eq!(walk.end_states().len(), found);
}

#[test]
fn test_pairing_allows() {
    assert!(Pairing::Ordered.allows(0, 1));
    assert!(Pairing::Ordered.allows(1, 0));
    assert!(!Pairing::Ordered.allows(1, 1));
    assert!(Pairing::Triangular.allows(0, 1));
    assert!(!Pairing::Triangular.allows(1, 0));
    assert!(!Pairing::Triangular.allows(1, 1));
}

#[test]
fn test_neighbors_by_pairing() {
    let x = default_layout::<8, 6>();
    assert_eq!(neighbors_by(&x, Pairing::Ordered), neighbors(&x));
    let ns = neighbors_by(&x, Pairing::Triangular);
    assert_eq!(ns.len(), 25);
    for n in &ns {
        assert_eq!(n.rank(), 6);
        assert!(!has_plaintext(n));
    }
    let mut first = x;
    first.add_row(0, 2);
    assert_eq!(ns[0], first);
    let mut last = x;
    last.add_row(6, 7);
    assert_eq!(ns[24], last);
    let y = XMatrix::<3, 2>::parse("10\n01\n00\n").unwrap();
    let expected = ["10\n01\n00\n", "10\n01\n00\n"];
    let ns = neighbors_by(&y, Pairing::Triangular);
    assert_eq!(ns.len(), 2);
    for k in 0..2 {
        assert_eq!(ns[k].serialize(), expected[k]);
    }
}

#[test]
fn test_walk_with_triangular_pairing() {
    let mut walk = Walk::<8, 6>::with_pairing(Pairing::Triangular);
    assert_eq!(walk.pairing(), Pairing::Triangular);
    assert_eq!(Walk::<8, 6>::new().pairing(), Pairing::Ordered);
    let steps = walk.run(200);
    assert!(steps == 200 || walk.is_stuck());
    for state in walk.seen() {
        assert!(!has_plaintext(state));
        assert_eq!(state.rank(), 6);
        for r in 0..8 {
            for c in 0..r.min(6) {
                assert_eq!(state.get(r, c), 0);
            }
        }
    }
    for state in walk.end_states() {
        assert!(valid_end_state(state));
    }
}
