//! The matrix, its row operations, its text form and its rank.

use xorpl::swap::XMatrix;
use xorpl::text::FormatError;

#[test]
fn test_set_get() {
    let mut x = XMatrix::<3, 3>::new();
    x.set(0, 0, 1);
    x.set(1, 1, 1);
    x.set(1, 1, 0);
    assert_eq!(x.get(0, 0), 1);
    assert_eq!(x.get(1, 1), 0);
    assert_eq!(x.get(2, 2), 0);
}

#[test]
fn test_iterators() {
    let mut x = XMatrix::<3, 3>::new();
    x.set(0, 0, 1);
    x.set(0, 1, 1);
    x.set(1, 1, 1);
    x.set(1, 2, 1);
    assert_eq!(x.row(1).collect(), &[0, 1, 1]);
    assert_eq!(x.col(1).collect(), &[1, 1, 0]);
    assert_eq!(x.diagonal().collect(), &[1, 1, 0]);
    assert_eq!(x.values().collect(), &[1, 1, 0, 0, 1, 1, 0, 0, 0]);
}

#[test]
fn test_identity() {
    let x = XMatrix::<3, 3>::identity();
    assert_eq!(x.get(0, 0), 1);
    assert_eq!(x.get(1, 1), 1);
    assert_eq!(x.get(2, 2), 1);
    assert_eq!(x.get(0, 1), 0);
    assert_eq!(x.get(1, 0), 0);
    assert_eq!(x.get(2, 0), 0);
}

#[test]
fn test_parse_serialize() {
    let input = "110\n001\n000\n";
    assert_eq!(XMatrix::<3, 3>::parse(input).unwrap().serialize(), input);
}

#[test]
fn test_swap_rows() {
    let mut x = XMatrix::<3, 3>::parse("110\n001\n000\n").unwrap();
    x.swap_rows(0, 1);
    assert_eq!(x.serialize(), "001\n110\n000\n");
}

#[test]
fn test_add_rows() {
    let mut x = XMatrix::<3, 3>::parse("110\n001\n000\n").unwrap();
    x.add_row(0, 1);
    assert_eq!(x.serialize(), "111\n001\n000\n");
}

#[test]
fn test_swap_trick() {
    let mut x = XMatrix::<3, 3>::parse("110\n001\n000\n").unwrap();
    x.add_row(0, 1);
    x.add_row(1, 0);
    x.add_row(0, 1);
    assert_eq!(x.serialize(), "001\n110\n000\n");
}

#[test]
fn test_row_echelon() {
    let mut x = XMatrix::<3, 3>::parse("110\n101\n100\n").unwrap();
    x.row_echelon();
    assert_eq!(x.serialize(), "110\n011\n001\n");
    let mut y = XMatrix::<3, 3>::parse("010\n010\n010\n").unwrap();
    y.row_echelon();
    assert_eq!(y.serialize(), "010\n000\n000\n");
    let mut z = XMatrix::<4, 3>::parse("111\n011\n001\n111\n").unwrap();
    z.row_echelon();
    assert_eq!(z.serialize(), "111\n011\n001\n000\n");
}

#[test]
fn test_rank() {
    let x = XMatrix::<3, 3>::parse("110\n101\n100\n").unwrap();
    assert_eq!(x.rank(), 3);
    let y = XMatrix::<3, 3>::parse("110\n101\n011\n").unwrap();
    assert_eq!(y.rank(), 2);
    let z = XMatrix::<3, 3>::parse("010\n010\n010\n").unwrap();
    assert_eq!(z.rank(), 1);
}

#[test]
fn test_new_is_zero() {
    let x = XMatrix::<2, 5>::new();
    assert_eq!(x.serialize(), "00000\n00000\n");
    assert_eq!(x.rank(), 0);
}

#[test]
fn test_add_row_then_rank() {
    let mut x = XMatrix::<3, 3>::parse("110\n001\n000\n").unwrap();
    x.add_row(0, 1);
    assert_eq!(x.serialize(), "111\n001\n000\n");
    assert_eq!(x.rank(), 2);
}

#[test]
fn test_add_row_twice_restores() {
    let start = XMatrix::<4, 3>::parse("110\n011\n101\n111\n").unwrap();
    for a in 0..4 {
        for b in 0..4 {
            if a != b {
                let mut x = start;
                x.add_row(a, b);
                x.add_row(a, b);
                assert_eq!(x, start);
            }
        }
    }
}

#[test]
fn test_add_row_into_itself_clears() {
    let mut x = XMatrix::<2, 3>::parse("101\n011\n").unwrap();
    x.add_row(0, 0);
    assert_eq!(x.serialize(), "000\n011\n");
}

#[test]
fn test_swap_row_with_itself() {
    let mut x = XMatrix::<2, 3>::parse("101\n011\n").unwrap();
    x.swap_rows(1, 1);
    assert_eq!(x.serialize(), "101\n011\n");
}

#[test]
fn test_rank_kept_by_row_operations() {
    let start = XMatrix::<4, 4>::parse("1100\n0110\n1010\n0001\n").unwrap();
    let rank = start.rank();
    assert_eq!(rank, 3);
    for a in 0..4 {
        for b in 0..4 {
            let mut x = start;
            x.swap_rows(a, b);
            assert_eq!(x.rank(), rank);
            if a != b {
                let mut y = start;
                y.add_row(a, b);
                assert_eq!(y.rank(), rank);
            }
        }
    }
}

#[test]
fn test_rank_leaves_matrix() {
    let x = XMatrix::<3, 3>::parse("110\n101\n100\n").unwrap();
    let _ = x.rank();
    assert_eq!(x.serialize(), "110\n101\n100\n");
}

#[test]
fn test_row_echelon_twice() {
    let texts = ["110\n101\n100\n", "010\n010\n010\n", "011\n110\n101\n", "000\n001\n001\n"];
    for text in texts {
        let mut x = XMatrix::<3, 3>::parse(text).unwrap();
        x.row_echelon();
        let once = x;
        x.row_echelon();
        assert_eq!(x, once);
    }
}

#[test]
fn test_row_echelon_shape() {
    let mut x = XMatrix::<4, 5>::parse("00110\n01011\n01101\n00110\n").unwrap();
    x.row_echelon();
    assert_eq!(x.serialize(), "01011\n00110\n00000\n00000\n");
    let mut last: Option<usize> = None;
    let mut zero_seen = false;
    for r in 0..4 {
        let lead = x.row(r).collect().iter().position(|&b| b == 1);
        match lead {
            None => zero_seen = true,
            Some(c) => {
                assert!(!zero_seen);
                if let Some(l) = last {
                    assert!(l < c);
                }
                last = Some(c);
            }
        }
    }
}

#[test]
fn test_row_echelon_wide_matrix() {
    let mut x = XMatrix::<2, 3>::parse("001\n001\n").unwrap();
    assert_eq!(x.rank(), 1);
    x.row_echelon();
    assert_eq!(x.serialize(), "001\n000\n");
    let mut y = XMatrix::<2, 4>::parse("0011\n0001\n").unwrap();
    y.row_echelon();
    assert_eq!(y.serialize(), "0011\n0001\n");
    assert_eq!(y.rank(), 2);
}

#[test]
fn test_serialize_parse_round_trip() {
    let texts = ["0000\n0000\n", "1111\n1111\n", "1010\n0101\n", "0001\n1000\n"];
    for text in texts {
        let x = XMatrix::<2, 4>::parse(text).unwrap();
        assert_eq!(x.serialize(), text);
        assert_eq!(XMatrix::<2, 4>::parse(&x.serialize()).unwrap(), x);
    }
}

#[test]
fn test_parse_every_matrix_round_trips() {
    for bits in 0u32..64 {
        let mut x = XMatrix::<2, 3>::new();
        for k in 0..6 {
            x.set(k / 3, k % 3, ((bits >> k) & 1) as u8);
        }
        assert_eq!(XMatrix::<2, 3>::parse(&x.serialize()).unwrap(), x);
    }
}

#[test]
fn test_parse_too_many_rows() {
    let r = XMatrix::<3, 3>::parse("000\n000\n000\n000\n");
    assert_eq!(r, Err("Number of rows exceeds matrix size"));
    let r = XMatrix::<3, 3>::parse("000\n000\n000\n\n");
    assert_eq!(r, Err("Number of rows exceeds matrix size"));
    let r = XMatrix::<0, 3>::parse("\n");
    assert_eq!(r, Err("Number of rows exceeds matrix size"));
}

#[test]
fn test_parse_too_many_cols() {
    let r = XMatrix::<3, 3>::parse("0000\n");
    assert_eq!(r, Err("Number of cols exceeds matrix size"));
    let r = XMatrix::<3, 3>::parse("000\n000x\n");
    assert_eq!(r, Err("Number of cols exceeds matrix size"));
    let r = XMatrix::<3, 0>::parse("1");
    assert_eq!(r, Err("Number of cols exceeds matrix size"));
}

#[test]
fn test_parse_invalid_character() {
    let r = XMatrix::<3, 3>::parse("0a0\n");
    assert_eq!(r, Err("Invalid character in input string"));
    let r = XMatrix::<3, 3>::parse("01 \n");
    assert_eq!(r, Err("Invalid character in input string"));
    let r = XMatrix::<3, 3>::parse("0\u{e9}0\n");
    assert_eq!(r, Err("Invalid character in input string"));
    let r = XMatrix::<3, 3>::parse("2");
    assert_eq!(r, Err("Invalid character in input string"));

}

#[test]
fn test_parse_first_fault_counts() {
    let r = XMatrix::<2, 2>::parse("0x00\n00\n00\n");
    assert_eq!(r, Err("Invalid character in input string"));
    let r = XMatrix::<2, 2>::parse("000x\n00\n00\n");
    assert_eq!(r, Err("Number of cols exceeds matrix size"));
    let r = XMatrix::<2, 2>::parse("00\n00\n0x0\n");
    assert_eq!(r, Err("Number of rows exceeds matrix size"));
}

#[test]
fn test_parse_line_endings() {
    let x = XMatrix::<3, 3>::parse("110\r\n001\r\n000\r\n").unwrap();
    assert_eq!(x.serialize(), "110\n001\n000\n");
    let y = XMatrix::<3, 3>::parse("110\n001\n000").unwrap();
    assert_eq!(y.serialize(), "110\n001\n000\n");
    let r = XMatrix::<3, 3>::parse("11\r");
    assert_eq!(r, Err("Invalid character in input string"));
    let r = XMatrix::<3, 3>::parse("110\r");
    assert_eq!(r, Err("Number of cols exceeds matrix size"));
    let r = XMatrix::<3, 3>::parse("11\r0\n");
    assert_eq!(r, Err("Invalid character in input string"));
    let r = XMatrix::<3, 3>::parse("110\r\r\n");
    assert_eq!(r, Err("Number of cols exceeds matrix size"));
}

#[test]
fn test_parse_fewer_lines() {
    let x = XMatrix::<3, 3>::parse("").unwrap();
    assert_eq!(x.serialize(), "000\n000\n000\n");
    let y = XMatrix::<3, 3>::parse("101\n011\n").unwrap();
    assert_eq!(y.serialize(), "101\n011\n000\n");
    let z = XMatrix::<3, 0>::parse("\n\n").unwrap();
    assert_eq!(z.serialize(), "\n\n\n");
}

#[test]
fn test_parse_too_few_cols() {
    let r = XMatrix::<3, 3>::parse("1\n");
    assert_eq!(r, Err("Number of cols falls short of matrix size"));
    let r = XMatrix::<3, 3>::parse("110\n\n000\n");
    assert_eq!(r, Err("Number of cols falls short of matrix size"));
    let r = XMatrix::<3, 3>::parse("110\n001\n00");
    assert_eq!(r, Err("Number of cols falls short of matrix size"));
    let r = XMatrix::<3, 3>::parse("11\r\n");
    assert_eq!(r, Err("Number of cols falls short of matrix size"));
    let r = XMatrix::<3, 3>::parse("1x\n");
    assert_eq!(r, Err("Invalid character in input string"));
    let r = XMatrix::<3, 3>::parse("\n1x1\n");
    assert_eq!(r, Err("Number of cols falls short of matrix size"));
}

#[test]
fn test_format_error_messages() {
    assert_eq!(FormatError::TooManyRows.message(), "Number of rows exceeds matrix size");
    assert_eq!(FormatError::TooManyCols.message(), "Number of cols exceeds matrix size");
    assert_eq!(FormatError::TooFewCols.message(), "Number of cols falls short of matrix size");
    assert_eq!(FormatError::InvalidChar.message(), "Invalid character in input string");
}

#[test]
fn test_iterator_step_by_step() {
    let x = XMatrix::<2, 3>::parse("101\n011\n").unwrap();
    let mut it = x.row(0);
    assert_eq!(it.next(), Some(1));
    assert_eq!(it.next(), Some(0));
    assert_eq!(it.next(), Some(1));
    assert_eq!(it.next(), None);
    assert_eq!(it.next(), None);
    let mut again = x.row(0);
    assert_eq!(again.next(), Some(1));
    assert_eq!(again.collect(), vec![0, 1]);
}

#[test]
fn test_iterators_of_a_wide_matrix() {
    let x = XMatrix::<2, 3>::parse("101\n011\n").unwrap();
    assert_eq!(x.col(2).collect(), vec![1, 1]);
    assert_eq!(x.diagonal().collect(), vec![1, 1]);
    assert_eq!(x.values().collect(), vec![1, 0, 1, 0, 1, 1]);
    let y = XMatrix::<3, 2>::parse("10\n01\n11\n").unwrap();
    assert_eq!(y.diagonal().collect(), vec![1, 1]);
    assert_eq!(y.values().collect(), vec![1, 0, 0, 1, 1, 1]);
}

#[test]
fn test_iterators_of_an_empty_matrix() {
    let x = XMatrix::<3, 0>::new();
    assert_eq!(x.row(1).collect(), Vec::<u8>::new());
    assert_eq!(x.diagonal().collect(), Vec::<u8>::new());
    assert_eq!(x.values().collect(), Vec::<u8>::new());
    let y = XMatrix::<0, 3>::new();
    assert_eq!(y.col(1).collect(), Vec::<u8>::new());
    assert_eq!(y.values().collect(), Vec::<u8>::new());
    assert_eq!(y.serialize(), "");
    assert_eq!(x.serialize(), "\n\n\n");
    assert_eq!(x.rank(), 0);
}

#[test]
fn test_same_as() {
    let x = XMatrix::<2, 3>::parse("101\n011\n").unwrap();
    let mut y = x;
    assert!(x.same_as(&y));
    y.set(1, 0, 1);
    assert!(!x.same_as(&y));
    y.set(1, 0, 0);
    assert!(x.same_as(&y));
}

#[test]
fn test_rand_holds_bits() {
    for _ in 0..20 {
        let x = XMatrix::<4, 5>::rand();
        for v in x.values().collect() {
            assert!(v <= 1);
        }
        assert!(x.rank() <= 4);
        assert_eq!(XMatrix::<4, 5>::parse(&x.serialize()).unwrap(), x);
    }
}

#[test]
fn test_identity_rank() {
    assert_eq!(XMatrix::<5, 5>::identity().rank(), 5);
    assert_eq!(XMatrix::<5, 5>::identity().serialize(), "10000\n01000\n00100\n00010\n00001\n");
}

#[test]
fn test_from_draws() {
    let x = XMatrix::<2, 3>::from_draws(&vec![1, 0, 1, 0, 1, 1]);
    assert_eq!(x.serialize(), "101\n011\n");
    let y = XMatrix::<3, 2>::from_draws(&vec![1, 0, 1, 0, 1, 1]);
    assert_eq!(y.serialize(), "10\n10\n11\n");
    let z = XMatrix::<2, 2>::from_draws(&vec![0, 0, 0, 0]);
    assert_eq!(z, XMatrix::<2, 2>::new());
    let w = XMatrix::<2, 2>::from_draws(&vec![1, 2, 0, 7]);
    assert_eq!(w.serialize(), "10\n00\n");
    let e = XMatrix::<0, 3>::from_draws(&vec![]);
    assert_eq!(e.serialize(), "");
}

#[test]
fn test_rand_draws_both_bits() {
    let mut zeros = 0;
    let mut ones = 0;
    for _ in 0..50 {
        for v in XMatrix::<4, 4>::rand().values().collect() {
            if v == 1 {
                ones += 1;
            } else {
                zeros += 1;
            }
        }
    }
    assert_eq!(zeros + ones, 800);
    assert!(zeros > 0);
    assert!(ones > 0);
}
