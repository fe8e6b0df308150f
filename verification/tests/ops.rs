//! The masked register operations on concrete register files.

fn setup_reg<const N: usize>(x: i32, y: i32, z: i32) -> [i32; N] {
    assert!(N >= 6, "Register array must be at least 6 elements long");
    let mut reg = [0; N];
    reg[0] = 0x7ABC1234 ^ x;
    reg[1] = 0x7ABC1234;
    reg[2] = 0x1234ABCD ^ y;
    reg[3] = 0x1234ABCD;
    reg[4] = 0x1337BEEF ^ z;
    reg[5] = 0x1337BEEF;
    reg
}

#[test]
fn test_add() {
    let mut reg: [i32; 8] = setup_reg(222, 333, 100);
    xorpl::ops::add(&mut reg, 0, 1, 2, 3, 4, 5);
    assert_eq!(reg[4], 0x1337BEEF ^ 555);
}

#[test]
fn test_sub() {
    let mut reg: [i32; 8] = setup_reg(222, 333, 100);
    xorpl::ops::sub(&mut reg, 0, 1, 2, 3, 4, 5);
    assert_eq!(reg[4], 0x1337BEEF ^ -111);
}

#[test]
fn test_mul() {
    let mut reg: [i32; 8] = setup_reg(222, 333, 100);
    xorpl::ops::mul(&mut reg, 0, 1, 2, 3, 4, 5);
    assert_eq!(reg[4], 0x1337BEEF ^ (222 * 333));
}

#[test]
fn test_div() {
    let mut reg: [i32; 8] = setup_reg(222, 333, 100);
    xorpl::ops::div(&mut reg, 0, 1, 2, 3, 4, 5);
    assert_eq!(reg[4], 0x1337BEEF ^ (222 / 333));
}

#[test]
fn test_swap() {
    let mut reg: [i32; 8] = setup_reg(222, 333, 100);
    xorpl::ops::swap(&mut reg, 0, 1);
    assert_eq!(reg[0], 0x7ABC1234);
    assert_eq!(reg[1], 0x7ABC1234 ^ 222);
}

#[test]
fn test_move_reg() {
    let mut reg: [i32; 8] = setup_reg(222, 333, 100);
    xorpl::ops::move_reg(&mut reg, 0, 1);
    assert_eq!(reg[0], 0x7ABC1234 ^ 222);
    assert_eq!(reg[1], 0x7ABC1234 ^ 222);
}

#[test]
fn test_ops_leave_other_registers() {
    let mut reg: [i32; 8] = setup_reg(222, 333, 100);
    let before = reg;
    xorpl::ops::add(&mut reg, 0, 1, 2, 3, 4, 5);
    for i in 0..8 {
        if i != 4 {
            assert_eq!(reg[i], before[i]);
        }
    }
}

#[test]
fn test_indices_wrap_around() {
    let mut reg: [i32; 8] = setup_reg(222, 333, 100);
    xorpl::ops::add(&mut reg, 8, 9, 10, 11, 12, 13);
    assert_eq!(reg[4], 0x1337BEEF ^ 555);
    xorpl::ops::move_reg(&mut reg, 16, 23);
    assert_eq!(reg[7], 0x7ABC1234 ^ 222);
    xorpl::ops::swap(&mut reg, 17, 10);
    assert_eq!(reg[1], 0x1234ABCD ^ 333);
    assert_eq!(reg[2], 0x7ABC1234);
}

#[test]
fn test_div_rounds_towards_zero() {
    let mut reg: [i32; 6] = setup_reg(-7, 2, 0);
    xorpl::ops::div(&mut reg, 0, 1, 2, 3, 4, 5);
    assert_eq!(reg[4], 0x1337BEEF ^ -3);
    let mut reg: [i32; 6] = setup_reg(7, -2, 0);
    xorpl::ops::div(&mut reg, 0, 1, 2, 3, 4, 5);
    assert_eq!(reg[4], 0x1337BEEF ^ -3);
    let mut reg: [i32; 6] = setup_reg(-7, -2, 0);
    xorpl::ops::div(&mut reg, 0, 1, 2, 3, 4, 5);
    assert_eq!(reg[4], 0x1337BEEF ^ 3);
    let mut reg: [i32; 6] = setup_reg(0, -2, 0);
    xorpl::ops::div(&mut reg, 0, 1, 2, 3, 4, 5);
    assert_eq!(reg[4], 0x1337BEEF);
}

#[test]
fn test_xop_applies_the_function() {
    let mut reg: [i32; 6] = setup_reg(12, 10, 0);
    xorpl::ops::xop(&mut reg, 0, 1, 2, 3, 4, 5, |x, y| x & y);
    assert_eq!(reg[4], 0x1337BEEF ^ 8);
    assert_eq!(reg[5], 0x1337BEEF);
}

#[test]
fn test_swap_of_one_register() {
    let mut reg: [i32; 6] = setup_reg(1, 2, 3);
    let before = reg;
    xorpl::ops::swap(&mut reg, 2, 8);
    assert_eq!(reg, before);
}
