//! Arithmetic on a register file in which a value is kept as two
//! registers whose exclusive or it is. A register index is taken modulo
//! the number of registers.

use vstd::prelude::*;

verus! {

/// The value that registers `x` and `y` hold between them.
pub open spec fn masked(reg: Seq<i32>, x: int, y: int) -> i32 {
    reg[x % (reg.len() as int)] ^ reg[y % (reg.len() as int)]
}

/// The quotient of `x` by `y`, rounded towards zero.
pub open spec fn quotient(x: int, y: int) -> int {
    if x >= 0 && y > 0 {
        x / y
    } else if x >= 0 {
        -(x / (-y))
    } else if y > 0 {
        -((-x) / y)
    } else {
        (-x) / (-y)
    }
}

/// The quotient of two machine numbers is a machine number, but for the
/// least of them divided by -1.
proof fn lemma_quotient_fits(x: int, y: int)
    requires
        i32::MIN <= x <= i32::MAX,
        i32::MIN <= y <= i32::MAX,
        y != 0,
        !(x == i32::MIN && y == -1),
    ensures
        i32::MIN <= quotient(x, y) <= i32::MAX,
{
    let ax = if x >= 0 {
        x
    } else {
        -x
    };
    let ay = if y > 0 {
        y
    } else {
        -y
    };
    assert(0 <= ax / ay <= ax && (ay >= 2 ==> 2 * (ax / ay) <= ax)) by (nonlinear_arith)
        requires
            ax >= 0,
            ay >= 1,
    ;
}

/// Applies `f` to the values held by the pairs `(a_x, a_y)` and
/// `(b_x, b_y)`, and stores the result in register `c_x`, masked by
/// register `c_y`.
pub fn xop<const N: usize, F: Fn(i32, i32) -> i32>(
    reg: &mut [i32; N],
    a_x: usize,
    a_y: usize,
    b_x: usize,
    b_y: usize,
    c_x: usize,
    c_y: usize,
    f: F,
)
    requires
        N > 0,
        call_requires(
            f,
            (
                masked(old(reg)@, a_x as int, a_y as int),
                masked(old(reg)@, b_x as int, b_y as int),
            ),
        ),
    ensures
        exists|v: i32|
            #![trigger call_ensures(f, (masked(old(reg)@, a_x as int, a_y as int), masked(old(reg)@, b_x as int, b_y as int)), v)]
            call_ensures(
                f,
                (
                    masked(old(reg)@, a_x as int, a_y as int),
                    masked(old(reg)@, b_x as int, b_y as int),
                ),
                v,
            ) && final(reg)@ == old(reg)@.update(
                (c_x % N) as int,
                v ^ old(reg)@[(c_y % N) as int],
            ),
{
    let a = reg[a_x % N] ^ reg[a_y % N];
    let b = reg[b_x % N] ^ reg[b_y % N];
    let v = f(a, b);
    let masked_v = v ^ reg[c_y % N];
    reg[c_x % N] = masked_v;
}

/// Stores the sum of the two values in register `c_x`, masked by
/// register `c_y`.
pub fn add<const N: usize>(
    reg: &mut [i32; N],
    a_x: usize,
    a_y: usize,
    b_x: usize,
    b_y: usize,
    c_x: usize,
    c_y: usize,
)
    requires
        N > 0,
        i32::MIN <= masked(old(reg)@, a_x as int, a_y as int) + masked(
            old(reg)@,
            b_x as int,
            b_y as int,
        ) <= i32::MAX,
    ensures
        final(reg)@ == old(reg)@.update(
            (c_x % N) as int,
            ((masked(old(reg)@, a_x as int, a_y as int) + masked(
                old(reg)@,
                b_x as int,
                b_y as int,
            )) as i32) ^ old(reg)@[(c_y % N) as int],
        ),
{
    let f = |x: i32, y: i32| -> (z: i32)
        requires
            i32::MIN <= x + y <= i32::MAX,
        ensures
            z == x + y,
        {
            x + y
        };
    xop(reg, a_x, a_y, b_x, b_y, c_x, c_y, f);
}

/// Stores the difference of the two values in register `c_x`, masked by
/// register `c_y`.
pub fn sub<const N: usize>(
    reg: &mut [i32; N],
    a_x: usize,
    a_y: usize,
    b_x: usize,
    b_y: usize,
    c_x: usize,
    c_y: usize,
)
    requires
        N > 0,
        i32::MIN <= masked(old(reg)@, a_x as int, a_y as int) - masked(
            old(reg)@,
            b_x as int,
            b_y as int,
        ) <= i32::MAX,
    ensures
        final(reg)@ == old(reg)@.update(
            (c_x % N) as int,
            ((masked(old(reg)@, a_x as int, a_y as int) - masked(
                old(reg)@,
                b_x as int,
                b_y as int,
            )) as i32) ^ old(reg)@[(c_y % N) as int],
        ),
{
    let f = |x: i32, y: i32| -> (z: i32)
        requires
            i32::MIN <= x - y <= i32::MAX,
        ensures
            z == x - y,
        {
            x - y
        };
    xop(reg, a_x, a_y, b_x, b_y, c_x, c_y, f);
}

/// Stores the product of the two values in register `c_x`, masked by
/// register `c_y`.
pub fn mul<const N: usize>(
    reg: &mut [i32; N],
    a_x: usize,
    a_y: usize,
    b_x: usize,
    b_y: usize,
    c_x: usize,
    c_y: usize,
)
    requires
        N > 0,
        i32::MIN <= masked(old(reg)@, a_x as int, a_y as int) * masked(
            old(reg)@,
            b_x as int,
            b_y as int,
        ) <= i32::MAX,
    ensures
        final(reg)@ == old(reg)@.update(
            (c_x % N) as int,
            ((masked(old(reg)@, a_x as int, a_y as int) * masked(
                old(reg)@,
                b_x as int,
                b_y as int,
            )) as i32) ^ old(reg)@[(c_y % N) as int],
        ),
{
    let f = |x: i32, y: i32| -> (z: i32)
        requires
            i32::MIN <= x * y <= i32::MAX,
        ensures
            z == x * y,
        {
            x * y
        };
    xop(reg, a_x, a_y, b_x, b_y, c_x, c_y, f);
}

/// Stores the quotient of the two values, rounded towards zero, in
/// register `c_x`, masked by register `c_y`.
pub fn div<const N: usize>(
    reg: &mut [i32; N],
    a_x: usize,
    a_y: usize,
    b_x: usize,
    b_y: usize,
    c_x: usize,
    c_y: usize,
)
    requires
        N > 0,
        masked(old(reg)@, b_x as int, b_y as int) != 0,
        !(masked(old(reg)@, a_x as int, a_y as int) == i32::MIN && masked(
            old(reg)@,
            b_x as int,
            b_y as int,
        ) == -1),
    ensures
        final(reg)@ == old(reg)@.update(
            (c_x % N) as int,
            (quotient(
                masked(old(reg)@, a_x as int, a_y as int) as int,
                masked(old(reg)@, b_x as int, b_y as int) as int,
            ) as i32) ^ old(reg)@[(c_y % N) as int],
        ),
{
    let f = |x: i32, y: i32| -> (z: i32)
        requires
            y != 0,
            !(x == i32::MIN && y == -1),
        ensures
            z == quotient(x as int, y as int),
        {
            proof {
                lemma_quotient_fits(x as int, y as int);
            }
            // The divisor is not zero and the quotient fits, so the
            // checked division gives a number.
            match x.checked_div(y) {
                Some(z) => z,
                None => 0,
            }
        };
    xop(reg, a_x, a_y, b_x, b_y, c_x, c_y, f);
}

/// Exchanges what registers `x` and `y` hold.
pub fn swap<const N: usize>(reg: &mut [i32; N], x: usize, y: usize)
    requires
        N > 0,
    ensures
        final(reg)@ == old(reg)@.update((x % N) as int, old(reg)@[(y % N) as int]).update(
            (y % N) as int,
            old(reg)@[(x % N) as int],
        ),
{
    let at_x = reg[x % N];
    let at_y = reg[y % N];
    reg[x % N] = at_y;
    reg[y % N] = at_x;
}

/// Copies what register `x` holds into register `y`.
pub fn move_reg<const N: usize>(reg: &mut [i32; N], x: usize, y: usize)
    requires
        N > 0,
    ensures
        final(reg)@ == old(reg)@.update((y % N) as int, old(reg)@[(x % N) as int]),
{
    let at_x = reg[x % N];
    reg[y % N] = at_x;
}

} // verus!
