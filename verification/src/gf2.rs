//! Linear algebra over GF(2) on the mathematical model of a matrix: a
//! sequence of rows, each a sequence of bits.

use vstd::prelude::*;

verus! {

/// Whether `m` has `rows` rows of `cols` bits each.
pub open spec fn rect(m: Seq<Seq<bool>>, rows: nat, cols: nat) -> bool {
    &&& m.len() == rows
    &&& forall|r: int| 0 <= r < rows ==> (#[trigger] m[r]).len() == cols
}

/// The number of columns of `m`: the length of its first row.
pub open spec fn width(m: Seq<Seq<bool>>) -> nat {
    if m.len() == 0 {
        0
    } else {
        m[0].len()
    }
}

/// The matrix of `rows` by `cols` zero bits.
pub open spec fn zero_matrix(rows: nat, cols: nat) -> Seq<Seq<bool>> {
    Seq::new(rows, |r: int| Seq::new(cols, |c: int| false))
}

/// The matrix with ones on the main diagonal and zeros elsewhere.
pub open spec fn diagonal_matrix(rows: nat, cols: nat) -> Seq<Seq<bool>> {
    Seq::new(rows, |r: int| Seq::new(cols, |c: int| r == c))
}

/// Bitwise sum of two rows over GF(2).
pub open spec fn xor_rows(a: Seq<bool>, b: Seq<bool>) -> Seq<bool> {
    Seq::new(a.len(), |c: int| a[c] != b[c])
}

/// `m` with rows `a` and `b` exchanged.
pub open spec fn rows_swapped(m: Seq<Seq<bool>>, a: int, b: int) -> Seq<Seq<bool>> {
    m.update(a, m[b]).update(b, m[a])
}

/// `m` with row `b` added into row `a`.
pub open spec fn row_added(m: Seq<Seq<bool>>, a: int, b: int) -> Seq<Seq<bool>> {
    m.update(a, xor_rows(m[a], m[b]))
}

/// The first row at or below `from` that has a one in column `c`, or the
/// number of rows if there is none.
pub open spec fn pivot_row(m: Seq<Seq<bool>>, from: int, c: int) -> int
    decreases m.len() - from,
{
    if from >= m.len() {
        m.len() as int
    } else if m[from][c] {
        from
    } else {
        pivot_row(m, from + 1, c)
    }
}

/// `m` with row `lead` added into every row strictly between `lead` and
/// `upto` that has a one in column `c`.
pub open spec fn cleared_upto(m: Seq<Seq<bool>>, lead: int, c: int, upto: int) -> Seq<Seq<bool>> {
    Seq::new(
        m.len(),
        |r: int|
            if lead < r < upto && m[r][c] {
                xor_rows(m[r], m[lead])
            } else {
                m[r]
            },
    )
}

/// `m` with row `lead` added into every row below it that has a one in
/// column `c`.
pub open spec fn cleared_below(m: Seq<Seq<bool>>, lead: int, c: int) -> Seq<Seq<bool>> {
    cleared_upto(m, lead, c, m.len() as int)
}

/// One elimination step on column `c`, which has a pivot at or below row
/// `lead`: the pivot row is swapped into row `lead` and then cleared from
/// the rows below.
pub open spec fn reduce_column(m: Seq<Seq<bool>>, lead: int, c: int) -> Seq<Seq<bool>> {
    cleared_below(rows_swapped(m, lead, pivot_row(m, lead, c)), lead, c)
}

/// Gaussian elimination of columns `c..cols`, with `lead` the next pivot
/// row. A column without a one at or below row `lead` is passed over.
pub open spec fn echelon_from(m: Seq<Seq<bool>>, lead: int, c: int, cols: int) -> Seq<Seq<bool>>
    decreases cols - c,
{
    if c >= cols {
        m
    } else if pivot_row(m, lead, c) < m.len() {
        echelon_from(reduce_column(m, lead, c), lead + 1, c + 1, cols)
    } else {
        echelon_from(m, lead, c + 1, cols)
    }
}

/// The row-echelon form that elimination from the left produces.
pub open spec fn row_echelon_form(m: Seq<Seq<bool>>) -> Seq<Seq<bool>> {
    echelon_from(m, 0, 0, width(m) as int)
}

/// The number of rows of `m` that hold a one.
pub open spec fn nonzero_rows(m: Seq<Seq<bool>>) -> nat
    decreases m.len(),
{
    if m.len() == 0 {
        0
    } else {
        nonzero_rows(m.drop_last()) + if m.last().contains(true) {
            1nat
        } else {
            0nat
        }
    }
}

/// The rank of `m` over GF(2): the number of non-zero rows of its
/// row-echelon form.
pub open spec fn rank_of(m: Seq<Seq<bool>>) -> nat {
    nonzero_rows(row_echelon_form(m))
}

/// The column of the first one in `v` at or after `from`, or the length
/// of `v` if there is none.
pub open spec fn first_one(v: Seq<bool>, from: int) -> int
    decreases v.len() - from,
{
    if from >= v.len() {
        v.len() as int
    } else if v[from] {
        from
    } else {
        first_one(v, from + 1)
    }
}

/// The column of the leading one of `v`, or the length of `v` if `v` is
/// zero.
pub open spec fn leading(v: Seq<bool>) -> int {
    first_one(v, 0)
}

/// Echelon shape: a row that holds a one has only rows above it that hold
/// a one too, each with its leading one strictly further left.
pub open spec fn is_echelon(m: Seq<Seq<bool>>) -> bool {
    forall|i: int, j: int|
        0 <= i < j < m.len() && (#[trigger] m[j]).contains(true) ==> leading(#[trigger] m[i])
            < leading(m[j])
}

/// The matrix of `rows` by `cols` whose bits, row after row, are the
/// draws: a bit is one where its draw is 1.
pub open spec fn drawn_bits(draws: Seq<usize>, rows: nat, cols: nat) -> Seq<Seq<bool>> {
    Seq::new(rows, |r: int| Seq::new(cols, |c: int| draws[r * cols + c] == 1))
}

} // verus!
