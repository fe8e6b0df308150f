//! When a masking state gives a value away, and when it is an end state.
//!
//! A row of the matrix is a physical register, a column one of the cipher
//! or key values. Columns `2p` and `2p + 1` are the two halves of pair `p`.

use crate::gf2::diagonal_matrix;
use vstd::prelude::*;

verus! {

/// The number of ones among the first `n` bits of `row`.
pub open spec fn ones_upto(row: Seq<bool>, n: int) -> nat
    decreases n,
{
    if n <= 0 {
        0
    } else {
        ones_upto(row, n - 1) + if row[n - 1] {
            1nat
        } else {
            0nat
        }
    }
}

/// The number of ones in `row`.
pub open spec fn ones(row: Seq<bool>) -> nat {
    ones_upto(row, row.len() as int)
}

/// Whether `row` holds both halves of some pair and nothing else: two
/// ones, in the columns `2p` and `2p + 1` of one `p`.
pub open spec fn row_is_plaintext(row: Seq<bool>) -> bool {
    ones(row) == 2 && exists|p: int| 0 <= p < row.len() / 2 && row[2 * p] && #[trigger] row[2 * p + 1]
}

/// Whether some register of `m` holds a value unmasked by holding both
/// halves of its pair and nothing else.
pub open spec fn exposes_plaintext(m: Seq<Seq<bool>>) -> bool {
    exists|r: int| 0 <= r < m.len() && row_is_plaintext(#[trigger] m[r])
}

/// Whether `row` holds the value of column `c` and nothing else.
pub open spec fn row_is_unit(row: Seq<bool>, c: int) -> bool {
    ones(row) == 1 && row[c]
}

/// Whether column `c` is held alone by some register of `m`.
pub open spec fn covers(m: Seq<Seq<bool>>, c: int) -> bool {
    exists|r: int| 0 <= r < m.len() && row_is_unit(#[trigger] m[r], c)
}

/// Whether each of the `cols` values is held alone by some register of
/// `m`. Two registers may hold the same value.
pub open spec fn is_end_state(m: Seq<Seq<bool>>, cols: nat) -> bool {
    forall|c: int| 0 <= c < cols ==> covers(m, c)
}

/// The ones of a row that is zero but for column `c`.
proof fn lemma_ones_of_unit(row: Seq<bool>, c: int, n: int)
    requires
        0 <= n <= row.len(),
        forall|j: int| 0 <= j < row.len() ==> row[j] == (j == c),
    ensures
        ones_upto(row, n) == if 0 <= c < n {
            1nat
        } else {
            0nat
        },
    decreases n,
{
    if n > 0 {
        lemma_ones_of_unit(row, c, n - 1);
    }
}

/// A row with a single one has it where its first one-bit is found.
pub proof fn lemma_unit_row(row: Seq<bool>, c: int, d: int)
    requires
        ones(row) == 1,
        0 <= c < row.len(),
        0 <= d < row.len(),
        row[c],
        row[d],
    ensures
        c == d,
{
    lemma_ones_at_least(row, c, row.len() as int);
    lemma_ones_at_least(row, d, row.len() as int);
    if c < d {
        lemma_ones_two(row, c, d, row.len() as int);
    } else if d < c {
        lemma_ones_two(row, d, c, row.len() as int);
    }
}

proof fn lemma_ones_at_least(row: Seq<bool>, c: int, n: int)
    requires
        0 <= c < n,
        row[c],
    ensures
        ones_upto(row, n) >= 1,
    decreases n,
{
    if c < n - 1 {
        lemma_ones_at_least(row, c, n - 1);
    }
}

proof fn lemma_ones_two(row: Seq<bool>, c: int, d: int, n: int)
    requires
        0 <= c < d < n,
        row[c],
        row[d],
    ensures
        ones_upto(row, n) >= 2,
    decreases n,
{
    if d < n - 1 {
        lemma_ones_two(row, c, d, n - 1);
    } else {
        lemma_ones_at_least(row, c, n - 1);
    }
}

/// In the layout with ones on the main diagonal no register gives a value
/// away.
pub proof fn lemma_diagonal_hides(rows: nat, cols: nat)
    ensures
        !exposes_plaintext(diagonal_matrix(rows, cols)),
{
    let m = diagonal_matrix(rows, cols);
    assert forall|r: int| 0 <= r < m.len() implies !row_is_plaintext(#[trigger] m[r]) by {
        lemma_ones_of_unit(m[r], r, cols as int);
    }
}

/// The layout with ones on the main diagonal is an end state where it has
/// a register for every value.
pub proof fn lemma_diagonal_is_end_state(rows: nat, cols: nat)
    requires
        rows >= cols,
    ensures
        is_end_state(diagonal_matrix(rows, cols), cols),
{
    let m = diagonal_matrix(rows, cols);
    assert forall|c: int| 0 <= c < cols implies covers(m, c) by {
        lemma_ones_of_unit(m[c], c, cols as int);
        assert(row_is_unit(m[c], c));
    }
}

} // verus!
