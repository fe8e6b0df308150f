//! What holds of the row operations, the row-echelon form and the rank of
//! every matrix.

use crate::echelon::{
    lemma_rank_of_row_added, lemma_rank_of_rows_swapped, lemma_row_echelon_form,
    lemma_row_echelon_form_fixed,
};
use crate::gf2::{is_echelon, rank_of, rect, row_added, row_echelon_form, rows_swapped};
use crate::safety::exposes_plaintext;
use crate::swap::XMatrix;
use crate::walk::{is_safe_step, Pairing};
use crate::text::{
    is_matrix_text, lemma_parsed_serialized, lemma_serialized_is_matrix_text,
    lemma_serialized_parsed, parsed, serialized, FormatError,
};
use vstd::prelude::*;

verus! {

/// Adding row `b` into row `a` twice gives the matrix back, where `a` and
/// `b` are two rows, or row `a` is zero.
pub proof fn lemma_add_row_twice<const R: usize, const C: usize>(
    x: XMatrix<R, C>,
    a: usize,
    b: usize,
)
    requires
        a < R,
        b < R,
        a != b || !x@[a as int].contains(true),
    ensures
        row_added(row_added(x@, a as int, b as int), a as int, b as int) == x@,
{
    let m = x@;
    if a == b {
        assert forall|c: int| 0 <= c < C implies !m[a as int][c] by {
            if m[a as int][c] {
                assert(m[a as int].contains(true));
            }
        }
    }
    assert(row_added(row_added(m, a as int, b as int), a as int, b as int) =~~= m);
}

/// Swapping two rows leaves the rank as it is.
pub proof fn lemma_rank_after_swap_rows<const R: usize, const C: usize>(
    x: XMatrix<R, C>,
    a: usize,
    b: usize,
)
    requires
        a < R,
        b < R,
    ensures
        rank_of(rows_swapped(x@, a as int, b as int)) == rank_of(x@),
{
    assert(rect(x@, R as nat, C as nat));
    lemma_rank_of_rows_swapped(x@, a as int, b as int, C as nat);
}

/// Adding row `b` into row `a` leaves the rank as it is, where `a` and `b`
/// are two rows, or row `a` is zero.
pub proof fn lemma_rank_after_add_row<const R: usize, const C: usize>(
    x: XMatrix<R, C>,
    a: usize,
    b: usize,
)
    requires
        a < R,
        b < R,
        a != b || !x@[a as int].contains(true),
    ensures
        rank_of(row_added(x@, a as int, b as int)) == rank_of(x@),
{
    assert(rect(x@, R as nat, C as nat));
    if a != b {
        lemma_rank_of_row_added(x@, a as int, b as int, C as nat);
    } else {
        lemma_add_row_twice(x, a, b);
        let m = x@;
        assert forall|c: int| 0 <= c < C implies !m[a as int][c] by {
            if m[a as int][c] {
                assert(m[a as int].contains(true));
            }
        }
        assert(row_added(m, a as int, b as int) =~~= m);
    }
}

/// Adding one row into another is a legal move exactly if it is a move
/// and the new state gives no value away: a move never changes the rank.
pub proof fn lemma_safe_step<const R: usize, const C: usize>(
    x: XMatrix<R, C>,
    pairing: Pairing,
    i: usize,
    j: usize,
)
    requires
        i < R,
        j < R,
    ensures
        is_safe_step(x@, pairing, i as int, j as int) == (pairing.pairs(i as int, j as int)
            && !exposes_plaintext(row_added(x@, i as int, j as int))),
{
    if i != j {
        lemma_rank_after_add_row(x, i, j);
    }
}

/// The row-echelon form has echelon shape: below a zero row stand only
/// zero rows, and the leading one of every other row stands strictly
/// further right than that of the row above.
pub proof fn lemma_row_echelon_shape<const R: usize, const C: usize>(x: XMatrix<R, C>)
    ensures
        is_echelon(row_echelon_form(x@)),
        rect(row_echelon_form(x@), R as nat, C as nat),
{
    assert(rect(x@, R as nat, C as nat));
    lemma_row_echelon_form(x@, C as nat);
}

/// Reducing a row-echelon form again changes nothing.
pub proof fn lemma_row_echelon_twice<const R: usize, const C: usize>(x: XMatrix<R, C>)
    ensures
        row_echelon_form(row_echelon_form(x@)) == row_echelon_form(x@),
{
    assert(rect(x@, R as nat, C as nat));
    lemma_row_echelon_form(x@, C as nat);
    lemma_row_echelon_form_fixed(row_echelon_form(x@), C as nat);
}

/// The text of a matrix is read back as that matrix.
pub proof fn lemma_parse_serialize<const R: usize, const C: usize>(x: XMatrix<R, C>)
    ensures
        parsed(serialized(x@), R as nat, C as nat) == Ok::<Seq<Seq<bool>>, FormatError>(x@),
        is_matrix_text(serialized(x@), R as nat, C as nat),
{
    assert(rect(x@, R as nat, C as nat));
    lemma_parsed_serialized(x@, C as nat);
    lemma_serialized_is_matrix_text(x@, C as nat);
}

/// A text of `rows` lines, each of `cols` characters `0` or `1` and a
/// newline, is read as a matrix, and the text of that matrix is the text
/// that was read.
pub proof fn lemma_serialize_parse(s: Seq<char>, rows: nat, cols: nat)
    requires
        is_matrix_text(s, rows, cols),
    ensures
        parsed(s, rows, cols) is Ok,
        serialized(parsed(s, rows, cols)->Ok_0) == s,
{
    lemma_serialized_parsed(s, rows, cols);
}

} // verus!
