//! Why elimination from the left ends in echelon shape, and why the number
//! of non-zero rows it leaves depends on the row space alone.

use crate::gf2::{
    cleared_below, diagonal_matrix, echelon_from, first_one, is_echelon, leading, nonzero_rows,
    pivot_row, rank_of, rect, reduce_column, row_added, row_echelon_form, rows_swapped, width,
};
use crate::span::{
    count_leads, dot, lemma_count_leads_bound, lemma_count_leads_same, lemma_spans_lead_cleared,
    lemma_spans_lead_row_added, lemma_spans_lead_rows_swapped, selects_lead, spans_lead,
};
use vstd::prelude::*;

verus! {

/// What `first_one` finds: no one from `from` up to the result, and a one
/// at the result unless it is the length.
pub proof fn lemma_first_one(v: Seq<bool>, from: int)
    requires
        0 <= from <= v.len(),
    ensures
        from <= first_one(v, from) <= v.len(),
        forall|j: int| from <= j < first_one(v, from) ==> !v[j],
        first_one(v, from) < v.len() ==> v[first_one(v, from)],
    decreases v.len() - from,
{
    if from < v.len() && !v[from] {
        lemma_first_one(v, from + 1);
    }
}

/// The leading one of `v` is its first one, and `v` has one exactly if it
/// holds a one at all.
pub proof fn lemma_leading(v: Seq<bool>)
    ensures
        0 <= leading(v) <= v.len(),
        forall|j: int| 0 <= j < leading(v) ==> !v[j],
        leading(v) < v.len() ==> v[leading(v)],
        (leading(v) < v.len()) == v.contains(true),
{
    lemma_first_one(v, 0);
    if v.contains(true) {
        let i = choose|i: int| 0 <= i < v.len() && v[i];
        assert(v[i]);
    }
}

/// A one with no one before it is the leading one.
pub proof fn lemma_leading_is(v: Seq<bool>, c: int)
    requires
        0 <= c < v.len(),
        v[c],
        forall|j: int| 0 <= j < c ==> !v[j],
    ensures
        leading(v) == c,
{
    lemma_first_one(v, 0);
}

/// What `pivot_row` finds: no one in column `c` from row `from` up to the
/// result, and a one at the result unless it is the number of rows.
pub proof fn lemma_pivot_row(m: Seq<Seq<bool>>, from: int, c: int)
    requires
        0 <= from <= m.len(),
    ensures
        from <= pivot_row(m, from, c) <= m.len(),
        forall|r: int| from <= r < pivot_row(m, from, c) ==> !m[r][c],
        pivot_row(m, from, c) < m.len() ==> m[pivot_row(m, from, c)][c],
    decreases m.len() - from,
{
    if from < m.len() && !m[from][c] {
        lemma_pivot_row(m, from + 1, c);
    }
}

/// The state of elimination before column `c`: the rows above `lead` have
/// their leading ones left of `c`, each further right than the one above,
/// and the other rows are zero left of `c`.
pub open spec fn staircase(m: Seq<Seq<bool>>, lead: int, c: int) -> bool {
    &&& 0 <= lead <= m.len()
    &&& forall|i: int| 0 <= i < lead ==> leading(#[trigger] m[i]) < c
    &&& forall|i: int, i2: int|
        0 <= i < i2 < lead ==> leading(#[trigger] m[i]) < leading(#[trigger] m[i2])
    &&& forall|r: int, j: int| lead <= r < m.len() && 0 <= j < c ==> !(#[trigger] m[r][j])
}

/// The selection of row `p` alone.
pub open spec fn only(rows: nat, p: int) -> Seq<bool> {
    Seq::new(rows, |i: int| i == p)
}

proof fn lemma_dot_unselected(m: Seq<Seq<bool>>, k: Seq<bool>, j: int, n: int)
    requires
        forall|i: int| 0 <= i < n ==> !(k[i] && #[trigger] m[i][j]),
    ensures
        !dot(m, k, j, n),
    decreases n,
{
    if n > 0 {
        lemma_dot_unselected(m, k, j, n - 1);
    }
}

proof fn lemma_dot_only(m: Seq<Seq<bool>>, p: int, j: int, n: int)
    requires
        0 <= p < m.len(),
        0 <= n <= m.len(),
    ensures
        dot(m, only(m.len(), p), j, n) == (p < n && m[p][j]),
    decreases n,
{
    if n > 0 {
        lemma_dot_only(m, p, j, n - 1);
    }
}

/// A sum that takes a row above `lead` has its leading one where the first
/// such row has it.
proof fn lemma_dot_top_row(
    m: Seq<Seq<bool>>,
    lead: int,
    c: int,
    cols: nat,
    k: Seq<bool>,
    t: int,
    n: int,
)
    requires
        rect(m, m.len(), cols),
        staircase(m, lead, c),
        c <= cols,
        k.len() == m.len(),
        0 <= t < lead,
        k[t],
        forall|i: int| 0 <= i < t ==> !k[i],
        t < n <= m.len(),
    ensures
        dot(m, k, leading(m[t]), n),
        forall|j: int| 0 <= j < leading(m[t]) ==> !dot(m, k, j, n),
    decreases n,
{
    let p = leading(m[t]);
    lemma_leading(m[t]);
    if n == t + 1 {
        assert forall|j: int| 0 <= j <= p implies dot(m, k, j, n) == m[t][j] by {
            lemma_dot_unselected(m, k, j, t);
        }
    } else {
        lemma_dot_top_row(m, lead, c, cols, k, t, n - 1);
        let i = n - 1;
        lemma_leading(m[i]);
        assert forall|j: int| 0 <= j <= p implies !m[i][j] by {
            if i < lead {
                assert(leading(m[t]) < leading(m[i]));
            } else {
                assert(leading(m[t]) < c);
            }
        }
        assert forall|j: int| 0 <= j <= p implies dot(m, k, j, n) == dot(m, k, j, n - 1) by {
            assert(!m[i][j]);
        }
    }
}

/// Before column `c`, a pivot for it exists exactly if the row space has a
/// vector with its leading one there.
proof fn lemma_pivot_iff_spans_lead(m: Seq<Seq<bool>>, lead: int, c: int, cols: nat)
    requires
        rect(m, m.len(), cols),
        staircase(m, lead, c),
        0 <= c < cols,
    ensures
        (pivot_row(m, lead, c) < m.len()) == spans_lead(m, c),
{
    let rows = m.len();
    lemma_pivot_row(m, lead, c);
    let p = pivot_row(m, lead, c);
    if p < rows {
        let k = only(rows, p);
        assert forall|j: int| 0 <= j <= c implies dot(m, k, j, rows as int) == m[p][j] by {
            lemma_dot_only(m, p, j, rows as int);
        }
        assert(selects_lead(m, k, c));
    }
    if spans_lead(m, c) {
        let k = choose|k: Seq<bool>| k.len() == m.len() && #[trigger] selects_lead(m, k, c);
        lemma_leading(k);
        let t = leading(k);
        if t < lead {
            lemma_dot_top_row(m, lead, c, cols, k, t, rows as int);
            lemma_leading(m[t]);
            assert(leading(m[t]) < c);
            assert(false);
        }
        if p >= rows {
            assert forall|i: int| 0 <= i < rows implies !(k[i] && #[trigger] m[i][c]) by {}
            lemma_dot_unselected(m, k, c, rows as int);
            assert(false);
        }
    }
}

/// With every column passed, the rows above `lead` are the non-zero ones
/// and the matrix has echelon shape.
proof fn lemma_staircase_done(m: Seq<Seq<bool>>, lead: int, cols: nat, n: int)
    requires
        rect(m, m.len(), cols),
        staircase(m, lead, cols as int),
        0 <= n <= m.len(),
    ensures
        nonzero_rows(m.take(n)) == if n < lead {
            n
        } else {
            lead
        },
        is_echelon(m),
    decreases n,
{
    if n > 0 {
        lemma_staircase_done(m, lead, cols, n - 1);
        assert(m.take(n).drop_last() =~= m.take(n - 1));
        lemma_leading(m[n - 1]);
        if n - 1 >= lead {
            let row = m[n - 1];
            if row.contains(true) {
                let j = choose|j: int| 0 <= j < row.len() && row[j];
                assert(!m[n - 1][j]);
            }
        } else {
            assert(leading(m[n - 1]) < cols);
        }
    } else {
        assert forall|i: int, j: int|
            0 <= i < j < m.len() && (#[trigger] m[j]).contains(true) implies leading(
            #[trigger] m[i],
        ) < leading(m[j]) by {
            lemma_leading(m[j]);
            if j >= lead {
                assert(!m[j][leading(m[j])]);
            }
        }
    }
}

/// One elimination step keeps the staircase and the leading columns of
/// the row space.
proof fn lemma_reduce_column(m: Seq<Seq<bool>>, lead: int, c: int, cols: nat)
    requires
        rect(m, m.len(), cols),
        staircase(m, lead, c),
        0 <= c < cols,
        pivot_row(m, lead, c) < m.len(),
    ensures
        rect(reduce_column(m, lead, c), m.len(), cols),
        staircase(reduce_column(m, lead, c), lead + 1, c + 1),
        forall|at: int|
            0 <= at < cols ==> spans_lead(reduce_column(m, lead, c), at) == spans_lead(m, at),
{
    lemma_pivot_row(m, lead, c);
    let p = pivot_row(m, lead, c);
    let m1 = rows_swapped(m, lead, p);
    let m2 = cleared_below(m1, lead, c);
    assert(rect(m1, m.len(), cols));
    assert(rect(m2, m.len(), cols));
    assert forall|at: int| 0 <= at < cols implies spans_lead(m2, at) == spans_lead(m, at) by {
        lemma_spans_lead_rows_swapped(m, lead, p, at);
        lemma_spans_lead_cleared(m1, lead, c, m.len() as int, at, cols);
    }
    assert forall|r: int, j: int| lead <= r < m.len() && 0 <= j < c implies !(#[trigger] m1[r][j]) by {
        if r == lead {
            assert(!m[p][j]);
        } else if r == p {
            assert(!m[lead][j]);
        } else {
            assert(!m[r][j]);
        }
    }
    assert(m2[lead] == m[p]);
    lemma_leading_is(m2[lead], c);
    assert forall|i: int| 0 <= i < lead + 1 implies leading(#[trigger] m2[i]) < c + 1 by {
        if i < lead {
            assert(m2[i] == m[i]);
        }
    }
    assert forall|i: int, i2: int| 0 <= i < i2 < lead + 1 implies leading(#[trigger] m2[i])
        < leading(#[trigger] m2[i2]) by {
        assert(m2[i] == m[i]);
        if i2 < lead {
            assert(m2[i2] == m[i2]);
        }
    }
    assert forall|r: int, j: int| lead + 1 <= r < m2.len() && 0 <= j < c + 1 implies !(
    #[trigger] m2[r][j]) by {
        if j < c {
            assert(!m1[r][j]);
            assert(!m1[lead][j]);
        }
    }
}

/// Elimination from a staircase ends in echelon shape with as many more
/// non-zero rows as the row space has leading columns left, and keeps the
/// leading columns of the row space.
proof fn lemma_echelon_from(m: Seq<Seq<bool>>, lead: int, c: int, cols: nat)
    requires
        rect(m, m.len(), cols),
        staircase(m, lead, c),
        0 <= c <= cols,
    ensures
        rect(echelon_from(m, lead, c, cols as int), m.len(), cols),
        is_echelon(echelon_from(m, lead, c, cols as int)),
        nonzero_rows(echelon_from(m, lead, c, cols as int)) == lead + count_leads(
            m,
            c,
            cols as int,
        ),
        forall|at: int|
            0 <= at < cols ==> spans_lead(echelon_from(m, lead, c, cols as int), at) == spans_lead(
                m,
                at,
            ),
    decreases cols - c,
{
    if c >= cols {
        lemma_staircase_done(m, lead, cols, m.len() as int);
        assert(m.take(m.len() as int) =~= m);
    } else {
        lemma_pivot_iff_spans_lead(m, lead, c, cols);
        lemma_pivot_row(m, lead, c);
        if pivot_row(m, lead, c) < m.len() {
            let m2 = reduce_column(m, lead, c);
            lemma_reduce_column(m, lead, c, cols);
            lemma_echelon_from(m2, lead + 1, c + 1, cols);
            lemma_count_leads_same(m2, m, c + 1, cols as int);
        } else {
            assert forall|r: int, j: int| lead <= r < m.len() && 0 <= j < c + 1 implies !(
            #[trigger] m[r][j]) by {}
            lemma_echelon_from(m, lead, c + 1, cols);
        }
    }
}

/// The rank is the number of columns in which some vector of the row space
/// has its leading one, and the row-echelon form has echelon shape, the
/// dimensions of the matrix and the leading columns of its row space.
pub proof fn lemma_row_echelon_form(m: Seq<Seq<bool>>, cols: nat)
    requires
        rect(m, m.len(), cols),
    ensures
        rect(row_echelon_form(m), m.len(), cols),
        is_echelon(row_echelon_form(m)),
        rank_of(m) == count_leads(m, 0, width(m) as int),
        forall|at: int|
            0 <= at < width(m) ==> spans_lead(row_echelon_form(m), at) == spans_lead(m, at),
{
    if m.len() == 0 {
        assert(is_echelon(m));
    } else {
        lemma_echelon_from(m, 0, 0, cols);
    }
}

/// Elimination leaves a matrix of echelon shape as it is.
proof fn lemma_echelon_fixed(m: Seq<Seq<bool>>, lead: int, c: int, cols: nat)
    requires
        rect(m, m.len(), cols),
        is_echelon(m),
        0 <= lead <= m.len(),
        0 <= c <= cols,
        forall|i: int| 0 <= i < lead ==> leading(#[trigger] m[i]) < c,
        forall|r: int| lead <= r < m.len() ==> leading(#[trigger] m[r]) >= c,
    ensures
        echelon_from(m, lead, c, cols as int) == m,
    decreases cols - c,
{
    if c < cols {
        lemma_pivot_row(m, lead, c);
        let p = pivot_row(m, lead, c);
        assert forall|r: int| 0 <= r < m.len() implies (leading(#[trigger] m[r]) == c) == m[r][c]
            || leading(m[r]) < c by {
            lemma_leading(m[r]);
            if m[r][c] && leading(m[r]) > c {
                assert(!m[r][c]);
            }
        }
        if p < m.len() {
            lemma_leading(m[p]);
            assert(leading(m[p]) == c);
            assert(m[p].contains(true));
            if p > lead {
                assert(leading(m[lead]) < leading(m[p]));
            }
            assert(p == lead);
            assert forall|r: int| lead < r < m.len() implies !m[r][c] && leading(#[trigger] m[r])
                >= c + 1 by {
                lemma_leading(m[r]);
                if m[r].contains(true) {
                    assert(leading(m[lead]) < leading(m[r]));
                }
            }
            assert(reduce_column(m, lead, c) =~= m);
            lemma_echelon_fixed(m, lead + 1, c + 1, cols);
        } else {
            assert forall|r: int| lead <= r < m.len() implies leading(#[trigger] m[r]) >= c + 1 by {
                lemma_leading(m[r]);
            }
            lemma_echelon_fixed(m, lead, c + 1, cols);
        }
    }
}

/// The row-echelon form of a matrix of echelon shape is the matrix itself.
pub proof fn lemma_row_echelon_form_fixed(m: Seq<Seq<bool>>, cols: nat)
    requires
        rect(m, m.len(), cols),
        is_echelon(m),
    ensures
        row_echelon_form(m) == m,
{
    if m.len() > 0 {
        assert forall|r: int| 0 <= r < m.len() implies leading(#[trigger] m[r]) >= 0 by {
            lemma_leading(m[r]);
        }
        lemma_echelon_fixed(m, 0, 0, cols);
    }
}

/// Swapping two rows leaves the rank as it is.
pub proof fn lemma_rank_of_rows_swapped(m: Seq<Seq<bool>>, a: int, b: int, cols: nat)
    requires
        rect(m, m.len(), cols),
        0 <= a < m.len(),
        0 <= b < m.len(),
    ensures
        rank_of(rows_swapped(m, a, b)) == rank_of(m),
{
    let changed = rows_swapped(m, a, b);
    assert(rect(changed, m.len(), cols));
    lemma_row_echelon_form(m, cols);
    lemma_row_echelon_form(changed, cols);
    assert forall|c: int| 0 <= c < cols implies spans_lead(changed, c) == spans_lead(m, c) by {
        lemma_spans_lead_rows_swapped(m, a, b, c);
    }
    lemma_count_leads_same(changed, m, 0, cols as int);
}

/// Adding one row into another row leaves the rank as it is.
pub proof fn lemma_rank_of_row_added(m: Seq<Seq<bool>>, a: int, b: int, cols: nat)
    requires
        rect(m, m.len(), cols),
        0 <= a < m.len(),
        0 <= b < m.len(),
        a != b,
    ensures
        rank_of(row_added(m, a, b)) == rank_of(m),
{
    let changed = row_added(m, a, b);
    assert(rect(changed, m.len(), cols));
    lemma_row_echelon_form(m, cols);
    lemma_row_echelon_form(changed, cols);
    assert forall|c: int| 0 <= c < cols implies spans_lead(changed, c) == spans_lead(m, c) by {
        lemma_spans_lead_row_added(m, a, b, c, cols);
    }
    lemma_count_leads_same(changed, m, 0, cols as int);
}

/// The matrix with ones on its main diagonal has echelon shape, and its
/// rank is the length of that diagonal.
pub proof fn lemma_rank_of_diagonal(rows: nat, cols: nat)
    ensures
        is_echelon(diagonal_matrix(rows, cols)),
        rank_of(diagonal_matrix(rows, cols)) == if rows <= cols {
            rows
        } else {
            cols
        },
{
    let m = diagonal_matrix(rows, cols);
    let lead: int = if rows <= cols {
        rows as int
    } else {
        cols as int
    };
    assert forall|i: int| 0 <= i < lead implies leading(#[trigger] m[i]) == i by {
        lemma_leading_is(m[i], i);
    }
    assert(staircase(m, lead, cols as int));
    lemma_staircase_done(m, lead, cols, rows as int);
    assert(m.take(rows as int) =~= m);
    lemma_row_echelon_form_fixed(m, cols);
}

/// A matrix has no more non-zero rows than rows.
proof fn lemma_nonzero_rows_bound(m: Seq<Seq<bool>>)
    ensures
        nonzero_rows(m) <= m.len(),
    decreases m.len(),
{
    if m.len() > 0 {
        lemma_nonzero_rows_bound(m.drop_last());
    }
}

/// The rank is no more than the number of rows and no more than the
/// number of columns.
pub proof fn lemma_rank_of_bounds(m: Seq<Seq<bool>>, cols: nat)
    requires
        rect(m, m.len(), cols),
    ensures
        rank_of(m) <= m.len(),
        rank_of(m) <= cols,
{
    lemma_row_echelon_form(m, cols);
    lemma_nonzero_rows_bound(row_echelon_form(m));
    lemma_count_leads_bound(m, 0, width(m) as int);
}

} // verus!
