//! The row space of a matrix over GF(2), seen through the columns in which
//! a sum of rows can have its leading one. Swapping two rows and adding one
//! row into another leave these columns as they are.

use crate::gf2::{cleared_upto, rect, row_added, rows_swapped};
use vstd::prelude::*;

verus! {

/// Bit `j` of the sum of those among the first `n` rows of `m` that `k`
/// selects.
pub open spec fn dot(m: Seq<Seq<bool>>, k: Seq<bool>, j: int, n: int) -> bool
    decreases n,
{
    if n <= 0 {
        false
    } else {
        dot(m, k, j, n - 1) != (k[n - 1] && m[n - 1][j])
    }
}

/// Whether the sum of the rows of `m` that `k` selects has its leading one
/// in column `c`.
pub open spec fn selects_lead(m: Seq<Seq<bool>>, k: Seq<bool>, c: int) -> bool {
    &&& 0 <= c
    &&& dot(m, k, c, m.len() as int)
    &&& forall|j: int| 0 <= j < c ==> !dot(m, k, j, m.len() as int)
}

/// Whether some vector of the row space of `m` has its leading one in
/// column `c`.
pub open spec fn spans_lead(m: Seq<Seq<bool>>, c: int) -> bool {
    exists|k: Seq<bool>| k.len() == m.len() && #[trigger] selects_lead(m, k, c)
}

/// The number of columns in `from..to` in which some vector of the row
/// space of `m` has its leading one.
pub open spec fn count_leads(m: Seq<Seq<bool>>, from: int, to: int) -> nat
    decreases to - from,
{
    if from >= to {
        0
    } else {
        count_leads(m, from + 1, to) + if spans_lead(m, from) {
            1nat
        } else {
            0nat
        }
    }
}

/// The selection that gives on `m` the sum that `k` gives once row `b` has
/// been added into row `a`.
pub open spec fn carried(k: Seq<bool>, a: int, b: int) -> Seq<bool> {
    Seq::new(
        k.len(),
        |i: int|
            if i == b {
                k[b] != k[a]
            } else {
                k[i]
            },
    )
}

/// The selection `k` with its entries `a` and `b` exchanged.
pub open spec fn exchanged(k: Seq<bool>, a: int, b: int) -> Seq<bool> {
    Seq::new(
        k.len(),
        |i: int|
            if i == a {
                k[b]
            } else if i == b {
                k[a]
            } else {
                k[i]
            },
    )
}

/// Adding a row: the sums of the changed matrix are sums of the old one.
proof fn lemma_dot_row_added(m: Seq<Seq<bool>>, a: int, b: int, k: Seq<bool>, j: int, n: int)
    requires
        0 <= a < m.len(),
        0 <= b < m.len(),
        a != b,
        k.len() == m.len(),
        0 <= n <= m.len(),
        0 <= j < m[a].len(),
    ensures
        dot(row_added(m, a, b), k, j, n) == (dot(m, carried(k, a, b), j, n) != (k[a] && m[b][j]
            && ((a < n) != (b < n)))),
    decreases n,
{
    if n > 0 {
        lemma_dot_row_added(m, a, b, k, j, n - 1);
    }
}

/// Swapping two rows: the sums of the changed matrix are sums of the old one.
proof fn lemma_dot_rows_swapped(m: Seq<Seq<bool>>, a: int, b: int, k: Seq<bool>, j: int, n: int)
    requires
        0 <= a < m.len(),
        0 <= b < m.len(),
        k.len() == m.len(),
        0 <= n <= m.len(),
    ensures
        dot(rows_swapped(m, a, b), k, j, n) == (dot(m, exchanged(k, a, b), j, n) != (((k[a]
            && m[b][j]) != (k[b] && m[a][j])) && ((a < n) != (b < n)))),
    decreases n,
{
    if n > 0 {
        lemma_dot_rows_swapped(m, a, b, k, j, n - 1);
    }
}

proof fn lemma_leads_kept_by_row_added(m: Seq<Seq<bool>>, a: int, b: int, c: int, cols: nat)
    requires
        rect(m, m.len(), cols),
        0 <= a < m.len(),
        0 <= b < m.len(),
        a != b,
        0 <= c < cols,
        spans_lead(row_added(m, a, b), c),
    ensures
        spans_lead(m, c),
{
    let changed = row_added(m, a, b);
    let k = choose|k: Seq<bool>| k.len() == changed.len() && #[trigger] selects_lead(changed, k, c);
    let k2 = carried(k, a, b);
    assert forall|j: int| 0 <= j <= c implies dot(m, k2, j, m.len() as int) == dot(
        changed,
        k,
        j,
        changed.len() as int,
    ) by {
        lemma_dot_row_added(m, a, b, k, j, m.len() as int);
    }
    assert(selects_lead(m, k2, c));
}

proof fn lemma_leads_kept_by_rows_swapped(m: Seq<Seq<bool>>, a: int, b: int, c: int)
    requires
        0 <= a < m.len(),
        0 <= b < m.len(),
        spans_lead(rows_swapped(m, a, b), c),
    ensures
        spans_lead(m, c),
{
    let changed = rows_swapped(m, a, b);
    let k = choose|k: Seq<bool>| k.len() == changed.len() && #[trigger] selects_lead(changed, k, c);
    let k2 = exchanged(k, a, b);
    assert forall|j: int| 0 <= j <= c implies dot(m, k2, j, m.len() as int) == dot(
        changed,
        k,
        j,
        changed.len() as int,
    ) by {
        lemma_dot_rows_swapped(m, a, b, k, j, m.len() as int);
    }
    assert(selects_lead(m, k2, c));
}

/// Adding one row into another row leaves the leading columns of the row
/// space as they are.
pub proof fn lemma_spans_lead_row_added(m: Seq<Seq<bool>>, a: int, b: int, c: int, cols: nat)
    requires
        rect(m, m.len(), cols),
        0 <= a < m.len(),
        0 <= b < m.len(),
        a != b,
        0 <= c < cols,
    ensures
        spans_lead(row_added(m, a, b), c) == spans_lead(m, c),
{
    let changed = row_added(m, a, b);
    assert(row_added(changed, a, b) =~~= m);
    if spans_lead(changed, c) {
        lemma_leads_kept_by_row_added(m, a, b, c, cols);
    }
    if spans_lead(m, c) {
        lemma_leads_kept_by_row_added(changed, a, b, c, cols);
    }
}

/// Swapping two rows leaves the leading columns of the row space as they
/// are.
pub proof fn lemma_spans_lead_rows_swapped(m: Seq<Seq<bool>>, a: int, b: int, c: int)
    requires
        0 <= a < m.len(),
        0 <= b < m.len(),
    ensures
        spans_lead(rows_swapped(m, a, b), c) == spans_lead(m, c),
{
    let changed = rows_swapped(m, a, b);
    assert(rows_swapped(changed, a, b) =~= m);
    if spans_lead(changed, c) {
        lemma_leads_kept_by_rows_swapped(m, a, b, c);
    }
    if spans_lead(m, c) {
        lemma_leads_kept_by_rows_swapped(changed, a, b, c);
    }
}

/// Clearing a column below a row leaves the leading columns of the row
/// space as they are.
pub proof fn lemma_spans_lead_cleared(
    m: Seq<Seq<bool>>,
    lead: int,
    at: int,
    upto: int,
    c: int,
    cols: nat,
)
    requires
        rect(m, m.len(), cols),
        0 <= lead < m.len(),
        lead < upto <= m.len(),
        0 <= at < cols,
        0 <= c < cols,
    ensures
        spans_lead(cleared_upto(m, lead, at, upto), c) == spans_lead(m, c),
    decreases upto,
{
    if upto == lead + 1 {
        assert(cleared_upto(m, lead, at, upto) =~= m);
    } else {
        let prev = cleared_upto(m, lead, at, upto - 1);
        lemma_spans_lead_cleared(m, lead, at, upto - 1, c, cols);
        if m[upto - 1][at] {
            assert(cleared_upto(m, lead, at, upto) =~= row_added(prev, upto - 1, lead));
            lemma_spans_lead_row_added(prev, upto - 1, lead, c, cols);
        } else {
            assert(cleared_upto(m, lead, at, upto) =~= prev);
        }
    }
}

/// Matrices whose row spaces have the same leading columns have the same
/// number of them.
pub proof fn lemma_count_leads_same(m1: Seq<Seq<bool>>, m2: Seq<Seq<bool>>, from: int, to: int)
    requires
        forall|c: int| from <= c < to ==> spans_lead(m1, c) == spans_lead(m2, c),
    ensures
        count_leads(m1, from, to) == count_leads(m2, from, to),
    decreases to - from,
{
    if from < to {
        lemma_count_leads_same(m1, m2, from + 1, to);
    }
}

/// There are no more leading columns than columns.
pub proof fn lemma_count_leads_bound(m: Seq<Seq<bool>>, from: int, to: int)
    requires
        from <= to,
    ensures
        count_leads(m, from, to) <= to - from,
    decreases to - from,
{
    if from < to {
        lemma_count_leads_bound(m, from + 1, to);
    }
}

} // verus!
