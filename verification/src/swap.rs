//! The GF(2) matrix of fixed dimensions and its row operations.

use crate::echelon::{
    lemma_rank_of_bounds, lemma_rank_of_row_added, lemma_rank_of_rows_swapped,
    lemma_row_echelon_form,
};
use crate::gf2::{
    cleared_upto, diagonal_matrix, echelon_from, is_echelon, nonzero_rows, pivot_row, rank_of,
    rect, row_added, row_echelon_form, rows_swapped, width, zero_matrix,
};
use crate::rng::{pick_below, thread_rng};
use crate::text::{
    bits_of, lemma_split_lines_nonempty, line_fault, lines, parsed, row_text, serialized,
    serialized_from, split_lines, text_fault, FormatError,
};
use vstd::arithmetic::div_mod::lemma_fundamental_div_mod_converse;
use vstd::prelude::*;
use vstd::string::StringExecFns;

verus! {

/// An `R`×`C` matrix over GF(2). Every cell holds 0 or 1.
#[derive(Debug, Clone, Copy, Hash, PartialEq, Eq)]
pub struct XMatrix<const R: usize, const C: usize>([[u8; C]; R]);

impl<const R: usize, const C: usize> View for XMatrix<R, C> {
    type V = Seq<Seq<bool>>;

    /// The matrix as `R` rows of `C` bits.
    open spec fn view(&self) -> Seq<Seq<bool>> {
        Seq::new(R as nat, |r: int| Seq::new(C as nat, |c: int| self.bit(r, c)))
    }
}

/// The number, 0 or 1, that stands for a bit.
pub open spec fn bit_value(b: bool) -> u8 {
    if b {
        1
    } else {
        0
    }
}

/// The bits of row `r` as numbers, from left to right.
pub open spec fn row_items(m: Seq<Seq<bool>>, r: int) -> Seq<u8> {
    Seq::new(m[r].len(), |c: int| bit_value(m[r][c]))
}

/// The bits of column `c` as numbers, from the top down.
pub open spec fn col_items(m: Seq<Seq<bool>>, c: int) -> Seq<u8> {
    Seq::new(m.len(), |r: int| bit_value(m[r][c]))
}

/// The bits of the main diagonal as numbers: as many as the smaller of the
/// two dimensions.
pub open spec fn diagonal_items(m: Seq<Seq<bool>>) -> Seq<u8> {
    Seq::new(
        if m.len() <= width(m) {
            m.len()
        } else {
            width(m)
        },
        |i: int| bit_value(m[i][i]),
    )
}

/// All bits as numbers, row after row.
pub open spec fn values_items(m: Seq<Seq<bool>>) -> Seq<u8> {
    Seq::new(
        m.len() * width(m),
        |k: int| bit_value(m[k / (width(m) as int)][k % (width(m) as int)]),
    )
}

/// The order in which an `XMatrixIter` walks over a matrix.
pub enum XMatrixIterKind {
    Row,
    Col,
    Diagonal,
    Values,
}

/// A walk over bits of a matrix: one row, one column, the main diagonal
/// or all cells. It hands out each bit as 0 or 1.
pub struct XMatrixIter<'a, const R: usize, const C: usize> {
    matrix: &'a XMatrix<R, C>,
    kind: XMatrixIterKind,
    row: usize,
    col: usize,
}

impl<'a, const R: usize, const C: usize> XMatrixIter<'a, R, C> {
    #[verifier::type_invariant]
    closed spec fn in_bounds(self) -> bool {
        match self.kind {
            XMatrixIterKind::Row => self.row < R && self.col <= C,
            XMatrixIterKind::Col => self.row <= R && self.col < C,
            XMatrixIterKind::Diagonal => self.row <= R && self.col <= C,
            XMatrixIterKind::Values => self.row <= R && if self.row < R && C > 0 {
                self.col < C
            } else {
                self.col == 0
            },
        }
    }

    /// The items that are still to come, in order.
    pub closed spec fn remaining(&self) -> Seq<u8> {
        let m = self.matrix@;
        match self.kind {
            XMatrixIterKind::Row => row_items(m, self.row as int).skip(self.col as int),
            XMatrixIterKind::Col => col_items(m, self.col as int).skip(self.row as int),
            XMatrixIterKind::Diagonal => Seq::new(
                if R - self.row <= C - self.col {
                    (R - self.row) as nat
                } else {
                    (C - self.col) as nat
                },
                |i: int| bit_value(m[self.row + i][self.col + i]),
            ),
            XMatrixIterKind::Values => values_items(m).skip(self.row * C + self.col),
        }
    }

    /// The next item, or `None` at the end.
    pub fn next(&mut self) -> (item: Option<u8>)
        ensures
            old(self).remaining().len() == 0 ==> item is None && *final(self) == *old(self),
            old(self).remaining().len() > 0 ==> item == Some(old(self).remaining()[0])
                && final(self).remaining() == old(self).remaining().drop_first(),
    {
        proof {
            use_type_invariant(&*self);
            assert(rect(self.matrix@, R as nat, C as nat));
        }
        match self.kind {
            XMatrixIterKind::Row => {
                if self.col < C {
                    let value = self.matrix.get(self.row, self.col);
                    self.col += 1;
                    assert(old(self).remaining()[0] == value);
                    assert(self.remaining() =~= old(self).remaining().drop_first());
                    Some(value)
                } else {
                    assert(self.remaining().len() == 0);
                    None
                }
            },
            XMatrixIterKind::Col => {
                if self.row < R {
                    let value = self.matrix.get(self.row, self.col);
                    self.row += 1;
                    assert(old(self).remaining()[0] == value);
                    assert(self.remaining() =~= old(self).remaining().drop_first());
                    Some(value)
                } else {
                    assert(self.remaining().len() == 0);
                    None
                }
            },
            XMatrixIterKind::Diagonal => {
                if self.row < R && self.col < C {
                    let value = self.matrix.get(self.row, self.col);
                    self.row += 1;
                    self.col += 1;
                    assert(old(self).remaining()[0] == value);
                    assert(self.remaining() =~= old(self).remaining().drop_first());
                    Some(value)
                } else {
                    assert(self.remaining().len() == 0);
                    None
                }
            },
            XMatrixIterKind::Values => {
                proof {
                    lemma_values_position::<R, C>(self.row as int, self.col as int);
                    if R > 0 {
                        assert(width(self.matrix@) == C);
                    }
                    assert(values_items(self.matrix@).len() == R * C);
                }
                if self.row < R && self.col < C {
                    let value = self.matrix.get(self.row, self.col);
                    if self.col + 1 == C {
                        self.col = 0;
                        self.row += 1;
                    } else {
                        self.col += 1;
                    }
                    proof {
                        lemma_values_position::<R, C>(self.row as int, self.col as int);
                    }
                    assert(old(self).remaining()[0] == value);
                    assert(self.remaining() =~= old(self).remaining().drop_first());
                    Some(value)
                } else {
                    assert(self.remaining().len() == 0);
                    None
                }
            },
        }
    }

    /// All the items that are still to come, in order.
    pub fn collect(self) -> (items: Vec<u8>)
        ensures
            items@ == self.remaining(),
    {
        let mut it = self;
        let mut items: Vec<u8> = Vec::new();
        loop
            invariant
                items@ + it.remaining() == self.remaining(),
            ensures
                items@ == self.remaining(),
            decreases it.remaining().len(),
        {
            match it.next() {
                Some(v) => {
                    items.push(v);
                },
                None => {
                    break;
                },
            }
        }
        items
    }
}

/// Where the cell at row `r`, column `c` stands among all cells taken row
/// after row.
proof fn lemma_values_position<const R: usize, const C: usize>(r: int, c: int)
    requires
        0 <= r <= R,
        if r < R && C > 0 {
            0 <= c < C
        } else {
            c == 0
        },
    ensures
        0 <= r * C + c <= R * C,
        r < R && C > 0 ==> r * C + c < R * C && (r * C + c) / (C as int) == r && (r * C + c) % (
        C as int) == c,
        (r + 1) * C == r * C + C,
        r == R || C == 0 ==> r * C + c == R * C,
        R == 0 ==> R * C == 0,
{
    assert(0 <= r * C + c <= R * C && (r < R && C > 0 ==> r * C + c < R * C) && (r + 1) * C == r
        * C + C && (r == R || C == 0 ==> r * C + c == R * C) && (R == 0 ==> R * C == 0))
        by (nonlinear_arith)
        requires
            0 <= r <= R,
            if r < R && C > 0 {
                0 <= c < C
            } else {
                c == 0
            },
    ;
    if r < R && C > 0 {
        lemma_fundamental_div_mod_converse(r * C + c, C as int, r, c);
    }
}

/// The characters of `s`, one by one.
fn chars_of(s: &str) -> (text: Vec<char>)
    ensures
        text@ == s@,
{
    let mut text: Vec<char> = Vec::new();
    for ch in it: s.chars()
        invariant
            it.seq() == s@,
            text@ == s@.take(it.index() as int),
    {
        text.push(ch);
        assert(text@ =~= s@.take(it.index() + 1));
    }
    assert(text@ =~= s@);
    text
}

/// The sum of two bits over GF(2) is their exclusive or.
proof fn lemma_xor_bits(x: u8, y: u8)
    requires
        x <= 1,
        y <= 1,
    ensures
        x ^ y <= 1,
        (x ^ y == 1) == ((x == 1) != (y == 1)),
{
    assert(x <= 1 && y <= 1 ==> x ^ y <= 1 && ((x ^ y == 1) == ((x == 1) != (y == 1))))
        by (bit_vector);
}

// Functions for square matrices specifically
impl<const N: usize> XMatrix<N, N> {
    /// The identity matrix.
    pub fn identity() -> (x: Self)
        ensures
            x@ == diagonal_matrix(N as nat, N as nat),
    {
        let mut x = Self::new();
        assert(x@ =~~= Seq::new(N as nat, |r: int| Seq::new(N as nat, |c: int| r == c && r < 0)));
        let mut i: usize = 0;
        while i < N
            invariant
                i <= N,
                x@ == Seq::new(N as nat, |r: int| Seq::new(N as nat, |c: int| r == c && r < i)),
            decreases N - i,
        {
            x.set(i, i, 1);
            i += 1;
            assert(x@ =~~= Seq::new(
                N as nat,
                |r: int| Seq::new(N as nat, |c: int| r == c && r < i),
            ));
        }
        assert(x@ =~~= diagonal_matrix(N as nat, N as nat));
        x
    }
}

// Functions for general rectangular matrices
impl<const R: usize, const C: usize> XMatrix<R, C> {
    #[verifier::type_invariant]
    closed spec fn cells_are_bits(self) -> bool {
        forall|r: int, c: int| 0 <= r < R && 0 <= c < C ==> #[trigger] self.0[r][c] <= 1u8
    }

    /// Whether the cell at row `r`, column `c` holds a one.
    pub closed spec fn bit(&self, r: int, c: int) -> bool {
        self.0[r][c] == 1u8
    }

    /// The all-zero matrix.
    pub fn new() -> (x: Self)
        ensures
            x@ == zero_matrix(R as nat, C as nat),
    {
        let x = Self([[0; C]; R]);
        assert(x@ =~~= zero_matrix(R as nat, C as nat));
        x
    }

    /// The bit at row `r`, column `c`, as 0 or 1.
    pub fn get(&self, r: usize, c: usize) -> (v: u8)
        requires
            r < R,
            c < C,
        ensures
            v == bit_value(self@[r as int][c as int]),
    {
        proof {
            use_type_invariant(self);
        }
        self.0[r][c]
    }

    /// Stores the bit `value` at row `r`, column `c`.
    pub fn set(&mut self, r: usize, c: usize, value: u8)
        requires
            r < R,
            c < C,
            value <= 1,
        ensures
            final(self)@ == old(self)@.update(
                r as int,
                old(self)@[r as int].update(c as int, value == 1),
            ),
    {
        proof {
            use_type_invariant(&*self);
        }
        self.0[r][c] = value;
        assert(self@ =~~= old(self)@.update(
            r as int,
            old(self)@[r as int].update(c as int, value == 1),
        ));
    }

    /// A walk over row `r`, from left to right.
    pub fn row(&self, r: usize) -> (it: XMatrixIter<'_, R, C>)
        requires
            r < R,
        ensures
            it.remaining() == row_items(self@, r as int),
    {
        let it = XMatrixIter { matrix: self, kind: XMatrixIterKind::Row, row: r, col: 0 };
        assert(it.remaining() =~= row_items(self@, r as int));
        it
    }

    /// A walk over column `c`, from the top down.
    pub fn col(&self, c: usize) -> (it: XMatrixIter<'_, R, C>)
        requires
            c < C,
        ensures
            it.remaining() == col_items(self@, c as int),
    {
        let it = XMatrixIter { matrix: self, kind: XMatrixIterKind::Col, row: 0, col: c };
        assert(it.remaining() =~= col_items(self@, c as int));
        it
    }

    /// A walk over the main diagonal, from the top left.
    pub fn diagonal(&self) -> (it: XMatrixIter<'_, R, C>)
        ensures
            it.remaining() == diagonal_items(self@),
    {
        let it = XMatrixIter { matrix: self, kind: XMatrixIterKind::Diagonal, row: 0, col: 0 };
        assert(it.remaining() =~= diagonal_items(self@));
        it
    }

    /// A walk over all cells, row after row.
    pub fn values(&self) -> (it: XMatrixIter<'_, R, C>)
        ensures
            it.remaining() == values_items(self@),
    {
        let it = XMatrixIter { matrix: self, kind: XMatrixIterKind::Values, row: 0, col: 0 };
        assert(it.remaining() =~= values_items(self@));
        it
    }

    /// Reads a matrix from its text: one line for each row, from the top
    /// down, and in a line one character, `0` or `1`, for each column,
    /// from the left. A line ends with a newline, before which a carriage
    /// return may stand; the last line may do without. Rows for which the
    /// text has no line are zero. The text is refused where it first has
    /// a line more than the matrix has rows, a character more than the
    /// matrix has columns, another character than `0` and `1`, or a line
    /// that ends before the last column.
    pub fn parse(s: &str) -> (res: Result<Self, &'static str>)
        ensures
            match parsed(s@, R as nat, C as nat) {
                Ok(m) => res matches Ok(x) && x@ == m,
                Err(fault) => res matches Err(msg) && msg@ == fault.text(),
            },
    {
        let text = chars_of(s);
        let n = text.len();
        let ghost all = lines(text@);
        let mut x = Self::new();
        let ghost mut done: Seq<Seq<char>> = Seq::empty();
        let mut i: usize = 0;
        let mut start: usize = 0;
        assert(x@ =~~= bits_of(done, R as nat, C as nat));
        while start < n
            invariant
                n == text.len(),
                text@ == s@,
                all == lines(text@),
                start <= n,
                i <= R,
                done.len() == i,
                all == done + split_lines(text@, start as int, start as int),
                text_fault(all, 0, R as nat, C as nat) == text_fault(
                    all,
                    i as int,
                    R as nat,
                    C as nat,
                ),
                x@ == bits_of(done, R as nat, C as nat),
            decreases n - start,
        {
            proof {
                lemma_split_lines_nonempty(text@, start as int, start as int);
            }
            if i >= R {
                return Err(FormatError::TooManyRows.message());
            }
            let mut end: usize = start;
            while end < n && text[end] != '\n'
                invariant
                    n == text.len(),
                    start <= end <= n,
                    split_lines(text@, start as int, start as int) == split_lines(
                        text@,
                        start as int,
                        end as int,
                    ),
                decreases n - end,
            {
                end += 1;
            }
            let mut stop: usize = end;
            if end < n && start < end && text[end - 1] == '\r' {
                stop = end - 1;
            }
            let ghost line = text@.subrange(start as int, stop as int);
            let ghost rest = if end < n {
                split_lines(text@, end + 1, end + 1)
            } else {
                Seq::empty()
            };
            assert(split_lines(text@, start as int, end as int) == seq![line] + rest) by {
                if end < n {
                    let whole = text@.subrange(start as int, end as int);
                    if start < end && text[end - 1] == '\r' {
                        assert(whole.drop_last() =~= line);
                    }
                }
            }
            assert(all =~= done.push(line) + rest);
            assert(all[i as int] == line);
            let mut j: usize = 0;
            assert(x@ =~~= bits_of(done.push(line.take(0)), R as nat, C as nat));
            while j < stop - start
                invariant
                    n == text.len(),
                    start <= stop <= n,
                    i < R,
                    j <= stop - start,
                    done.len() == i,
                    line == text@.subrange(start as int, stop as int),
                    all[i as int] == line,
                    i < all.len(),
                    line_fault(line, 0, C as nat) == line_fault(line, j as int, C as nat),
                    text_fault(all, 0, R as nat, C as nat) == text_fault(
                        all,
                        i as int,
                        R as nat,
                        C as nat,
                    ),
                    text@ == s@,
                    all == lines(text@),
                    x@ == bits_of(done.push(line.take(j as int)), R as nat, C as nat),
                decreases stop - start - j,
            {
                let ch = text[start + j];
                assert(ch == line[j as int]);
                if j >= C {
                    return Err(FormatError::TooManyCols.message());
                }
                if ch == '1' {
                    x.set(i, j, 1);
                } else if ch == '0' {
                    x.set(i, j, 0);
                } else {
                    return Err(FormatError::InvalidChar.message());
                }
                j += 1;
                assert(x@ =~~= bits_of(done.push(line.take(j as int)), R as nat, C as nat));
            }
            if j < C {
                return Err(FormatError::TooFewCols.message());
            }
            proof {
                assert(line.take(j as int) =~= line);
                done = done.push(line);
            }
            i += 1;
            start = if end < n {
                end + 1
            } else {
                n
            };
            proof {
                if end >= n {
                    assert(split_lines(text@, start as int, start as int) =~= rest);
                }
            }
        }
        assert(all =~= done);
        Ok(x)
    }

    /// Writes the matrix as text: for each row, from the top down, one
    /// character, `0` or `1`, for each column, and a newline.
    pub fn serialize(&self) -> (s: String)
        ensures
            s@ == serialized(self@),
    {
        let mut s = String::new();
        let mut i: usize = 0;
        assert(s@ + serialized_from(self@, 0) =~= serialized(self@));
        while i < R
            invariant
                i <= R,
                s@ + serialized_from(self@, i as int) == serialized(self@),
            decreases R - i,
        {
            let ghost row = row_text(self@[i as int]);
            let ghost tail = seq!['\n'] + serialized_from(self@, i + 1);
            let mut j: usize = 0;
            assert(s@ + row.skip(0) + tail =~= s@ + serialized_from(self@, i as int));
            while j < C
                invariant
                    i < R,
                    j <= C,
                    row == row_text(self@[i as int]),
                    s@ + row.skip(j as int) + tail == serialized(self@),
                decreases C - j,
            {
                let ghost before = s@;
                if self.get(i, j) == 1 {
                    proof {
                        reveal_strlit("1");
                    }
                    s.append("1");
                    assert(s@ =~= before.push('1'));
                } else {
                    proof {
                        reveal_strlit("0");
                    }
                    s.append("0");
                    assert(s@ =~= before.push('0'));
                }
                assert(s@ + row.skip(j + 1) + tail =~= before + row.skip(j as int) + tail);
                j += 1;
            }
            let ghost before = s@;
            proof {
                reveal_strlit("\n");
            }
            s.append("\n");
            assert(s@ =~= before.push('\n'));
            i += 1;
            assert(s@ + serialized_from(self@, i as int) =~= before + row.skip(C as int) + tail);
        }
        assert(s@ + serialized_from(self@, R as int) =~= s@);
        s
    }

    /// A matrix of bits drawn at random: a draw of 0 or 1 for each cell.
    pub fn rand() -> (x: Self)
        ensures
            exists|draws: Seq<usize>|
                draws.len() == R * C && (forall|k: int|
                    0 <= k < draws.len() ==> #[trigger] draws[k] < 2) && x@
                    == #[trigger] crate::gf2::drawn_bits(draws, R as nat, C as nat),
    {
        let mut rng = thread_rng();
        let mut draws: Vec<usize> = Vec::new();
        let mut i: usize = 0;
        proof {
            lemma_values_position::<R, C>(0, 0);
        }
        while i < R
            invariant
                i <= R,
                draws.len() == i * C,
                forall|k: int| 0 <= k < draws.len() ==> #[trigger] draws[k] < 2,
            decreases R - i,
        {
            let mut j: usize = 0;
            while j < C
                invariant
                    i < R,
                    j <= C,
                    draws.len() == i * C + j,
                    forall|k: int| 0 <= k < draws.len() ==> #[trigger] draws[k] < 2,
                decreases C - j,
            {
                let bit = pick_below(&mut rng, 2);
                draws.push(bit);
                j += 1;
            }
            proof {
                lemma_values_position::<R, C>(i as int, 0);
            }
            i += 1;
        }
        let x = Self::from_draws(&draws);
        assert(x@ == crate::gf2::drawn_bits(draws@, R as nat, C as nat));
        x
    }

    /// The matrix whose bits, row after row, are the draws: a bit is one
    /// where its draw is 1.
    pub fn from_draws(draws: &Vec<usize>) -> (x: Self)
        requires
            draws.len() == R * C,
        ensures
            x@ == crate::gf2::drawn_bits(draws@, R as nat, C as nat),
    {
        let mut x = Self::new();
        let mut k: usize = 0;
        let mut i: usize = 0;
        proof {
            lemma_values_position::<R, C>(0, 0);
        }
        assert(x@ =~~= Seq::new(
            R as nat,
            |r: int| Seq::new(C as nat, |c: int| r < 0 && draws@[r * C + c] == 1),
        ));
        while i < R
            invariant
                i <= R,
                k == i * C,
                draws.len() == R * C,
                x@ == Seq::new(
                    R as nat,
                    |r: int| Seq::new(C as nat, |c: int| r < i && draws@[r * C + c] == 1),
                ),
            decreases R - i,
        {
            let mut j: usize = 0;
            assert(x@ =~~= Seq::new(
                R as nat,
                |r: int|
                    Seq::new(
                        C as nat,
                        |c: int| (r < i || (r == i && c < 0)) && draws@[r * C + c] == 1,
                    ),
            ));
            while j < C
                invariant
                    i < R,
                    j <= C,
                    k == i * C + j,
                    draws.len() == R * C,
                    x@ == Seq::new(
                        R as nat,
                        |r: int|
                            Seq::new(
                                C as nat,
                                |c: int| (r < i || (r == i && c < j)) && draws@[r * C + c] == 1,
                            ),
                    ),
                decreases C - j,
            {
                proof {
                    lemma_values_position::<R, C>(i as int, j as int);
                }
                let bit: u8 = if draws[k] == 1 {
                    1
                } else {
                    0
                };
                x.set(i, j, bit);
                j += 1;
                k += 1;
                assert(x@ =~~= Seq::new(
                    R as nat,
                    |r: int|
                        Seq::new(
                            C as nat,
                            |c: int| (r < i || (r == i && c < j)) && draws@[r * C + c] == 1,
                        ),
                ));
            }
            proof {
                lemma_values_position::<R, C>(i as int, 0);
            }
            i += 1;
            assert(x@ =~~= Seq::new(
                R as nat,
                |r: int| Seq::new(C as nat, |c: int| r < i && draws@[r * C + c] == 1),
            ));
        }
        assert(x@ =~~= crate::gf2::drawn_bits(draws@, R as nat, C as nat));
        x
    }

    /// Whether `other` holds the same bits.
    pub fn same_as(&self, other: &Self) -> (same: bool)
        ensures
            same == (self@ == other@),
    {
        let mut i: usize = 0;
        while i < R
            invariant
                i <= R,
                forall|r: int, c: int| 0 <= r < i && 0 <= c < C ==> self.bit(r, c) == other.bit(r, c),
            decreases R - i,
        {
            let mut j: usize = 0;
            while j < C
                invariant
                    i < R,
                    j <= C,
                    forall|r: int, c: int|
                        0 <= r < i && 0 <= c < C ==> self.bit(r, c) == other.bit(r, c),
                    forall|c: int| 0 <= c < j ==> self.bit(i as int, c) == other.bit(i as int, c),
                decreases C - j,
            {
                if self.get(i, j) != other.get(i, j) {
                    assert(self@[i as int][j as int] != other@[i as int][j as int]);
                    return false;
                }
                assert(self@[i as int][j as int] == other@[i as int][j as int]);
                j += 1;
            }
            i += 1;
        }
        assert(self@ =~~= other@);
        true
    }

    /// Swaps rows `row_a` and `row_b` in the matrix.
    pub fn swap_rows(&mut self, row_a: usize, row_b: usize)
        requires
            row_a < R,
            row_b < R,
        ensures
            final(self)@ == rows_swapped(old(self)@, row_a as int, row_b as int),
            rank_of(final(self)@) == rank_of(old(self)@),
    {
        let ghost before = *self;
        let mut j: usize = 0;
        while j < C
            invariant
                j <= C,
                row_a < R,
                row_b < R,
                forall|r: int, c: int|
                    0 <= r < R && 0 <= c < C ==> #[trigger] self.0[r][c] == if c < j && r
                        == row_a {
                        before.0[row_b as int][c]
                    } else if c < j && r == row_b {
                        before.0[row_a as int][c]
                    } else {
                        before.0[r][c]
                    },
            decreases C - j,
        {
            proof {
                use_type_invariant(&*self);
            }
            let t = self.0[row_a][j];
            self.0[row_a][j] = self.0[row_b][j];
            self.0[row_b][j] = t;
            j += 1;
        }
        assert(self@ =~~= rows_swapped(before@, row_a as int, row_b as int));
        proof {
            assert(rect(before@, R as nat, C as nat));
            lemma_rank_of_rows_swapped(before@, row_a as int, row_b as int, C as nat);
        }
    }

    /// Sets row `row_a` equal to the (xor) sum of itself and row `row_b`.
    pub fn add_row(&mut self, row_a: usize, row_b: usize)
        requires
            row_a < R,
            row_b < R,
        ensures
            final(self)@ == row_added(old(self)@, row_a as int, row_b as int),
            row_a != row_b ==> rank_of(final(self)@) == rank_of(old(self)@),
    {
        let ghost before = *self;
        proof {
            use_type_invariant(&*self);
        }
        let mut j: usize = 0;
        while j < C
            invariant
                j <= C,
                row_a < R,
                row_b < R,
                before.cells_are_bits(),
                forall|r: int, c: int|
                    0 <= r < R && 0 <= c < C ==> #[trigger] self.0[r][c] == if c < j && r
                        == row_a {
                        before.0[row_a as int][c] ^ before.0[row_b as int][c]
                    } else {
                        before.0[r][c]
                    },
            decreases C - j,
        {
            proof {
                use_type_invariant(&*self);
                lemma_xor_bits(self.0[row_a as int][j as int], self.0[row_b as int][j as int]);
            }
            let v = self.0[row_a][j] ^ self.0[row_b][j];
            self.0[row_a][j] = v;
            j += 1;
        }
        assert forall|r: int, c: int| 0 <= r < R && 0 <= c < C implies self.bit(r, c) == row_added(
            before@,
            row_a as int,
            row_b as int,
        )[r][c] by {
            lemma_xor_bits(before.0[row_a as int][c], before.0[row_b as int][c]);
        }
        assert(self@ =~~= row_added(before@, row_a as int, row_b as int));
        proof {
            if row_a != row_b {
                assert(rect(before@, R as nat, C as nat));
                lemma_rank_of_row_added(before@, row_a as int, row_b as int, C as nat);
            }
        }
    }

    /// Reduces the matrix to row-echelon form by elimination from the left,
    /// with no other change than swaps of two rows and additions of one
    /// row into another.
    pub fn row_echelon(&mut self)
        ensures
            final(self)@ == row_echelon_form(old(self)@),
            is_echelon(final(self)@),
    {
        let ghost before = self@;
        let mut lead: usize = 0;
        let mut c: usize = 0;
        while c < C
            invariant
                c <= C,
                lead <= R,
                echelon_from(self@, lead as int, c as int, C as int) == echelon_from(
                    before,
                    0,
                    0,
                    C as int,
                ),
            decreases C - c,
        {
            let mut pivot: Option<usize> = None;
            let mut r: usize = lead;
            while r < R
                invariant_except_break
                    pivot is None,
                    lead <= r <= R,
                    c < C,
                    pivot_row(self@, lead as int, c as int) == pivot_row(self@, r as int, c as int),
                ensures
                    match pivot {
                        Some(p) => lead <= p < R && p == pivot_row(self@, lead as int, c as int),
                        None => pivot_row(self@, lead as int, c as int) == R,
                    },
                decreases R - r,
            {
                if self.get(r, c) != 0 {
                    pivot = Some(r);
                    break;
                }
                r += 1;
            }
            match pivot {
                None => {},
                Some(p) => {
                    let ghost start = self@;
                    if p != lead {
                        self.swap_rows(lead, p);
                    }
                    assert(self@ =~= rows_swapped(start, lead as int, p as int));
                    let ghost swapped = self@;
                    let mut r2: usize = lead + 1;
                    while r2 < R
                        invariant
                            lead < r2 <= R,
                            c < C,
                            self@ == cleared_upto(swapped, lead as int, c as int, r2 as int),
                        decreases R - r2,
                    {
                        if self.get(r2, c) != 0 {
                            self.add_row(r2, lead);
                        }
                        r2 += 1;
                        assert(self@ =~= cleared_upto(swapped, lead as int, c as int, r2 as int));
                    }
                    lead += 1;
                },
            }
            c += 1;
        }
        proof {
            if R == 0 {
                assert(self@ =~= before);
            }
            assert(rect(before, R as nat, C as nat));
            lemma_row_echelon_form(before, C as nat);
        }
    }

    /// The rank over GF(2): the number of non-zero rows of the row-echelon
    /// form. The matrix itself is left as it is.
    pub fn rank(&self) -> (k: usize)
        ensures
            k == rank_of(self@),
            k <= R,
            k <= C,
    {
        let mut x = self.clone();
        x.row_echelon();
        let mut k: usize = 0;
        let mut i: usize = 0;
        while i < R
            invariant
                i <= R,
                k <= i,
                k == nonzero_rows(x@.take(i as int)),
            decreases R - i,
        {
            let mut any = false;
            let mut j: usize = 0;
            while j < C
                invariant
                    i < R,
                    j <= C,
                    any == exists|c: int| 0 <= c < j && x@[i as int][c],
                decreases C - j,
            {
                if x.get(i, j) != 0 {
                    any = true;
                }
                j += 1;
            }
            assert(any == x@[i as int].contains(true));
            assert(x@.take(i + 1).drop_last() =~= x@.take(i as int));
            if any {
                k += 1;
            }
            i += 1;
        }
        assert(x@.take(R as int) =~= x@);
        proof {
            assert(rect(self@, R as nat, C as nat));
            lemma_rank_of_bounds(self@, C as nat);
        }
        k
    }
}

} // verus!
