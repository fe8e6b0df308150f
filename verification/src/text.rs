//! The text form of a matrix: one line of `0` and `1` characters for each
//! row.

use crate::gf2::rect;
use vstd::prelude::*;

verus! {

/// Why a text is not the text of a matrix of given dimensions.
#[derive(Debug, Clone, Copy, PartialEq, Eq)]
pub enum FormatError {
    /// The text has more lines than the matrix has rows.
    TooManyRows,
    /// A line has more characters than the matrix has columns.
    TooManyCols,
    /// A line has fewer characters than the matrix has columns.
    TooFewCols,
    /// A character is neither `0` nor `1`.
    InvalidChar,
}

impl FormatError {
    /// The message that goes with the error.
    pub open spec fn text(self) -> Seq<char> {
        match self {
            FormatError::TooManyRows => "Number of rows exceeds matrix size"@,
            FormatError::TooManyCols => "Number of cols exceeds matrix size"@,
            FormatError::TooFewCols => "Number of cols falls short of matrix size"@,
            FormatError::InvalidChar => "Invalid character in input string"@,
        }
    }

    /// The message that goes with the error.
    pub fn message(self) -> (msg: &'static str)
        ensures
            msg@ == self.text(),
    {
        match self {
            FormatError::TooManyRows => "Number of rows exceeds matrix size",
            FormatError::TooManyCols => "Number of cols exceeds matrix size",
            FormatError::TooFewCols => "Number of cols falls short of matrix size",
            FormatError::InvalidChar => "Invalid character in input string",
        }
    }
}

/// The character that stands for a bit.
pub open spec fn bit_char(b: bool) -> char {
    if b {
        '1'
    } else {
        '0'
    }
}

/// The characters of a row, from left to right.
pub open spec fn row_text(row: Seq<bool>) -> Seq<char> {
    Seq::new(row.len(), |c: int| bit_char(row[c]))
}

/// The text of the rows of `m` from row `r` on: each row's characters and
/// a newline.
pub open spec fn serialized_from(m: Seq<Seq<bool>>, r: int) -> Seq<char>
    decreases m.len() - r,
{
    if r >= m.len() {
        Seq::empty()
    } else {
        row_text(m[r]) + seq!['\n'] + serialized_from(m, r + 1)
    }
}

/// The text of `m`.
pub open spec fn serialized(m: Seq<Seq<bool>>) -> Seq<char> {
    serialized_from(m, 0)
}

/// A line without the carriage return that may stand before its newline.
pub open spec fn without_cr(line: Seq<char>) -> Seq<char> {
    if line.len() > 0 && line.last() == '\r' {
        line.drop_last()
    } else {
        line
    }
}

/// The lines of `s` from the line that starts at `start`, which has no
/// newline before `pos`. A line ends with a newline, which is not part of
/// it, nor is a carriage return just before that newline. What follows
/// the last newline is a line too, unless it is empty.
pub open spec fn split_lines(s: Seq<char>, start: int, pos: int) -> Seq<Seq<char>>
    decreases s.len() - pos,
{
    if pos >= s.len() {
        if start < s.len() {
            seq![s.subrange(start, s.len() as int)]
        } else {
            Seq::empty()
        }
    } else if s[pos] == '\n' {
        seq![without_cr(s.subrange(start, pos))] + split_lines(s, pos + 1, pos + 1)
    } else {
        split_lines(s, start, pos + 1)
    }
}

/// The lines of `s`.
pub open spec fn lines(s: Seq<char>) -> Seq<Seq<char>> {
    split_lines(s, 0, 0)
}

/// What is wrong with `line` as a row of `cols` columns, from column
/// `from` on, at the first place where something is: a character beyond
/// the last column, a character other than `0` and `1`, or the end of the
/// line before the last column.
pub open spec fn line_fault(line: Seq<char>, from: int, cols: nat) -> Option<FormatError>
    decreases line.len() - from,
{
    if from >= line.len() {
        if line.len() < cols {
            Some(FormatError::TooFewCols)
        } else {
            None
        }
    } else if from >= cols {
        Some(FormatError::TooManyCols)
    } else if line[from] == '0' || line[from] == '1' {
        line_fault(line, from + 1, cols)
    } else {
        Some(FormatError::InvalidChar)
    }
}

/// What is wrong with the first of the lines from line `from` on that is
/// not a row of a matrix of `rows` by `cols`, if there is one.
pub open spec fn text_fault(lines: Seq<Seq<char>>, from: int, rows: nat, cols: nat) -> Option<
    FormatError,
>
    decreases lines.len() - from,
{
    if from >= lines.len() {
        None
    } else if from >= rows {
        Some(FormatError::TooManyRows)
    } else if line_fault(lines[from], 0, cols) is Some {
        line_fault(lines[from], 0, cols)
    } else {
        text_fault(lines, from + 1, rows, cols)
    }
}

/// The matrix of `rows` by `cols` that the lines spell: a bit is one
/// where its line has a `1` in its column, and zero where the text has
/// no line for its row.
pub open spec fn bits_of(lines: Seq<Seq<char>>, rows: nat, cols: nat) -> Seq<Seq<bool>> {
    Seq::new(
        rows,
        |r: int| Seq::new(cols, |c: int| r < lines.len() && c < lines[r].len() && lines[r][c] == '1'),
    )
}

/// The matrix of `rows` by `cols` that `s` is the text of, or what is
/// wrong with `s` at the first place where something is.
pub open spec fn parsed(s: Seq<char>, rows: nat, cols: nat) -> Result<Seq<Seq<bool>>, FormatError> {
    match text_fault(lines(s), 0, rows, cols) {
        Some(fault) => Err(fault),
        None => Ok(bits_of(lines(s), rows, cols)),
    }
}

/// Where a line starts, there is a line.
pub proof fn lemma_split_lines_nonempty(s: Seq<char>, start: int, pos: int)
    requires
        0 <= start <= pos,
        start < s.len(),
    ensures
        split_lines(s, start, pos).len() > 0,
    decreases s.len() - pos,
{
    if pos < s.len() && s[pos] != '\n' {
        lemma_split_lines_nonempty(s, start, pos + 1);
    }
}

/// The lines from a position on are those of the text that starts there.
pub proof fn lemma_split_lines_skip(s: Seq<char>, d: int, start: int, pos: int)
    requires
        0 <= d <= start <= pos <= s.len(),
    ensures
        split_lines(s, start, pos) == split_lines(s.skip(d), start - d, pos - d),
    decreases s.len() - pos,
{
    let t = s.skip(d);
    if pos >= s.len() {
        assert(s.subrange(start, s.len() as int) =~= t.subrange(start - d, t.len() as int));
    } else if s[pos] == '\n' {
        assert(s.subrange(start, pos) =~= t.subrange(start - d, pos - d));
        lemma_split_lines_skip(s, d, pos + 1, pos + 1);
    } else {
        lemma_split_lines_skip(s, d, start, pos + 1);
    }
}

/// A text that begins with a row's characters and a newline has that row's
/// characters as its first line.
proof fn lemma_first_line(row: Seq<bool>, rest: Seq<char>, pos: int)
    requires
        0 <= pos <= row.len(),
    ensures
        split_lines(row_text(row) + seq!['\n'] + rest, 0, pos) == seq![row_text(row)] + lines(rest),
    decreases row.len() - pos,
{
    let u = row_text(row) + seq!['\n'] + rest;
    let n = row.len() as int;
    if pos < n {
        assert(u[pos] == bit_char(row[pos]));
        lemma_first_line(row, rest, pos + 1);
    } else {
        assert(u[n] == '\n');
        assert(u.subrange(0, n) =~= row_text(row));
        lemma_split_lines_skip(u, n + 1, n + 1, n + 1);
        assert(u.skip(n + 1) =~= rest);
    }
}

/// The lines of the text of a matrix are the texts of its rows.
pub proof fn lemma_lines_of_serialized(m: Seq<Seq<bool>>, r: int)
    requires
        0 <= r <= m.len(),
    ensures
        lines(serialized_from(m, r)) == Seq::new(
            (m.len() - r) as nat,
            |i: int| row_text(m[r + i]),
        ),
    decreases m.len() - r,
{
    let expected = Seq::new((m.len() - r) as nat, |i: int| row_text(m[r + i]));
    if r < m.len() {
        lemma_lines_of_serialized(m, r + 1);
        lemma_first_line(m[r], serialized_from(m, r + 1), 0);
        assert(lines(serialized_from(m, r)) =~= expected);
    } else {
        assert(lines(serialized_from(m, r)) =~= expected);
    }
}

/// The characters of a row of `cols` bits are not at fault.
proof fn lemma_row_text_faultless(row: Seq<bool>, from: int, cols: nat)
    requires
        0 <= from,
        row.len() == cols,
    ensures
        line_fault(row_text(row), from, cols) is None,
    decreases row.len() - from,
{
    if from < row.len() {
        lemma_row_text_faultless(row, from + 1, cols);
    }
}

proof fn lemma_serialized_faultless(m: Seq<Seq<bool>>, from: int, cols: nat)
    requires
        rect(m, m.len(), cols),
        0 <= from,
    ensures
        text_fault(lines(serialized(m)), from, m.len(), cols) is None,
    decreases m.len() - from,
{
    lemma_lines_of_serialized(m, 0);
    if from < m.len() {
        lemma_row_text_faultless(m[from], 0, cols);
        lemma_serialized_faultless(m, from + 1, cols);
    }
}

/// The text of a matrix is read back as that matrix.
pub proof fn lemma_parsed_serialized(m: Seq<Seq<bool>>, cols: nat)
    requires
        rect(m, m.len(), cols),
    ensures
        parsed(serialized(m), m.len(), cols) == Ok::<Seq<Seq<bool>>, FormatError>(m),
{
    lemma_lines_of_serialized(m, 0);
    lemma_serialized_faultless(m, 0, cols);
    assert(bits_of(lines(serialized(m)), m.len(), cols) =~~= m);
}

/// Whether `s` is written as the text of a matrix of `rows` by `cols`:
/// `rows` times, `cols` characters `0` or `1` and then a newline.
pub open spec fn is_matrix_text(s: Seq<char>, rows: nat, cols: nat) -> bool {
    &&& s.len() == rows * (cols + 1)
    &&& forall|r: int, c: int|
        0 <= r < rows && 0 <= c <= cols ==> {
            let ch = #[trigger] s[r * (cols + 1) + c];
            if c == cols {
                ch == '\n'
            } else {
                ch == '0' || ch == '1'
            }
        }
}

/// The bits that a text so written spells.
pub open spec fn bits_of_text(s: Seq<char>, rows: nat, cols: nat) -> Seq<Seq<bool>> {
    Seq::new(rows, |r: int| Seq::new(cols, |c: int| s[r * (cols + 1) + c] == '1'))
}

proof fn lemma_row_offset(r: int, rows: nat, cols: nat)
    requires
        0 <= r <= rows,
    ensures
        0 <= r * (cols + 1) <= rows * (cols + 1),
        (r + 1) * (cols + 1) == r * (cols + 1) + cols + 1,
{
    assert(0 <= r * (cols + 1) <= rows * (cols + 1) && (r + 1) * (cols + 1) == r * (cols + 1)
        + cols + 1) by (nonlinear_arith)
        requires
            0 <= r <= rows,
    ;
}

proof fn lemma_text_from_row(s: Seq<char>, rows: nat, cols: nat, r: int)
    requires
        is_matrix_text(s, rows, cols),
        0 <= r <= rows,
    ensures
        0 <= r * (cols + 1) <= s.len(),
        serialized_from(bits_of_text(s, rows, cols), r) == s.skip(r * (cols + 1)),
    decreases rows - r,
{
    let m = bits_of_text(s, rows, cols);
    let at = r * (cols + 1);
    lemma_row_offset(r, rows, cols);
    if r < rows {
        lemma_text_from_row(s, rows, cols, r + 1);
        lemma_row_offset(r + 1, rows, cols);
        let whole = row_text(m[r]) + seq!['\n'] + s.skip(at + cols + 1);
        assert forall|k: int| 0 <= k < whole.len() implies whole[k] == s.skip(at)[k] by {
            if k <= cols {
                let ch = s[r * (cols + 1) + k];
                assert(if k == cols {
                    ch == '\n'
                } else {
                    ch == '0' || ch == '1'
                });
            }
        }
        assert(whole =~= s.skip(at));
    } else {
        assert(s.skip(at) =~= Seq::<char>::empty());
    }
}

/// A text written as the text of a matrix is the text of the matrix that
/// it is read as.
pub proof fn lemma_serialized_parsed(s: Seq<char>, rows: nat, cols: nat)
    requires
        is_matrix_text(s, rows, cols),
    ensures
        parsed(s, rows, cols) == Ok::<Seq<Seq<bool>>, FormatError>(bits_of_text(s, rows, cols)),
        serialized(bits_of_text(s, rows, cols)) == s,
{
    let m = bits_of_text(s, rows, cols);
    lemma_text_from_row(s, rows, cols, 0);
    assert(s.skip(0) =~= s);
    lemma_parsed_serialized(m, cols);
}

/// The text of a matrix is written as the text of a matrix.
pub proof fn lemma_serialized_is_matrix_text(m: Seq<Seq<bool>>, cols: nat)
    requires
        rect(m, m.len(), cols),
    ensures
        is_matrix_text(serialized(m), m.len(), cols),
{
    lemma_serialized_chars(m, cols, 0);
    let s = serialized(m);
    lemma_row_offset(0, m.len(), cols);
    assert forall|r: int, c: int| 0 <= r < m.len() && 0 <= c <= cols implies {
        let ch = #[trigger] s[r * (cols + 1) + c];
        if c == cols {
            ch == '\n'
        } else {
            ch == '0' || ch == '1'
        }
    } by {
        lemma_serialized_chars(m, cols, 0);
        lemma_row_offset(r, m.len(), cols);
        assert((r - 0) * (cols + 1) == r * (cols + 1));
    }
}

/// The characters of the text from row `from` on, each by its row and
/// column.
proof fn lemma_serialized_chars(m: Seq<Seq<bool>>, cols: nat, from: int)
    requires
        rect(m, m.len(), cols),
        0 <= from <= m.len(),
    ensures
        serialized_from(m, from).len() == (m.len() - from) * (cols + 1),
        forall|r: int, c: int|
            from <= r < m.len() && 0 <= c <= cols ==> #[trigger] serialized_from(m, from)[(r - from)
                * (cols + 1) + c] == if c == cols {
                '\n'
            } else {
                bit_char(m[r][c])
            },
    decreases m.len() - from,
{
    let rows = m.len();
    let t = serialized_from(m, from);
    if from < rows {
        lemma_serialized_chars(m, cols, from + 1);
        let rest = serialized_from(m, from + 1);
        assert((rows - from) * (cols + 1) == (rows - (from + 1)) * (cols + 1) + cols + 1)
            by (nonlinear_arith);
        assert forall|r: int, c: int| from <= r < rows && 0 <= c <= cols implies #[trigger] t[(r
            - from) * (cols + 1) + c] == if c == cols {
            '\n'
        } else {
            bit_char(m[r][c])
        } by {
            if r == from {
                assert((r - from) * (cols + 1) == 0) by (nonlinear_arith)
                    requires
                        r == from,
                ;
            } else {
                assert((r - from) * (cols + 1) == (r - (from + 1)) * (cols + 1) + cols + 1
                    && (r - (from + 1)) * (cols + 1) >= 0) by (nonlinear_arith)
                    requires
                        r > from,
                ;
                assert((r - (from + 1)) * (cols + 1) + c < (rows - (from + 1)) * (cols + 1))
                    by (nonlinear_arith)
                    requires
                        r < rows,
                        0 <= c <= cols,
                ;
                assert(t[(r - from) * (cols + 1) + c] == rest[(r - (from + 1)) * (cols + 1) + c]);
            }
        }
    } else {
        assert((rows - from) * (cols + 1) == 0) by (nonlinear_arith)
            requires
                rows == from,
        ;
    }
}

} // verus!
