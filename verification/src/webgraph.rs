//! Adjacency grids from edge lists: one edge a line, as two decimal node
//! numbers with a tab between them; lines that start with `#` or `%` are comments.

use vstd::prelude::*;
use crate::matrix::Matrix;

verus! {

/// Source node numbers are taken modulo this.
pub const ROW_WRAP: usize = 10000;

/// Target node numbers are taken modulo this.
pub const COL_WRAP: usize = 100000;

/// Whether a line is a comment.
pub open spec fn is_comment(line: Seq<u8>) -> bool {
    line.len() > 0 && (line[0] == 35 || line[0] == 37)
}

/// The position of the first tab at or behind `start`, or the line's length
/// where there is none.
pub open spec fn tab_from(line: Seq<u8>, start: int) -> int
    decreases line.len() - start,
{
    if start >= line.len() {
        line.len() as int
    } else if line[start] == 9 {
        start
    } else {
        tab_from(line, start + 1)
    }
}

/// Whether every byte is a decimal digit.
pub open spec fn all_digits(digits: Seq<u8>) -> bool {
    forall|n: int| 0 <= n < digits.len() ==> 48 <= #[trigger] digits[n] <= 57
}

/// The number that decimal digits write.
pub open spec fn digits_value(digits: Seq<u8>) -> nat
    decreases digits.len(),
{
    if digits.len() == 0 {
        0
    } else {
        (digits_value(digits.drop_last()) * 10 + (digits.last() - 48)) as nat
    }
}

/// The digits of a field: the field without a leading `+`.
pub open spec fn unsigned(field: Seq<u8>) -> Seq<u8> {
    if field.len() > 0 && field[0] == 43 {
        field.skip(1)
    } else {
        field
    }
}

/// The number that a field writes: at least one decimal digit, behind an
/// optional `+`, and a value that a `usize` holds.
pub open spec fn number(field: Seq<u8>) -> Option<usize> {
    let digits = unsigned(field);
    if digits.len() > 0 && all_digits(digits) && digits_value(digits) <= usize::MAX {
        Some(digits_value(digits) as usize)
    } else {
        None
    }
}

/// The edge that a line writes: the numbers of its first two fields.
pub open spec fn edge(line: Seq<u8>) -> Option<(usize, usize)> {
    let first_end = tab_from(line, 0);
    let second_end = tab_from(line, first_end + 1);
    if first_end >= line.len() {
        None
    } else {
        match (
            number(line.subrange(0, first_end)),
            number(line.subrange(first_end + 1, second_end)),
        ) {
            (Some(from), Some(to)) => Some((from, to)),
            _ => None,
        }
    }
}

/// The cell that a line marks in a grid of `nodes` by `nodes` cells.
pub open spec fn mark(line: Seq<u8>, nodes: usize) -> Option<(int, int)> {
    match edge(line) {
        Some((from, to)) => if from % ROW_WRAP < nodes && to % COL_WRAP < nodes {
            Some(((from % ROW_WRAP) as int, (to % COL_WRAP) as int))
        } else {
            None
        },
        None => None,
    }
}

/// Whether a line is a comment or marks a cell of the grid.
pub open spec fn line_fits(line: Seq<u8>, nodes: usize) -> bool {
    is_comment(line) || mark(line, nodes) is Some
}

/// Whether one of the first `n` lines marks the cell `(i, j)`.
pub open spec fn marked(lines: Seq<Vec<u8>>, nodes: usize, n: int, i: int, j: int) -> bool {
    exists|l: int|
        0 <= l < n && !is_comment(#[trigger] lines[l]@) && mark(lines[l]@, nodes) == Some((i, j))
}

/// The value of digits is at least the value of any of their prefixes.
pub proof fn lemma_digits_grow(digits: Seq<u8>, n: int)
    requires
        all_digits(digits),
        0 <= n <= digits.len(),
    ensures
        digits_value(digits.take(n)) <= digits_value(digits),
    decreases digits.len() - n,
{
    if n < digits.len() {
        lemma_digits_grow(digits, n + 1);
        assert(digits.take(n + 1).drop_last() =~= digits.take(n));
    } else {
        assert(digits.take(n) =~= digits);
    }
}

/// Whether a line is a comment.
pub fn comment(line: &[u8]) -> (r: bool)
    ensures
        r == is_comment(line@),
{
    line.len() > 0 && (line[0] == 35 || line[0] == 37)
}

/// The position of the first tab at or behind `start`, or the line's length
/// where there is none.
pub fn find_tab(line: &[u8], start: usize) -> (at: usize)
    requires
        start <= line@.len(),
    ensures
        at == tab_from(line@, start as int),
        start <= at <= line@.len(),
{
    let mut at: usize = start;
    while at < line.len() && line[at] != 9
        invariant
            start <= at <= line@.len(),
            tab_from(line@, at as int) == tab_from(line@, start as int),
        decreases line@.len() - at,
    {
        at += 1;
    }
    at
}

/// The number that the bytes from `start` up to `end` write.
pub fn parse_number(line: &[u8], start: usize, end: usize) -> (r: Option<usize>)
    requires
        start <= end <= line@.len(),
    ensures
        r == number(line@.subrange(start as int, end as int)),
{
    let ghost field = line@.subrange(start as int, end as int);
    let mut at: usize = start;
    if at < end && line[at] == 43 {
        at += 1;
    }
    let first: usize = at;
    let ghost digits = line@.subrange(first as int, end as int);
    assert(digits =~= unsigned(field));
    if at == end {
        return None;
    }
    let mut value: usize = 0;
    assert(digits.take(0) =~= Seq::<u8>::empty());
    while at < end
        invariant
            start <= first <= at <= end <= line@.len(),
            field == line@.subrange(start as int, end as int),
            digits == line@.subrange(first as int, end as int),
            digits == unsigned(field),
            digits.len() > 0,
            all_digits(digits.take(at - first)),
            value == digits_value(digits.take(at - first)),
        decreases end - at,
    {
        let byte: u8 = line[at];
        let ghost seen = digits.take(at - first);
        let ghost more = digits.take(at - first + 1);
        assert(more.drop_last() =~= seen);
        assert(more.last() == byte);
        if byte < 48 || byte > 57 {
            assert(digits[at - first] == byte);
            return None;
        }
        let digit: usize = (byte - 48) as usize;
        if value > (usize::MAX - digit) / 10 {
            proof {
                assert(all_digits(more));
                if all_digits(digits) {
                    lemma_digits_grow(digits, at - first + 1);
                }
            }
            return None;
        }
        value = value * 10 + digit;
        at += 1;
        proof {
            assert(all_digits(more));
        }
    }
    assert(digits.take(at - first) =~= digits);
    Some(value)
}

/// The edge that a line writes: the numbers of its first two fields.
pub fn parse_edge(line: &[u8]) -> (r: Option<(usize, usize)>)
    ensures
        r == edge(line@),
{
    let first_end: usize = find_tab(line, 0);
    if first_end >= line.len() {
        return None;
    }
    let second_end: usize = find_tab(line, first_end + 1);
    match parse_number(line, 0, first_end) {
        None => None,
        Some(from) => match parse_number(line, first_end + 1, second_end) {
            None => None,
            Some(to) => Some((from, to)),
        },
    }
}

/// The grid of `nodes` by `nodes` cells that holds `true` in the cells that
/// the lines mark and `false` in the others; `None` where a line is no comment
/// and marks no cell of the grid.
pub fn from_file(lines: &Vec<Vec<u8>>, nodes: usize) -> (r: Option<Matrix<bool>>)
    requires
        nodes > 0,
        nodes * nodes <= usize::MAX,
    ensures
        r is Some <==> forall|l: int| 0 <= l < lines@.len() ==> line_fits(#[trigger] lines@[l]@, nodes),
        r matches Some(m) ==> {
            &&& m.wf()
            &&& m@.rows == nodes
            &&& m@.cols == nodes
            &&& m.spec_virtual_rows() == nodes
            &&& m.spec_virtual_cols() == nodes
            &&& m@.default == false
            &&& forall|i: int, j: int|
                0 <= i < nodes && 0 <= j < nodes ==> #[trigger] m@.at(i, j) == marked(
                    lines@,
                    nodes,
                    lines@.len() as int,
                    i,
                    j,
                )
        },
{
    let mut matrix: Matrix<bool> = Matrix::new(nodes, nodes);
    assert forall|i: int, j: int| 0 <= i < nodes && 0 <= j < nodes implies #[trigger] matrix@.at(
        i,
        j,
    ) == false by {
        crate::matrix::lemma_cell_index(nodes as int, nodes as int, i, j);
    }
    let mut n: usize = 0;
    while n < lines.len()
        invariant
            n <= lines@.len(),
            matrix.wf(),
            matrix@.rows == nodes,
            matrix@.cols == nodes,
            matrix.spec_virtual_rows() == nodes,
            matrix.spec_virtual_cols() == nodes,
            matrix@.default == false,
            forall|l: int| 0 <= l < n ==> line_fits(#[trigger] lines@[l]@, nodes),
            forall|i: int, j: int|
                0 <= i < nodes && 0 <= j < nodes ==> #[trigger] matrix@.at(i, j) == marked(
                    lines@,
                    nodes,
                    n as int,
                    i,
                    j,
                ),
        decreases lines@.len() - n,
    {
        let line: &[u8] = lines[n].as_slice();
        if !comment(line) {
            match parse_edge(line) {
                None => {
                    assert(!line_fits(lines@[n as int]@, nodes));
                    return None;
                },
                Some((from, to)) => {
                    let row: usize = from % ROW_WRAP;
                    let col: usize = to % COL_WRAP;
                    if row >= nodes || col >= nodes {
                        assert(!line_fits(lines@[n as int]@, nodes));
                        return None;
                    }
                    let ghost before = matrix@;
                    matrix.set(row, col, true);
                    proof {
                        assert forall|i: int, j: int|
                            0 <= i < nodes && 0 <= j < nodes implies #[trigger] matrix@.at(i, j)
                            == marked(lines@, nodes, n + 1, i, j) by {
                            crate::matrix::lemma_cell_index(nodes as int, nodes as int, i, j);
                            crate::matrix::lemma_cell_index(
                                nodes as int,
                                nodes as int,
                                row as int,
                                col as int,
                            );
                            assert(before.at(i, j) == marked(lines@, nodes, n as int, i, j));
                            if i == row && j == col {
                                assert(mark(lines@[n as int]@, nodes) == Some((i, j)));
                            } else {
                                assert(mark(lines@[n as int]@, nodes) != Some((i, j)));
                                assert(i * nodes + j != row * nodes + col);
                            }
                        }
                    }
                },
            }
        } else {
            assert forall|i: int, j: int| 0 <= i < nodes && 0 <= j < nodes implies marked(
                lines@,
                nodes,
                n + 1,
                i,
                j,
            ) == marked(lines@, nodes, n as int, i, j) by {}
        }
        n += 1;
    }
    Some(matrix)
}

} // verus!
