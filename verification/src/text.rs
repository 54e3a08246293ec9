//! The boxed textual layout of a matrix: a spec-level description of
//! the rendered text, and the step lemmas the renderer's loops use.

use vstd::prelude::*;

verus! {

/// `n` spaces.
pub open spec fn spaces(n: int) -> Seq<char>
    decreases n,
{
    if n <= 0 {
        Seq::empty()
    } else {
        spaces(n - 1).push(' ')
    }
}

/// Cell texts joined by a comma and a space.
pub open spec fn comma_join(cs: Seq<Seq<char>>) -> Seq<char>
    decreases cs.len(),
{
    if cs.len() == 0 {
        Seq::empty()
    } else if cs.len() == 1 {
        cs[0]
    } else {
        comma_join(cs.drop_last()) + seq![',', ' '] + cs.last()
    }
}

/// One bordered row line.
pub open spec fn row_line(cs: Seq<Seq<char>>) -> Seq<char> {
    seq!['\t', '|', ' '] + comma_join(cs) + seq![' ', '|', '\n']
}

/// The row lines of all rows, in order.
pub open spec fn rows_block(rows: Seq<Seq<Seq<char>>>) -> Seq<char>
    decreases rows.len(),
{
    if rows.len() == 0 {
        Seq::empty()
    } else {
        rows_block(rows.drop_last()) + row_line(rows.last())
    }
}

/// The whole boxed rendering: a top border, one bordered line per row,
/// and a bottom border, each border enclosing `width` spaces.
pub open spec fn boxed_layout(rows: Seq<Seq<Seq<char>>>, width: int) -> Seq<char> {
    seq!['\t', '/'] + spaces(width) + seq!['\\', '\n'] + rows_block(rows) + seq!['\t', '\\']
        + spaces(width) + seq!['/', '\n']
}

/// The character sequences of a table of cell strings.
pub open spec fn cell_texts(rows: Seq<Vec<String>>) -> Seq<Seq<Seq<char>>> {
    rows.map(|i: int, row: Vec<String>| row@.map(|j: int, s: String| s@))
}

/// Joining one more cell text appends a separator (after the first
/// cell) and the cell.
pub proof fn lemma_comma_join_step(cs: Seq<Seq<char>>, j: int)
    requires
        0 <= j < cs.len(),
    ensures
        comma_join(cs.take(j + 1)) == if j == 0 {
            cs[0]
        } else {
            comma_join(cs.take(j)) + seq![',', ' '] + cs[j]
        },
{
    let t = cs.take(j + 1);
    assert(t.len() == j + 1);
    if j == 0 {
        assert(t[0] == cs[0]);
    } else {
        assert(t.drop_last() =~= cs.take(j));
        assert(t.last() == cs[j]);
    }
}

/// Laying out one more row appends its row line.
pub proof fn lemma_rows_block_step(rows: Seq<Seq<Seq<char>>>, i: int)
    requires
        0 <= i < rows.len(),
    ensures
        rows_block(rows.take(i + 1)) == rows_block(rows.take(i)) + row_line(rows[i]),
{
    let t = rows.take(i + 1);
    assert(t.drop_last() =~= rows.take(i));
    assert(t.last() == rows[i]);
}

} // verus!
