//! Matrices as comma-separated text.

use crate::matrix::Matrix;
use crate::text::{
    decimal, line, numbered, push_cells, push_decimal, push_newline, push_numbered,
    texts,
};
use std::path::Path;
use vstd::prelude::*;
use vstd::string::StringExecFns;

verus! {

/// Makes `std::path::Path` known as an opaque type.
#[verifier::external_type_specification]
#[verifier::external_body]
pub struct ExPath(Path);

/// The lines of the first `n` rows, each opening with its row index.
pub open spec fn row_lines(rows: Seq<Seq<String>>, n: int) -> Seq<char>
    decreases n,
{
    if n <= 0 {
        Seq::empty()
    } else {
        row_lines(rows, n - 1) + line(decimal((n - 1) as nat), texts(rows[n - 1]))
    }
}

/// A matrix as text: a header of `row` and one `column_j` per column, then one
/// line per row.
pub open spec fn matrix_text(rows: Seq<Seq<String>>, columns: nat) -> Seq<char> {
    line("row"@, numbered("column_"@, 0, columns)) + row_lines(rows, rows.len() as int)
}

/// Appends a matrix as one line per row, each opening with its row index,
/// under a header of `row` and one `column_j` per column.
pub fn write_matrix_csv(sink: &mut String, cells: &Matrix<String>)
    requires
        cells.wf(),
    ensures
        final(sink)@ == old(sink)@ + matrix_text(cells@, cells.width()),
{
    let columns: usize = cells.ncols();
    sink.append("row");
    push_numbered(sink, "column_", 0, columns);
    push_newline(sink);
    let ghost header = line("row"@, numbered("column_"@, 0, columns as nat));
    assert(sink@ =~= old(sink)@ + header + row_lines(cells@, 0));
    let mut i: usize = 0;
    while i < cells.nrows()
        invariant
            cells.wf(),
            i <= cells@.len(),
            header == line("row"@, numbered("column_"@, 0, cells.width())),
            sink@ == old(sink)@ + header + row_lines(cells@, i as int),
        decreases cells@.len() - i,
    {
        let ghost before = sink@;
        push_decimal(sink, i);
        push_cells(sink, cells.row(i));
        push_newline(sink);
        assert(sink@ =~= before + line(decimal(i as nat), texts(cells@[i as int])));
        assert(sink@ =~= old(sink)@ + header + row_lines(cells@, i + 1));
        i += 1;
    }
    assert(sink@ =~= old(sink)@ + matrix_text(cells@, cells.width()));
}

/// Every line of a matrix has as many cells as its header: the row index and
/// one per column.
pub proof fn matrix_lines_match_the_header(rows: Seq<Seq<String>>, columns: nat, i: int)
    requires
        0 <= i < rows.len(),
        rows[i].len() == columns,
    ensures
        texts(rows[i]).len() == numbered("column_"@, 0, columns).len(),
{
}

/// A matrix is written as its lines in order: a header of `row` and a numbered
/// name for every column, and then for every row its index and its cells.
pub proof fn matrices_are_written_row_by_row(rows: Seq<Seq<String>>, columns: nat)
    ensures
        matrix_text(rows, columns) == line("row"@, numbered("column_"@, 0, columns)) + Seq::new(
            rows.len(),
            |i: int| i,
        ).flat_map(|i: int| line(decimal(i as nat), texts(rows[i]))),
{
    lemma_rows_flatten(rows, rows.len() as int);
}

proof fn lemma_rows_flatten(rows: Seq<Seq<String>>, n: int)
    requires
        0 <= n,
    ensures
        row_lines(rows, n) == Seq::new(n as nat, |i: int| i).flat_map(
            |i: int| line(decimal(i as nat), texts(rows[i])),
        ),
    decreases n,
{
    let written = |i: int| line(decimal(i as nat), texts(rows[i]));
    if n > 0 {
        lemma_rows_flatten(rows, n - 1);
        let before = Seq::new((n - 1) as nat, |i: int| i);
        before.lemma_flat_map_push(written, n - 1);
        assert(before.push(n - 1) =~= Seq::new(n as nat, |i: int| i));
    } else {
        assert(Seq::new(n as nat, |i: int| i).flat_map(written) =~= Seq::empty());
    }
}

} // verus!
