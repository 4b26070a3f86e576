use vstd::prelude::*;
use vstd::string::StringExecFns;

use super::OutputFormatter;
use crate::models::table::{Table, TableView};

verus! {

/// The cells of a row, with `separator` between each two.
pub open spec fn joined(cells: Seq<Seq<char>>, separator: Seq<char>) -> Seq<char>
    decreases cells.len(),
{
    if cells.len() == 0 {
        Seq::empty()
    } else if cells.len() == 1 {
        cells[0]
    } else {
        joined(cells.drop_last(), separator) + separator + cells.last()
    }
}

/// One line of tab-separated values: the cells with tabs between them,
/// closed by a line feed.
pub open spec fn tsv_line(cells: Seq<Seq<char>>) -> Seq<char> {
    joined(cells, seq!['\t']) + seq!['\n']
}

/// The lines of the given rows, one after the other.
pub open spec fn tsv_lines(rows: Seq<Seq<Seq<char>>>) -> Seq<char>
    decreases rows.len(),
{
    if rows.len() == 0 {
        Seq::empty()
    } else {
        tsv_lines(rows.drop_last()) + tsv_line(rows.last())
    }
}

/// A table as tab-separated values: the line of the headers, then the line
/// of each row.
pub open spec fn tsv_text(table: TableView) -> Seq<char> {
    tsv_line(table.headers) + tsv_lines(table.rows)
}

/// Writes tables as tab-separated values.
pub struct TsvFormatter;

/// Appends one line of tab-separated values to `output`.
fn push_line(output: &mut String, cells: &Vec<String>)
    ensures
        final(output)@ == old(output)@ + tsv_line(cells.deep_view()),
{
    proof {
        reveal_strlit("\t");
        reveal_strlit("\n");
        assert("\t"@ =~= seq!['\t']);
        assert("\n"@ =~= seq!['\n']);
    }
    let ghost start = output@;
    let ghost all = cells.deep_view();
    let mut i: usize = 0;
    assert(all.take(0).len() == 0);
    assert(output@ =~= start + joined(all.take(0), seq!['\t']));
    while i < cells.len()
        invariant
            i <= cells.len(),
            all == cells.deep_view(),
            "\t"@ == seq!['\t'],
            output@ == start + joined(all.take(i as int), seq!['\t']),
        decreases cells.len() - i,
    {
        proof {
            assert(all.take(i as int + 1).drop_last() =~= all.take(i as int));
            assert(all.take(i as int + 1).last() == cells[i as int]@);
        }
        if i > 0 {
            output.append("\t");
        }
        output.append(cells[i].as_str());
        assert(output@ =~= start + joined(all.take(i as int + 1), seq!['\t']));
        i += 1;
    }
    assert(all.take(i as int) =~= all);
    output.append("\n");
    assert(output@ =~= start + tsv_line(all));
}

impl OutputFormatter for TsvFormatter {
    open spec fn rendering(&self, table: TableView) -> Seq<char> {
        tsv_text(table)
    }

    fn format(&self, table: &Table) -> (text: String) {
        let mut output = String::new();
        push_line(&mut output, &table.headers);
        let ghost head = output@;
        let ghost rows = table.rows.deep_view();
        let mut i: usize = 0;
        assert(rows.take(0).len() == 0);
        assert(output@ =~= head + tsv_lines(rows.take(0)));
        while i < table.rows.len()
            invariant
                i <= table.rows.len(),
                rows == table.rows.deep_view(),
                head == tsv_line(table.headers.deep_view()),
                output@ == head + tsv_lines(rows.take(i as int)),
            decreases table.rows.len() - i,
        {
            proof {
                assert(rows.take(i as int + 1).drop_last() =~= rows.take(i as int));
                assert(rows.take(i as int + 1).last() == table.rows[i as int].deep_view());
            }
            push_line(&mut output, &table.rows[i]);
            assert(output@ =~= head + tsv_lines(rows.take(i as int + 1)));
            i += 1;
        }
        assert(rows.take(i as int) =~= rows);
        output
    }
}

} // verus!
