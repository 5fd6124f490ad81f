//! The text lines of a table: one per row, its cells joined by commas.

use crate::table::{Cell, Table};
use vstd::prelude::*;
use vstd::string::*;

verus! {

/// The lines of `cells` taken in order: a cell on the same row as the cell
/// before it extends the last line after a comma; any other starts a line.
pub open spec fn row_lines(cells: Seq<Cell>) -> Seq<Seq<char>>
    decreases cells.len(),
{
    if cells.len() == 0 {
        seq![]
    } else {
        let prev = row_lines(cells.drop_last());
        let c = cells.last();
        if cells.len() >= 2 && cells[cells.len() - 2].row == c.row {
            prev.update(prev.len() - 1, prev.last() + seq![','] + c.text@)
        } else {
            prev.push(c.text@)
        }
    }
}

proof fn lemma_row_lines_nonempty(cells: Seq<Cell>)
    requires
        cells.len() > 0,
    ensures
        row_lines(cells).len() > 0,
    decreases cells.len(),
{
    if cells.len() >= 2 {
        lemma_row_lines_nonempty(cells.drop_last());
    }
}

/// The output lines of a table: `{(0,0): "3", (0,1): "5"}` gives ["3,5"].
pub fn render_rows(table: &Table) -> (r: Vec<String>)
    ensures
        r@.map_values(|s: String| s@) == row_lines(table.cells@),
{
    let ghost cells = table.cells@;
    let mut lines: Vec<String> = Vec::new();
    let mut i: usize = 0;
    while i < table.cells.len()
        invariant
            cells == table.cells@,
            i <= cells.len(),
            lines@.map_values(|s: String| s@) == row_lines(cells.subrange(0, i as int)),
        decreases cells.len() - i,
    {
        let ghost sub = cells.subrange(0, i as int + 1);
        assert(sub.drop_last() =~= cells.subrange(0, i as int));
        let ghost prev = lines@;
        if i > 0 && table.cells[i - 1].row == table.cells[i].row {
            proof {
                lemma_row_lines_nonempty(cells.subrange(0, i as int));
            }
            let last = lines.len() - 1;
            let mut line = lines[last].clone();
            line.append(",");
            line.append(table.cells[i].text.as_str());
            lines[last] = line;
            proof {
                reveal_strlit(",");
                assert(","@ =~= seq![',']);
                assert(row_lines(sub) == row_lines(cells.subrange(0, i as int)).update(
                    last as int,
                    prev[last as int]@ + seq![','] + cells[i as int].text@,
                ));
                assert(sub[i as int - 1] == cells[i as int - 1]);
                assert(sub.last() == cells[i as int]);
                let pv = prev.map_values(|s: String| s@);
                assert(pv[last as int] == prev[last as int]@);
                assert(pv.last() == prev[last as int]@);
                assert(lines@.map_values(|s: String| s@) =~= row_lines(sub));
            }
        } else {
            lines.push(table.cells[i].text.clone());
            proof {
                assert(sub.last() == cells[i as int]);
                assert(lines@.map_values(|s: String| s@) =~= row_lines(sub));
            }
        }
        i = i + 1;
    }
    proof {
        assert(cells.subrange(0, cells.len() as int) =~= cells);
    }
    lines
}

} // verus!
