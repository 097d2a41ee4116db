//! The delimiter row under a table's header, as the writer writes it and
//! as the table parser reads it back.

use vstd::prelude::*;
use crate::chars::white_space;
use crate::markdown::Alignment;
use crate::markdown::block::{cell_alignment, char_end, char_start, strip_char, trim_white, white_end, white_start};
use crate::markdown::writer::{alignment_cell, alignment_cells, MarkdownState};

verus! {

/// The delimiter cell written for a column reads back, through the
/// table parser's cell rule, as that column's alignment: the cell is its
/// text and a closing pipe, with no pipe before it.
pub proof fn lemma_delimiter_cell_reads_back(alignment: Alignment)
    ensures
        alignment_cell(alignment).len() == 6,
        alignment_cell(alignment)[5] == '|',
        forall|i: int| 0 <= i < 5 ==> alignment_cell(alignment)[i] != '|',
        cell_alignment(alignment_cell(alignment).subrange(0, 5)) == Some(alignment),
{
    reveal(white_space);
    let cell = alignment_cell(alignment).subrange(0, 5);
    let inner = cell.subrange(1, 4);
    assert(white_space(' '));
    assert(!white_space(':'));
    assert(!white_space('-'));
    assert(white_start(cell, 0, 5) == 1) by {
        reveal_with_fuel(white_start, 3);
    }
    assert(white_end(cell, 1, 5) == 4) by {
        reveal_with_fuel(white_end, 3);
    }
    assert(trim_white(cell) =~= inner);
    let left = inner[0] == ':';
    let right = inner[2] == ':';
    let start = if left { 1int } else { 0int };
    let end = if right { 2int } else { 3int };
    assert(char_start(inner, 0, ':') == start) by {
        reveal_with_fuel(char_start, 3);
    }
    assert(char_end(inner, start, 3, ':') == end) by {
        reveal_with_fuel(char_end, 3);
    }
    let dashes = inner.subrange(start, end);
    assert(strip_char(inner, ':') =~= dashes);
    assert(dashes.len() > 0);
    assert(forall|i: int| 0 <= i < dashes.len() ==> #[trigger] dashes[i] == '-');
}

/// The delimiter row's cells come one per column, in column order: the
/// `k`-th six characters are the `k`-th column's cell.
pub proof fn lemma_delimiter_cells_in_order(alignments: Seq<Alignment>, count: int)
    requires
        0 <= count <= alignments.len(),
    ensures
        alignment_cells(alignments, count).len() == 6 * count,
        forall|k: int|
            0 <= k < count ==> #[trigger] alignment_cells(alignments, count).subrange(6 * k, 6 * k + 6)
                == alignment_cell(alignments[k]),
    decreases count,
{
    if count > 0 {
        lemma_delimiter_cells_in_order(alignments, count - 1);
        lemma_delimiter_cell_reads_back(alignments[count - 1]);
        let before = alignment_cells(alignments, count - 1);
        let all = alignment_cells(alignments, count);
        assert forall|k: int| 0 <= k < count implies #[trigger] all.subrange(6 * k, 6 * k + 6) == alignment_cell(
            alignments[k],
        ) by {
            if k < count - 1 {
                assert(all.subrange(6 * k, 6 * k + 6) =~= before.subrange(6 * k, 6 * k + 6));
            } else {
                assert(all.subrange(6 * k, 6 * k + 6) =~= alignment_cell(alignments[k]));
            }
        }
    }
}

/// The row the writer puts under a table's header reads back as the
/// table's alignments: after the line's prefixes it is a pipe, then per
/// column, in order, a cell that the parser's cell rule reads as that
/// column's alignment and a closing pipe, then the line's end.
pub proof fn lemma_delimiter_row_reads_back(state: MarkdownState)
    ensures
        ({
            let alignments = state.table_alignments;
            let before = state.begin_content().out;
            let out = state.delimiter_row().out;
            let row = out.subrange(before.len() as int, out.len() as int);
            &&& out.subrange(0, before.len() as int) == before
            &&& row.len() == 6 * alignments.len() + 2
            &&& row[0] == '|'
            &&& row[row.len() - 1] == '\n'
            &&& forall|k: int|
                0 <= k < alignments.len() ==> {
                    &&& cell_alignment(#[trigger] row.subrange(1 + 6 * k, 6 + 6 * k)) == Some(alignments[k])
                    &&& row[6 + 6 * k] == '|'
                }
        }),
{
    let alignments = state.table_alignments;
    let n = alignments.len() as int;
    let before = state.begin_content().out;
    let cells = alignment_cells(alignments, n);
    lemma_delimiter_cells_in_order(alignments, n);
    let out = state.delimiter_row().out;
    assert(out =~= before + (seq!['|'] + cells) + seq!['\n']);
    let row = out.subrange(before.len() as int, out.len() as int);
    assert(row =~= seq!['|'] + cells + seq!['\n']);
    assert(out.subrange(0, before.len() as int) =~= before);
    assert forall|k: int| 0 <= k < n implies {
        &&& cell_alignment(#[trigger] row.subrange(1 + 6 * k, 6 + 6 * k)) == Some(alignments[k])
        &&& row[6 + 6 * k] == '|'
    } by {
        lemma_delimiter_cell_reads_back(alignments[k]);
        let cell = cells.subrange(6 * k, 6 * k + 6);
        assert(cell == alignment_cell(alignments[k]));
        assert(row.subrange(1 + 6 * k, 6 + 6 * k) =~= cell.subrange(0, 5));
        assert(row[6 + 6 * k] == cell[5]);
    }
}

} // verus!
