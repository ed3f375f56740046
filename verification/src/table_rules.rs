//! Laws of tables in texts and presentations: what a cell holds, and where it stands.

use vstd::prelude::*;

use crate::runs::markdown_of;
use crate::sheet_rules::times;
use crate::styles::StylesView;
use crate::tables::{
    cell_markdown, cell_width, columns, paragraph_texts, table_of, table_rows, without_blanks,
};
use crate::text::{joined, nonempty};
use crate::xml::{all_nodes, XmlView};

verus! {

// ---------------------------------------------------------------- cells

proof fn lemma_kept(parts: Seq<Seq<char>>)
    ensures
        forall|k: int| 0 <= k < nonempty(parts).len() ==> (#[trigger] nonempty(parts)[k]).len() > 0,
    decreases parts.len(),
{
    if parts.len() > 0 {
        lemma_kept(parts.drop_last());
        let before = nonempty(parts.drop_last());
        assert forall|k: int| 0 <= k < nonempty(parts).len() implies (
        #[trigger] nonempty(parts)[k]).len() > 0 by {
            if k < before.len() {
                assert(nonempty(parts)[k] == before[k]);
            }
        }
    }
}

/// A cell without children is empty. A further child that is a paragraph or a heading with text
/// adds that text, behind a space where there is text before it. Any other child adds nothing.
pub proof fn law_table_cells_hold_paragraphs(cell: XmlView, child: XmlView, styles: StylesView)
    ensures
        cell.children.len() == 0 ==> cell_markdown(cell, styles).len() == 0,
        ({
            let more = XmlView { children: cell.children.push(child), ..cell };
            let text = markdown_of(child, styles);
            cell_markdown(more, styles) == (if child.is_element && (child.name == "p"@ || child.name
                == "h"@) && text.len() > 0 {
                if cell_markdown(cell, styles).len() == 0 {
                    text
                } else {
                    cell_markdown(cell, styles).push(' ') + text
                }
            } else {
                cell_markdown(cell, styles)
            })
        }),
{
    let more = XmlView { children: cell.children.push(child), ..cell };
    let text = markdown_of(child, styles);
    assert(more.children.drop_last() =~= cell.children);
    let all = paragraph_texts(cell.children, styles);
    let before = nonempty(all);
    assert(all.push(text).drop_last() =~= all);
    lemma_kept(all);
    reveal_strlit(" ");
    assert(" "@ =~= seq![' ']);
    if before.len() > 0 {
        assert(before[before.len() - 1].len() > 0);
        assert(joined(before, " "@).len() > 0);
    }
    assert(before.push(text).drop_last() =~= before);
    assert(joined(before, " "@) + " "@ + text =~= joined(before, " "@).push(' ') + text);
}

/// How many columns a cell fills.
pub open spec fn breadth(cell: XmlView) -> int {
    times(cell, "number-columns-repeated"@) * times(cell, "number-columns-spanned"@)
}

/// How many columns the cells among the given nodes fill.
pub open spec fn breadths(nodes: Seq<XmlView>) -> int
    decreases nodes.len(),
{
    if nodes.len() == 0 {
        0
    } else {
        breadths(nodes.drop_last()) + (if nodes.last().is_element && nodes.last().name
            == "table-cell"@ {
            breadth(nodes.last())
        } else {
            0
        })
    }
}

proof fn lemma_breadth(cell: XmlView)
    ensures
        cell_width(cell) == breadth(cell),
        breadth(cell) >= 1,
{
    let a = times(cell, "number-columns-repeated"@);
    let b = times(cell, "number-columns-spanned"@);
    assert(a * b >= 1) by (nonlinear_arith)
        requires
            a >= 1,
            b >= 1,
    ;
}

// ---------------------------------------------------------------- rows

/// A further cell in a row stands behind the others in as many columns as it is repeated, times
/// those that it spans, with its text in each of them. What is no cell adds no column.
pub proof fn law_cells_fill_their_columns(nodes: Seq<XmlView>, n: XmlView, styles: StylesView)
    ensures
        columns(Seq::empty(), styles).len() == 0,
        !(n.is_element && n.name == "table-cell"@) ==> columns(nodes.push(n), styles) == columns(
            nodes,
            styles,
        ),
        n.is_element && n.name == "table-cell"@ ==> ({
            let before = columns(nodes, styles);
            let after = columns(nodes.push(n), styles);
            &&& after.len() == before.len() + breadth(n)
            &&& forall|k: int| 0 <= k < before.len() ==> after[k] == #[trigger] before[k]
            &&& forall|k: int|
                before.len() <= k < after.len() ==> #[trigger] after[k] == cell_markdown(n, styles)
        }),
{
    assert(nodes.push(n).drop_last() =~= nodes);
    lemma_breadth(n);
}

/// A row ends with its last cell that is not empty: the empty ones behind it are gone, and no
/// others.
pub proof fn law_rows_lose_their_empty_ends(row: Seq<Seq<char>>, ends: Seq<Seq<char>>)
    requires
        row.len() == 0 || row[row.len() - 1].len() > 0,
        forall|k: int| 0 <= k < ends.len() ==> (#[trigger] ends[k]).len() == 0,
    ensures
        without_blanks(row + ends) == row,
    decreases ends.len(),
{
    let all = row + ends;
    if ends.len() == 0 {
        assert(all =~= row);
    } else {
        assert(all.last() == ends[ends.len() - 1]);
        assert(all.drop_last() =~= row + ends.drop_last());
        law_rows_lose_their_empty_ends(row, ends.drop_last());
    }
}

/// A further node of a table adds a row where it is a row with anything in it, and nothing where
/// it is not. The rows of a table are those at any depth below it, and a table without rows is
/// none.
pub proof fn law_rows_follow_each_other(
    nodes: Seq<XmlView>,
    n: XmlView,
    table: XmlView,
    styles: StylesView,
)
    ensures
        table_rows(Seq::empty(), styles).len() == 0,
        table_rows(nodes.push(n), styles) == (if n.is_element && n.name == "table-row"@
            && without_blanks(columns(n.children, styles)).len() > 0 {
            table_rows(nodes, styles).push(without_blanks(columns(n.children, styles)))
        } else {
            table_rows(nodes, styles)
        }),
        table_of(table, styles) is None <==> table_rows(all_nodes(table), styles).len() == 0,
        table_of(table, styles) is Some ==> table_of(table, styles)->0 == table_rows(
            all_nodes(table),
            styles,
        ),
{
    assert(nodes.push(n).drop_last() =~= nodes);
}

proof fn lemma_columns_at(nodes: Seq<XmlView>, i: int, c: int, styles: StylesView)
    requires
        0 <= i < nodes.len(),
        nodes[i].is_element,
        nodes[i].name == "table-cell"@,
        0 <= c < breadth(nodes[i]),
    ensures
        columns(nodes, styles).len() == breadths(nodes),
        0 <= breadths(nodes.take(i)),
        breadths(nodes.take(i)) + c < columns(nodes, styles).len(),
        columns(nodes, styles)[breadths(nodes.take(i)) + c] == cell_markdown(nodes[i], styles),
    decreases nodes.len(),
{
    let fewer = nodes.drop_last();
    let n = nodes.last();
    lemma_breadths(fewer, styles);
    lemma_breadths(nodes, styles);
    lemma_breadth(n);
    assert(fewer.push(n) =~= nodes);
    law_cells_fill_their_columns(fewer, n, styles);
    if i < nodes.len() - 1 {
        lemma_columns_at(fewer, i, c, styles);
        assert(fewer.take(i) =~= nodes.take(i));
        let at = breadths(nodes.take(i)) + c;
        assert(columns(fewer, styles)[at] == cell_markdown(nodes[i], styles));
    } else {
        assert(nodes.take(i) =~= fewer);
    }
}

proof fn lemma_breadths(nodes: Seq<XmlView>, styles: StylesView)
    ensures
        columns(nodes, styles).len() == breadths(nodes),
    decreases nodes.len(),
{
    if nodes.len() > 0 {
        lemma_breadths(nodes.drop_last(), styles);
        lemma_breadth(nodes.last());
    }
}

proof fn lemma_kept_front(cells: Seq<Seq<char>>, k: int)
    requires
        0 <= k < cells.len(),
        cells[k].len() > 0,
    ensures
        k < without_blanks(cells).len(),
        without_blanks(cells)[k] == cells[k],
    decreases cells.len(),
{
    if cells.last().len() == 0 {
        assert(cells.drop_last()[k] == cells[k]);
        lemma_kept_front(cells.drop_last(), k);
    }
}

proof fn lemma_row_is_there(nodes: Seq<XmlView>, r: int, styles: StylesView)
    requires
        0 <= r < nodes.len(),
        nodes[r].is_element,
        nodes[r].name == "table-row"@,
        without_blanks(columns(nodes[r].children, styles)).len() > 0,
    ensures
        table_rows(nodes, styles).contains(without_blanks(columns(nodes[r].children, styles))),
    decreases nodes.len(),
{
    let row = without_blanks(columns(nodes[r].children, styles));
    let all = table_rows(nodes, styles);
    let before = table_rows(nodes.drop_last(), styles);
    if r < nodes.len() - 1 {
        lemma_row_is_there(nodes.drop_last(), r, styles);
        let k = choose|k: int| 0 <= k < before.len() && before[k] == row;
        assert(all[k] == row);
    } else {
        assert(all[before.len() as int] == row);
    }
}

/// A cell with text, in a row at any depth below a table, stands in a row of the table, in the
/// column that is the sum of the columns of all cells before it, and in as many columns as it
/// fills.
pub proof fn law_every_table_cell_has_its_place(
    table: XmlView,
    row: XmlView,
    i: int,
    c: int,
    styles: StylesView,
)
    requires
        all_nodes(table).contains(row),
        row.is_element,
        row.name == "table-row"@,
        0 <= i < row.children.len(),
        row.children[i].is_element,
        row.children[i].name == "table-cell"@,
        cell_markdown(row.children[i], styles).len() > 0,
        0 <= c < breadth(row.children[i]),
    ensures
        table_of(table, styles) is Some,
        exists|q: int|
            {
                &&& 0 <= q < table_of(table, styles)->0.len()
                &&& breadths(row.children.take(i)) + c < (#[trigger] table_of(
                    table,
                    styles,
                )->0[q]).len()
                &&& table_of(table, styles)->0[q][breadths(row.children.take(i)) + c]
                    == cell_markdown(row.children[i], styles)
            },
{
    let nodes = all_nodes(table);
    let at = breadths(row.children.take(i)) + c;
    lemma_columns_at(row.children, i, c, styles);
    let cells = columns(row.children, styles);
    lemma_kept_front(cells, at);
    let r = choose|r: int| 0 <= r < nodes.len() && nodes[r] == row;
    lemma_row_is_there(nodes, r, styles);
    let rows = table_rows(nodes, styles);
    let q = choose|q: int| 0 <= q < rows.len() && rows[q] == without_blanks(cells);
    assert(table_of(table, styles)->0[q][at] == cells[at]);
}

} // verus!
