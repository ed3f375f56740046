//! Laws of sheets: where each cell stands, what it holds, and which cells form a table.

use vstd::prelude::*;

use crate::document::NodeView;
use crate::sheets::{
    connected, cut, frame_of, kept, law_cells_in_order, leads, lemma_closed, lemma_has_frame,
    lemma_no_text_at, lemma_self, lemma_step, lemma_text_at, linked, placed, plain_paragraphs,
    plain_text, precedes, region_tables, repeats, row_content, row_width, sheet_cells, sheet_height,
    sheet_tables, sheet_text, side_by_side, stacked, within, workbook_tables, CellView,
};
use crate::text::{joined, trimmed, unsigned_value};
use crate::xml::{all_nodes, all_nodes_of, attr_of, XmlView};

verus! {

// ---------------------------------------------------------------- places

/// How often a row or cell is there: as often as an attribute says, where it says a number from one
/// on that `usize` can hold, and else once.
pub open spec fn times(n: XmlView, name: Seq<char>) -> int {
    if attr_of(n, name) is Some && unsigned_value(attr_of(n, name)->0) is Some && 1
        <= unsigned_value(attr_of(n, name)->0)->0 <= usize::MAX {
        unsigned_value(attr_of(n, name)->0)->0
    } else {
        1
    }
}

/// How many columns the cells among the given nodes take, whatever they hold.
pub open spec fn columns_taken(nodes: Seq<XmlView>) -> int
    decreases nodes.len(),
{
    if nodes.len() == 0 {
        0
    } else {
        let n = nodes.last();
        columns_taken(nodes.drop_last()) + (if n.is_element && (n.name == "table-cell"@ || n.name
            == "covered-table-cell"@) {
            times(n, "number-columns-repeated"@)
        } else {
            0
        })
    }
}

/// How many rows the rows among the given nodes take, whatever they hold.
pub open spec fn rows_taken(nodes: Seq<XmlView>) -> int
    decreases nodes.len(),
{
    if nodes.len() == 0 {
        0
    } else {
        let n = nodes.last();
        rows_taken(nodes.drop_last()) + (if n.is_element && n.name == "table-row"@ {
            times(n, "number-rows-repeated"@)
        } else {
            0
        })
    }
}

/// Whether a copy of a cell element with content stands in a sheet: the `d`-th copy of the row at
/// `r`, and in it the `c`-th copy of the cell at `i`. At most 1024 copies are kept.
pub open spec fn is_copy(nodes: Seq<XmlView>, r: int, i: int, d: int, c: int) -> bool {
    &&& 0 <= r < nodes.len()
    &&& nodes[r].is_element && nodes[r].name == "table-row"@
    &&& 0 <= i < nodes[r].children.len()
    &&& nodes[r].children[i].is_element
    &&& {
        ||| nodes[r].children[i].name == "covered-table-cell"@
        ||| nodes[r].children[i].name == "table-cell"@ && sheet_text(nodes[r].children[i]).len()
            > 0
    }
    &&& 0 <= d < 1024 && d < times(nodes[r], "number-rows-repeated"@)
    &&& 0 <= c < 1024 && c < times(nodes[r].children[i], "number-columns-repeated"@)
}

/// The place and text of a copy of a cell element: behind all rows and cells before it, blank ones
/// counted as often as they are repeated.
pub open spec fn copy_of(nodes: Seq<XmlView>, r: int, i: int, d: int, c: int) -> CellView {
    CellView {
        row: rows_taken(nodes.take(r)) + d,
        col: columns_taken(nodes[r].children.take(i)) + c,
        text: sheet_text(nodes[r].children[i]),
    }
}

proof fn lemma_times(n: XmlView, name: Seq<char>)
    ensures
        times(n, name) == repeats(n, name),
{
}

proof fn lemma_columns(nodes: Seq<XmlView>)
    ensures
        columns_taken(nodes) == row_width(nodes),
    decreases nodes.len(),
{
    if nodes.len() > 0 {
        lemma_columns(nodes.drop_last());
        lemma_times(nodes.last(), "number-columns-repeated"@);
    }
}

proof fn lemma_rows(nodes: Seq<XmlView>)
    ensures
        rows_taken(nodes) == sheet_height(nodes),
    decreases nodes.len(),
{
    if nodes.len() > 0 {
        lemma_rows(nodes.drop_last());
        lemma_times(nodes.last(), "number-rows-repeated"@);
    }
}

spec fn in_row(nodes: Seq<XmlView>, i: int, c: int) -> bool {
    &&& 0 <= i < nodes.len()
    &&& nodes[i].is_element
    &&& {
        ||| nodes[i].name == "covered-table-cell"@
        ||| nodes[i].name == "table-cell"@ && sheet_text(nodes[i]).len() > 0
    }
    &&& 0 <= c < 1024 && c < times(nodes[i], "number-columns-repeated"@)
}

spec fn row_copy(nodes: Seq<XmlView>, i: int, c: int) -> (int, Seq<char>) {
    (columns_taken(nodes.take(i)) + c, sheet_text(nodes[i]))
}

proof fn lemma_row_has(nodes: Seq<XmlView>, i: int, c: int)
    requires
        in_row(nodes, i, c),
    ensures
        row_content(nodes).contains(row_copy(nodes, i, c)),
    decreases nodes.len(),
{
    let before = row_content(nodes.drop_last());
    let n = nodes.last();
    if i < nodes.len() - 1 {
        assert(in_row(nodes.drop_last(), i, c));
        lemma_row_has(nodes.drop_last(), i, c);
        assert(nodes.drop_last().take(i) =~= nodes.take(i));
        let k = choose|k: int| 0 <= k < before.len() && before[k] == row_copy(nodes, i, c);
        assert(row_content(nodes)[k] == before[k]);
    } else {
        assert(nodes.take(i) =~= nodes.drop_last());
        lemma_columns(nodes.drop_last());
        lemma_times(n, "number-columns-repeated"@);
        let more = side_by_side(
            row_width(nodes.drop_last()),
            kept(repeats(n, "number-columns-repeated"@)),
            sheet_text(n),
        );
        assert(more[c] == row_copy(nodes, i, c));
        assert(row_content(nodes)[before.len() + c] == more[c]);
    }
}

proof fn lemma_row_only(nodes: Seq<XmlView>, k: int) -> (found: (int, int))
    requires
        0 <= k < row_content(nodes).len(),
    ensures
        in_row(nodes, found.0, found.1),
        row_content(nodes)[k] == row_copy(nodes, found.0, found.1),
    decreases nodes.len(),
{
    let before = row_content(nodes.drop_last());
    let n = nodes.last();
    if k < before.len() {
        let (i, c) = lemma_row_only(nodes.drop_last(), k);
        assert(nodes.drop_last().take(i) =~= nodes.take(i));
        assert(in_row(nodes, i, c));
        (i, c)
    } else {
        let i = nodes.len() - 1;
        let c = k - before.len();
        assert(nodes.take(i) =~= nodes.drop_last());
        lemma_columns(nodes.drop_last());
        lemma_times(n, "number-columns-repeated"@);
        (i, c)
    }
}

proof fn lemma_stack_has(row: int, n: int, content: Seq<(int, Seq<char>)>, d: int, k: int)
    requires
        0 <= d < n,
        0 <= k < content.len(),
    ensures
        stacked(row, n, content).contains(
            CellView { row: row + d, col: content[k].0, text: content[k].1 },
        ),
    decreases n,
{
    let cell = CellView { row: row + d, col: content[k].0, text: content[k].1 };
    let before = stacked(row, n - 1, content);
    let all = stacked(row, n, content);
    if d < n - 1 {
        lemma_stack_has(row, n - 1, content, d, k);
        let m = choose|m: int| 0 <= m < before.len() && before[m] == cell;
        assert(all[m] == cell);
    } else {
        assert(placed(row + n - 1, content)[k] == cell);
        assert(all[before.len() + k] == cell);
    }
}

proof fn lemma_stack_only(row: int, n: int, content: Seq<(int, Seq<char>)>, m: int) -> (found: (
    int,
    int,
))
    requires
        0 <= m < stacked(row, n, content).len(),
    ensures
        0 <= found.0 < n,
        0 <= found.1 < content.len(),
        stacked(row, n, content)[m] == (CellView {
            row: row + found.0,
            col: content[found.1].0,
            text: content[found.1].1,
        }),
    decreases n,
{
    let before = stacked(row, n - 1, content);
    if m < before.len() {
        lemma_stack_only(row, n - 1, content, m)
    } else {
        (n - 1, m - before.len())
    }
}

/// Every copy of a cell element with content stands in the sheet, in the column that is the sum of
/// the repeat counts of all cells before it in its row, and in the row that is the sum of those of
/// all rows before its own, whatever those cells and rows hold.
pub proof fn law_every_cell_has_its_place(nodes: Seq<XmlView>, r: int, i: int, d: int, c: int)
    requires
        is_copy(nodes, r, i, d, c),
    ensures
        sheet_cells(nodes).contains(copy_of(nodes, r, i, d, c)),
    decreases nodes.len(),
{
    let before = sheet_cells(nodes.drop_last());
    let all = sheet_cells(nodes);
    let cell = copy_of(nodes, r, i, d, c);
    if r < nodes.len() - 1 {
        assert(is_copy(nodes.drop_last(), r, i, d, c));
        law_every_cell_has_its_place(nodes.drop_last(), r, i, d, c);
        assert(nodes.drop_last().take(r) =~= nodes.take(r));
        let m = choose|m: int| 0 <= m < before.len() && before[m] == cell;
        assert(all[m] == cell);
    } else {
        let row = nodes[r];
        assert(nodes.take(r) =~= nodes.drop_last());
        lemma_rows(nodes.drop_last());
        lemma_times(row, "number-rows-repeated"@);
        lemma_row_has(row.children, i, c);
        let content = row_content(row.children);
        let k = choose|k: int| 0 <= k < content.len() && content[k] == row_copy(row.children, i, c);
        let height = sheet_height(nodes.drop_last());
        let copies = kept(repeats(row, "number-rows-repeated"@));
        lemma_stack_has(height, copies, content, d, k);
        let more = stacked(height, copies, content);
        let m = choose|m: int| 0 <= m < more.len() && more[m] == cell;
        assert(all[before.len() + m] == cell);
    }
}

/// Every cell of the sheet is a copy of a cell element with content, at its place.
pub proof fn law_no_other_cell_is_there(nodes: Seq<XmlView>, m: int)
    requires
        0 <= m < sheet_cells(nodes).len(),
    ensures
        exists|r: int, i: int, d: int, c: int|
            is_copy(nodes, r, i, d, c) && sheet_cells(nodes)[m] == #[trigger] copy_of(
                nodes,
                r,
                i,
                d,
                c,
            ),
    decreases nodes.len(),
{
    let before = sheet_cells(nodes.drop_last());
    if m < before.len() {
        let fewer = nodes.drop_last();
        law_no_other_cell_is_there(fewer, m);
        let (r, i, d, c) = choose|r: int, i: int, d: int, c: int|
            is_copy(fewer, r, i, d, c) && before[m] == #[trigger] copy_of(fewer, r, i, d, c);
        assert(fewer.take(r) =~= nodes.take(r));
        assert(is_copy(nodes, r, i, d, c));
        assert(sheet_cells(nodes)[m] == copy_of(nodes, r, i, d, c));
    } else {
        let r = nodes.len() - 1;
        let row = nodes[r];
        assert(nodes.take(r) =~= nodes.drop_last());
        lemma_rows(nodes.drop_last());
        lemma_times(row, "number-rows-repeated"@);
        let content = row_content(row.children);
        let height = sheet_height(nodes.drop_last());
        let copies = kept(repeats(row, "number-rows-repeated"@));
        let (d, k) = lemma_stack_only(height, copies, content, m - before.len());
        let (i, c) = lemma_row_only(row.children, k);
        assert(is_copy(nodes, r, i, d, c));
        assert(sheet_cells(nodes)[m] == copy_of(nodes, r, i, d, c));
    }
}

// ---------------------------------------------------------------- what a cell holds

proof fn lemma_plain_add(a: Seq<XmlView>, b: Seq<XmlView>)
    ensures
        plain_text(a + b) == plain_text(a) + plain_text(b),
    decreases b.len(),
{
    if b.len() == 0 {
        assert(a + b =~= a);
        assert(plain_text(a) + plain_text(b) =~= plain_text(a));
    } else {
        assert((a + b).drop_last() =~= a + b.drop_last());
        lemma_plain_add(a, b.drop_last());
        assert(plain_text(a + b) =~= plain_text(a) + plain_text(b));
    }
}

/// The plain text below a node is what the node itself says, where it is text, and behind it the
/// plain texts below its children in their order.
pub proof fn law_plain_text_is_in_order(n: XmlView, more: XmlView)
    ensures
        plain_text(all_nodes_of(Seq::empty())) == Seq::<char>::empty(),
        plain_text(all_nodes(n)) == (if n.is_text && n.text is Some {
            n.text->0
        } else {
            Seq::empty()
        }) + plain_text(all_nodes_of(n.children)),
        plain_text(all_nodes_of(n.children.push(more))) == plain_text(all_nodes_of(n.children))
            + plain_text(all_nodes(more)),
{
    lemma_plain_add(seq![n], all_nodes_of(n.children));
    assert(all_nodes(n) == seq![n] + all_nodes_of(n.children));
    assert(seq![n].drop_last() =~= Seq::<XmlView>::empty());
    assert(plain_text(Seq::<XmlView>::empty()) =~= Seq::<char>::empty());
    assert(plain_text(seq![n]) =~= (if n.is_text && n.text is Some {
        n.text->0
    } else {
        Seq::empty()
    }));
    assert(n.children.push(more).drop_last() =~= n.children);
    lemma_plain_add(all_nodes_of(n.children), all_nodes(more));
}

proof fn lemma_paragraphs_nonempty(nodes: Seq<XmlView>)
    ensures
        forall|k: int|
            0 <= k < plain_paragraphs(nodes).len() ==> (#[trigger] plain_paragraphs(nodes)[k]).len()
                > 0,
    decreases nodes.len(),
{
    if nodes.len() > 0 {
        lemma_paragraphs_nonempty(nodes.drop_last());
        let before = plain_paragraphs(nodes.drop_last());
        let text = plain_text(all_nodes(nodes.last()));
        if text.len() == 0 {
            assert(trimmed(text).len() == 0);
        }
        assert forall|k: int| 0 <= k < plain_paragraphs(nodes).len() implies (
        #[trigger] plain_paragraphs(nodes)[k]).len() > 0 by {
            if k < before.len() {
                assert(plain_paragraphs(nodes)[k] == before[k]);
            }
        }
    }
}

proof fn lemma_joined_nonempty(parts: Seq<Seq<char>>, sep: Seq<char>)
    requires
        parts.len() > 0,
        forall|k: int| 0 <= k < parts.len() ==> (#[trigger] parts[k]).len() > 0,
    ensures
        joined(parts, sep).len() > 0,
{
    assert(parts[parts.len() - 1].len() > 0);
}

/// A cell without children has no text. A further child that is a paragraph or a heading with more
/// than white space below it adds that text on a line of its own; any other child adds nothing.
pub proof fn law_cell_text_is_its_paragraphs(cell: XmlView, child: XmlView)
    ensures
        cell.children.len() == 0 ==> sheet_text(cell).len() == 0,
        ({
            let more = XmlView { children: cell.children.push(child), ..cell };
            let text = plain_text(all_nodes(child));
            sheet_text(more) == (if child.is_element && (child.name == "p"@ || child.name == "h"@)
                && trimmed(text).len() > 0 {
                if sheet_text(cell).len() == 0 {
                    text
                } else {
                    sheet_text(cell).push('\n') + text
                }
            } else {
                sheet_text(cell)
            })
        }),
{
    let more = XmlView { children: cell.children.push(child), ..cell };
    let text = plain_text(all_nodes(child));
    assert(more.children.drop_last() =~= cell.children);
    let before = plain_paragraphs(cell.children);
    lemma_paragraphs_nonempty(cell.children);
    reveal_strlit("\n");
    assert("\n"@ =~= seq!['\n']);
    if before.len() > 0 {
        lemma_joined_nonempty(before, "\n"@);
    }
    assert(before.push(text).drop_last() =~= before);
    assert(joined(before, "\n"@) + "\n"@ + text =~= joined(before, "\n"@).push('\n') + text);
}

// ---------------------------------------------------------------- regions

/// Whether two cells are beside or above each other.
pub open spec fn touching(a: CellView, b: CellView) -> bool {
    ||| a.row == b.row && (a.col - b.col == 1 || b.col - a.col == 1)
    ||| a.col == b.col && (a.row - b.row == 1 || b.row - a.row == 1)
}

/// Cells beside or above each other belong to one region; and where no cell of a group is beside or
/// above one outside it, no cell of the group belongs to a region with one outside.
pub proof fn law_regions_are_what_touches(cells: Seq<CellView>, group: spec_fn(int) -> bool, i: int, j: int)
    requires
        0 <= i < cells.len(),
        0 <= j < cells.len(),
    ensures
        touching(cells[i], cells[j]) ==> connected(cells, i, j),
        group(i) && !group(j) && (forall|a: int, b: int|
            0 <= a < cells.len() && 0 <= b < cells.len() && group(a) && !group(b)
                ==> !#[trigger] touching(cells[a], cells[b])) ==> !connected(cells, i, j),
{
    if touching(cells[i], cells[j]) {
        lemma_self(cells, i);
        lemma_step(cells, i, i, j);
    }
    if connected(cells, i, j) && group(i) && !group(j) && (forall|a: int, b: int|
        0 <= a < cells.len() && 0 <= b < cells.len() && group(a) && !group(b)
            ==> !#[trigger] touching(cells[a], cells[b])) {
        assert forall|a: int, b: int|
            0 <= a < cells.len() && 0 <= b < cells.len() && group(a) && #[trigger] linked(
                cells[a],
                cells[b],
            ) implies group(b) by {
            assert(touching(cells[a], cells[b]));
        }
        lemma_closed(cells, group, i, j);
    }
}

/// The table of a region has a cell of the region in its first and in its last row, and in its
/// first and in its last column, and shows nothing where the sheet has no cell.
pub proof fn law_tables_are_tight(cells: Seq<CellView>, i: int, y: int, x: int)
    requires
        0 <= i < cells.len(),
    ensures
        ({
            let f = frame_of(cells, i);
            let rows = cut(cells, f);
            &&& exists|j: int|
                0 <= j < cells.len() && #[trigger] connected(cells, i, j) && cells[j].row == f.top
            &&& exists|j: int|
                0 <= j < cells.len() && #[trigger] connected(cells, i, j) && cells[j].row == f.top
                    + rows.len() - 1
            &&& exists|j: int|
                0 <= j < cells.len() && #[trigger] connected(cells, i, j) && cells[j].col == f.left
            &&& 0 <= y < rows.len() ==> exists|j: int|
                0 <= j < cells.len() && #[trigger] connected(cells, i, j) && cells[j].col == f.left
                    + rows[y].len() - 1
            &&& 0 <= y < rows.len() && 0 <= x < rows[y].len() && (forall|j: int|
                0 <= j < cells.len() ==> !((#[trigger] cells[j]).row == f.top + y && cells[j].col
                    == f.left + x)) ==> rows[y][x].len() == 0
        }),
{
    lemma_has_frame(cells, i);
    lemma_self(cells, i);
    let f = frame_of(cells, i);
    assert(within(cells[i], f));
    let rows = cut(cells, f);
    if 0 <= y < rows.len() && 0 <= x < rows[y].len() && (forall|j: int|
        0 <= j < cells.len() ==> !((#[trigger] cells[j]).row == f.top + y && cells[j].col == f.left
            + x)) {
        lemma_no_text_at(cells, f.top + y, f.left + x);
    }
}

/// The cells of a sheet come row by row, and in a row from left to right, each place once.
pub proof fn law_cells_come_row_by_row(table: XmlView, i: int, j: int)
    requires
        0 <= i < j < sheet_cells(table.children).len(),
    ensures
        ({
            let a = sheet_cells(table.children)[i];
            let b = sheet_cells(table.children)[j];
            a.row < b.row || (a.row == b.row && a.col < b.col)
        }),
{
    law_cells_in_order(table);
    assert(precedes(sheet_cells(table.children)[i], sheet_cells(table.children)[j]));
}

/// The table of a region shows every cell of the sheet that lies in its rectangle, of whichever
/// region it is, at its place.
pub proof fn law_tables_show_what_lies_in_them(table: XmlView, i: int, k: int)
    requires
        0 <= i < sheet_cells(table.children).len(),
        0 <= k < sheet_cells(table.children).len(),
    ensures
        ({
            let cells = sheet_cells(table.children);
            let f = frame_of(cells, i);
            let rows = cut(cells, f);
            let y = cells[k].row - f.top;
            let x = cells[k].col - f.left;
            &&& connected(cells, i, k) ==> 0 <= y < rows.len() && 0 <= x < rows[y].len()
            &&& 0 <= y < rows.len() && 0 <= x < rows[y].len() ==> rows[y][x] == cells[k].text
        }),
{
    let cells = sheet_cells(table.children);
    law_cells_in_order(table);
    lemma_text_at(cells, k);
    lemma_has_frame(cells, i);
    if connected(cells, i, k) {
        assert(within(cells[k], frame_of(cells, i)));
    }
}

/// The cells that come first in their regions, among the first `n` cells.
pub open spec fn leaders(cells: Seq<CellView>, n: int) -> Seq<int>
    decreases n,
{
    if n <= 0 {
        Seq::empty()
    } else if forall|j: int| 0 <= j < n - 1 ==> !#[trigger] connected(cells, j, n - 1) {
        leaders(cells, n - 1).push(n - 1)
    } else {
        leaders(cells, n - 1)
    }
}

proof fn lemma_leaders(cells: Seq<CellView>, n: int)
    ensures
        region_tables(cells, n) == leaders(cells, n).map_values(
            |i: int| NodeView::Table { rows: cut(cells, frame_of(cells, i)) },
        ),
    decreases n,
{
    let f = |i: int| NodeView::Table { rows: cut(cells, frame_of(cells, i)) };
    if n > 0 {
        lemma_leaders(cells, n - 1);
        assert(leads(cells, n - 1) <==> forall|j: int|
            0 <= j < n - 1 ==> !#[trigger] connected(cells, j, n - 1));
        assert(region_tables(cells, n) =~= leaders(cells, n).map_values(f));
    } else {
        assert(region_tables(cells, n) =~= leaders(cells, n).map_values(f));
    }
}

/// A sheet becomes one table for each region, in the order in which the regions' first cells come,
/// row by row.
pub proof fn law_one_table_for_each_region(table: XmlView)
    ensures
        ({
            let cells = sheet_cells(table.children);
            sheet_tables(table) == leaders(cells, cells.len() as int).map_values(
                |i: int| NodeView::Table { rows: cut(cells, frame_of(cells, i)) },
            )
        }),
{
    let cells = sheet_cells(table.children);
    lemma_leaders(cells, cells.len() as int);
}

/// A further node of a spreadsheet adds the tables of its sheet where it is a table element, and
/// nothing where it is not.
pub proof fn law_sheets_follow_each_other(nodes: Seq<XmlView>, n: XmlView)
    ensures
        workbook_tables(Seq::empty()) == Seq::<NodeView>::empty(),
        workbook_tables(nodes.push(n)) == workbook_tables(nodes) + (if n.is_element && n.name
            == "table"@ {
            sheet_tables(n)
        } else {
            Seq::empty()
        }),
{
    assert(nodes.push(n).drop_last() =~= nodes);
    assert(workbook_tables(nodes) + Seq::<NodeView>::empty() =~= workbook_tables(nodes));
}

} // verus!
