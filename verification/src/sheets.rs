//! Spreadsheets: the cells with content, and the tables that they form.

use vstd::prelude::*;

use crate::document::{extended, rows_view, DoclingDocument, Node, NodeView, Table};
use crate::lists::{fits, is_block_text, lemma_fits_add};
use crate::runs::{count_attr, usize_attr};
use crate::tables::at_least_one;
use crate::text::{join, joined, texts, trim, trimmed};
use crate::xml::{
    all_nodes, is_tag, lemma_children_view, nodes_view, refs_view, XmlNode, XmlView,
};

verus! {

/// A cell with content, at its place in the sheet.
pub struct SheetCell {
    pub row: u128,
    pub col: u128,
    pub text: String,
}

/// The mathematical form of [`SheetCell`].
#[verifier::ext_equal]
pub struct CellView {
    pub row: int,
    pub col: int,
    pub text: Seq<char>,
}

impl View for SheetCell {
    type V = CellView;

    open spec fn view(&self) -> CellView {
        CellView { row: self.row as int, col: self.col as int, text: self.text@ }
    }
}

/// The mathematical forms of a list of cells.
pub open spec fn cells_view(cells: Seq<SheetCell>) -> Seq<CellView> {
    cells.map_values(|c: SheetCell| c@)
}

// ---------------------------------------------------------------- the cells of a sheet

/// The text nodes among the given nodes, one after another.
pub open spec fn plain_text(nodes: Seq<XmlView>) -> Seq<char>
    decreases nodes.len(),
{
    if nodes.len() == 0 {
        Seq::empty()
    } else {
        let n = nodes.last();
        plain_text(nodes.drop_last()) + (if n.is_text && n.text is Some {
            n.text->0
        } else {
            Seq::empty()
        })
    }
}

/// The plain texts of the paragraphs among the given nodes that are more than white space.
pub open spec fn plain_paragraphs(nodes: Seq<XmlView>) -> Seq<Seq<char>>
    decreases nodes.len(),
{
    if nodes.len() == 0 {
        Seq::empty()
    } else {
        let before = plain_paragraphs(nodes.drop_last());
        let text = plain_text(all_nodes(nodes.last()));
        if is_block_text(nodes.last()) && trimmed(text).len() > 0 {
            before.push(text)
        } else {
            before
        }
    }
}

/// The plain text of a cell: its paragraphs on lines of their own.
pub open spec fn sheet_text(cell: XmlView) -> Seq<char> {
    joined(plain_paragraphs(cell.children), "\n"@)
}

/// Whether a node is a cell of a row.
pub open spec fn is_cell(n: XmlView) -> bool {
    is_tag(n, "table-cell"@) || is_tag(n, "covered-table-cell"@)
}

/// Whether a cell has content: text, or a place under a cell that spans it.
pub open spec fn has_content(n: XmlView) -> bool {
    sheet_text(n).len() > 0 || is_tag(n, "covered-table-cell"@)
}

/// How often a row or cell is there.
pub open spec fn repeats(n: XmlView, name: Seq<char>) -> int {
    at_least_one(count_attr(n, name))
}

/// A repeated row or cell with content is kept at most this often.
pub open spec fn kept(n: int) -> int {
    if n < 1024 {
        n
    } else {
        1024
    }
}

/// The width of a row up to its end.
pub open spec fn row_width(nodes: Seq<XmlView>) -> int
    decreases nodes.len(),
{
    if nodes.len() == 0 {
        0
    } else {
        row_width(nodes.drop_last()) + (if is_cell(nodes.last()) {
            repeats(nodes.last(), "number-columns-repeated"@)
        } else {
            0
        })
    }
}

/// The cells with content of a row, each with its column.
pub open spec fn row_content(nodes: Seq<XmlView>) -> Seq<(int, Seq<char>)>
    decreases nodes.len(),
{
    if nodes.len() == 0 {
        Seq::empty()
    } else {
        let before = row_content(nodes.drop_last());
        let n = nodes.last();
        if is_cell(n) && has_content(n) {
            before + side_by_side(
                row_width(nodes.drop_last()),
                kept(repeats(n, "number-columns-repeated"@)),
                sheet_text(n),
            )
        } else {
            before
        }
    }
}

/// `n` copies of a text, in the columns from `col` on.
pub open spec fn side_by_side(col: int, n: int, text: Seq<char>) -> Seq<(int, Seq<char>)> {
    Seq::new(n as nat, |c: int| (col + c, text))
}

/// The height of a sheet up to its end.
pub open spec fn sheet_height(nodes: Seq<XmlView>) -> int
    decreases nodes.len(),
{
    if nodes.len() == 0 {
        0
    } else {
        sheet_height(nodes.drop_last()) + (if is_tag(nodes.last(), "table-row"@) {
            repeats(nodes.last(), "number-rows-repeated"@)
        } else {
            0
        })
    }
}

/// The cells of a row, placed in the sheet.
pub open spec fn placed(row: int, content: Seq<(int, Seq<char>)>) -> Seq<CellView> {
    content.map_values(|c: (int, Seq<char>)| CellView { row, col: c.0, text: c.1 })
}

/// `n` copies of a row, placed in the rows from `row` on.
pub open spec fn stacked(row: int, n: int, content: Seq<(int, Seq<char>)>) -> Seq<CellView>
    decreases n,
{
    if n <= 0 {
        Seq::empty()
    } else {
        stacked(row, n - 1, content) + placed(row + n - 1, content)
    }
}

/// The cells with content of a sheet, row by row.
pub open spec fn sheet_cells(nodes: Seq<XmlView>) -> Seq<CellView>
    decreases nodes.len(),
{
    if nodes.len() == 0 {
        Seq::empty()
    } else {
        let before = sheet_cells(nodes.drop_last());
        let n = nodes.last();
        if is_tag(n, "table-row"@) {
            before + stacked(
                sheet_height(nodes.drop_last()),
                kept(repeats(n, "number-rows-repeated"@)),
                row_content(n.children),
            )
        } else {
            before
        }
    }
}

// ---------------------------------------------------------------- regions

/// Whether two cells are next to each other, in a row or in a column.
pub open spec fn linked(a: CellView, b: CellView) -> bool {
    ||| a.row == b.row && (a.col == b.col + 1 || b.col == a.col + 1)
    ||| a.col == b.col && (a.row == b.row + 1 || b.row == a.row + 1)
}

/// Whether a list of indices is a way from one cell to another, from neighbour to neighbour.
pub open spec fn is_way(cells: Seq<CellView>, way: Seq<int>, from: int, to: int) -> bool {
    &&& way.len() > 0
    &&& way[0] == from
    &&& way.last() == to
    &&& forall|k: int| 0 <= k < way.len() ==> 0 <= #[trigger] way[k] < cells.len()
    &&& forall|k: int, l: int|
        0 <= k < l < way.len() && l == k + 1 ==> linked(
            cells[#[trigger] way[k]],
            cells[#[trigger] way[l]],
        )
}

/// Whether two cells belong to one region.
pub open spec fn connected(cells: Seq<CellView>, from: int, to: int) -> bool {
    exists|way: Seq<int>| is_way(cells, way, from, to)
}

/// Whether a cell is the first of its region.
pub open spec fn leads(cells: Seq<CellView>, i: int) -> bool {
    forall|j: int| 0 <= j < i ==> !connected(cells, j, i)
}

/// A rectangle of rows and columns, its edges counted in.
pub struct Rect {
    pub top: int,
    pub bottom: int,
    pub left: int,
    pub right: int,
}

/// Whether a rectangle is the smallest one around the region of a cell.
pub open spec fn is_frame(cells: Seq<CellView>, i: int, frame: Rect) -> bool {
    &&& forall|j: int|
        0 <= j < cells.len() && #[trigger] connected(cells, i, j) ==> within(cells[j], frame)
    &&& exists|j: int|
        0 <= j < cells.len() && #[trigger] connected(cells, i, j) && cells[j].row == frame.top
    &&& exists|j: int|
        0 <= j < cells.len() && #[trigger] connected(cells, i, j) && cells[j].row == frame.bottom
    &&& exists|j: int|
        0 <= j < cells.len() && #[trigger] connected(cells, i, j) && cells[j].col == frame.left
    &&& exists|j: int|
        0 <= j < cells.len() && #[trigger] connected(cells, i, j) && cells[j].col == frame.right
}

/// Whether a cell lies in a rectangle.
pub open spec fn within(c: CellView, r: Rect) -> bool {
    r.top <= c.row <= r.bottom && r.left <= c.col <= r.right
}

/// The smallest rectangle around the region of a cell.
pub open spec fn frame_of(cells: Seq<CellView>, i: int) -> Rect {
    choose|frame: Rect| is_frame(cells, i, frame)
}

/// The text at a place of the sheet, and nothing where there is no content.
pub open spec fn text_at(cells: Seq<CellView>, row: int, col: int) -> Seq<char>
    decreases cells.len(),
{
    if cells.len() == 0 {
        Seq::empty()
    } else if cells.last().row == row && cells.last().col == col {
        cells.last().text
    } else {
        text_at(cells.drop_last(), row, col)
    }
}

/// What the sheet shows in a rectangle.
pub open spec fn cut(cells: Seq<CellView>, r: Rect) -> Seq<Seq<Seq<char>>> {
    Seq::new(
        (r.bottom - r.top + 1) as nat,
        |y: int|
            Seq::new(
                (r.right - r.left + 1) as nat,
                |x: int| text_at(cells, r.top + y, r.left + x),
            ),
    )
}

/// The tables of the regions whose first cells are among the first `n`.
pub open spec fn region_tables(cells: Seq<CellView>, n: int) -> Seq<NodeView>
    decreases n,
{
    if n <= 0 {
        Seq::empty()
    } else {
        let before = region_tables(cells, n - 1);
        if leads(cells, n - 1) {
            before.push(NodeView::Table { rows: cut(cells, frame_of(cells, n - 1)) })
        } else {
            before
        }
    }
}

/// The tables of a sheet: one for each region of connected cells, in the order of their first
/// cells.
pub open spec fn sheet_tables(table: XmlView) -> Seq<NodeView> {
    let cells = sheet_cells(table.children);
    region_tables(cells, cells.len() as int)
}

/// The tables of all sheets of a spreadsheet.
pub open spec fn workbook_tables(nodes: Seq<XmlView>) -> Seq<NodeView>
    decreases nodes.len(),
{
    if nodes.len() == 0 {
        Seq::empty()
    } else {
        let before = workbook_tables(nodes.drop_last());
        if is_tag(nodes.last(), "table"@) {
            before + sheet_tables(nodes.last())
        } else {
            before
        }
    }
}

// ---------------------------------------------------------------- order of cells

/// Whether one cell comes before another, row by row.
pub open spec fn precedes(a: CellView, b: CellView) -> bool {
    a.row < b.row || (a.row == b.row && a.col < b.col)
}

/// Whether cells are listed row by row, each place at most once.
pub open spec fn in_order(cells: Seq<CellView>) -> bool {
    forall|i: int, j: int|
        0 <= i < j < cells.len() ==> precedes(#[trigger] cells[i], #[trigger] cells[j])
}

/// Whether the columns of a row ascend and lie between the given ones.
spec fn ascending(content: Seq<(int, Seq<char>)>, low: int, high: int) -> bool {
    &&& forall|i: int| 0 <= i < content.len() ==> low <= (#[trigger] content[i]).0 < high
    &&& forall|i: int, j: int|
        0 <= i < j < content.len() ==> (#[trigger] content[i]).0 < (#[trigger] content[j]).0
}

proof fn lemma_row_width(nodes: Seq<XmlView>)
    ensures
        row_width(nodes) >= 0,
    decreases nodes.len(),
{
    if nodes.len() > 0 {
        lemma_row_width(nodes.drop_last());
    }
}

proof fn lemma_row_content(nodes: Seq<XmlView>)
    ensures
        ascending(row_content(nodes), 0, row_width(nodes)),
    decreases nodes.len(),
{
    if nodes.len() > 0 {
        lemma_row_content(nodes.drop_last());
        lemma_row_width(nodes.drop_last());
    }
}

/// Whether cells are in order, in the rows between the given ones.
spec fn banded(cells: Seq<CellView>, low: int, high: int) -> bool {
    &&& in_order(cells)
    &&& forall|i: int| 0 <= i < cells.len() ==> low <= (#[trigger] cells[i]).row < high
}

proof fn lemma_banded_add(a: Seq<CellView>, b: Seq<CellView>, low: int, mid: int, high: int)
    requires
        banded(a, low, mid),
        banded(b, mid, high),
        low <= mid <= high,
    ensures
        banded(a + b, low, high),
{
    let c = a + b;
    assert forall|i: int, j: int| 0 <= i < j < c.len() implies precedes(
        #[trigger] c[i],
        #[trigger] c[j],
    ) by {
        if j < a.len() {
            assert(c[i] == a[i] && c[j] == a[j]);
        } else if i >= a.len() {
            assert(c[i] == b[i - a.len()] && c[j] == b[j - a.len()]);
        } else {
            assert(c[i] == a[i] && c[j] == b[j - a.len()]);
        }
    }
    assert forall|i: int| 0 <= i < c.len() implies low <= (#[trigger] c[i]).row < high by {
        if i < a.len() {
            assert(c[i] == a[i]);
        } else {
            assert(c[i] == b[i - a.len()]);
        }
    }
}

proof fn lemma_stacked(row: int, n: int, content: Seq<(int, Seq<char>)>, width: int)
    requires
        n >= 0,
        ascending(content, 0, width),
    ensures
        banded(stacked(row, n, content), row, row + n),
    decreases n,
{
    if n > 0 {
        lemma_stacked(row, n - 1, content, width);
        let line = placed(row + n - 1, content);
        assert forall|i: int, j: int| 0 <= i < j < line.len() implies precedes(
            #[trigger] line[i],
            #[trigger] line[j],
        ) by {
            assert(content[i].0 < content[j].0);
        }
        lemma_banded_add(stacked(row, n - 1, content), line, row, row + n - 1, row + n);
    }
}

proof fn lemma_sheet_cells(nodes: Seq<XmlView>)
    ensures
        sheet_height(nodes) >= 0,
        banded(sheet_cells(nodes), 0, sheet_height(nodes)),
    decreases nodes.len(),
{
    if nodes.len() > 0 {
        lemma_sheet_cells(nodes.drop_last());
        let n = nodes.last();
        if is_tag(n, "table-row"@) {
            let row = sheet_height(nodes.drop_last());
            let times = repeats(n, "number-rows-repeated"@);
            lemma_row_content(n.children);
            lemma_stacked(row, kept(times), row_content(n.children), row_width(n.children));
            let below = stacked(row, kept(times), row_content(n.children));
            assert(banded(below, row, row + times));
            lemma_banded_add(sheet_cells(nodes.drop_last()), below, 0, row, row + times);
        }
    }
}

/// The cells of a sheet are listed row by row, and no two share a place.
pub proof fn law_cells_in_order(table: XmlView)
    ensures
        in_order(sheet_cells(table.children)),
{
    lemma_sheet_cells(table.children);
}

// ---------------------------------------------------------------- facts about regions

proof fn lemma_way_inside(
    cells: Seq<CellView>,
    s: spec_fn(int) -> bool,
    way: Seq<int>,
    from: int,
    to: int,
    k: int,
)
    requires
        is_way(cells, way, from, to),
        s(from),
        0 <= k < way.len(),
        forall|a: int, b: int|
            0 <= a < cells.len() && 0 <= b < cells.len() && s(a) && #[trigger] linked(
                cells[a],
                cells[b],
            ) ==> s(b),
    ensures
        s(way[k]),
    decreases k,
{
    if k > 0 {
        lemma_way_inside(cells, s, way, from, to, k - 1);
        assert(linked(cells[way[k - 1]], cells[way[k]]));
    }
}

/// What a set of cells holds that holds with every cell its neighbours: whole regions.
pub proof fn lemma_closed(cells: Seq<CellView>, s: spec_fn(int) -> bool, from: int, to: int)
    requires
        connected(cells, from, to),
        s(from),
        forall|a: int, b: int|
            0 <= a < cells.len() && 0 <= b < cells.len() && s(a) && #[trigger] linked(
                cells[a],
                cells[b],
            ) ==> s(b),
    ensures
        s(to),
{
    let way = choose|way: Seq<int>| is_way(cells, way, from, to);
    lemma_way_inside(cells, s, way, from, to, way.len() - 1);
}

pub proof fn lemma_self(cells: Seq<CellView>, i: int)
    requires
        0 <= i < cells.len(),
    ensures
        connected(cells, i, i),
{
    assert(is_way(cells, seq![i], i, i));
}

pub proof fn lemma_step(cells: Seq<CellView>, i: int, j: int, k: int)
    requires
        connected(cells, i, j),
        0 <= j < cells.len(),
        0 <= k < cells.len(),
        linked(cells[j], cells[k]),
    ensures
        connected(cells, i, k),
{
    let way = choose|way: Seq<int>| is_way(cells, way, i, j);
    let longer = way.push(k);
    assert forall|a: int, b: int| 0 <= a < b < longer.len() && b == a + 1 implies linked(
        cells[#[trigger] longer[a]],
        cells[#[trigger] longer[b]],
    ) by {
        if b < way.len() {
            assert(linked(cells[way[a]], cells[way[b]]));
        } else {
            assert(way[a] == j);
        }
    }
    assert(is_way(cells, longer, i, k));
}

/// What is reached from a cell that is reached is reached.
proof fn lemma_onward(cells: Seq<CellView>, i: int, j: int, k: int)
    requires
        connected(cells, i, j),
        connected(cells, j, k),
    ensures
        connected(cells, i, k),
{
    let s = |x: int| connected(cells, i, x);
    assert forall|a: int, b: int|
        0 <= a < cells.len() && 0 <= b < cells.len() && s(a) && #[trigger] linked(
            cells[a],
            cells[b],
        ) implies s(b) by {
        lemma_step(cells, i, a, b);
    }
    lemma_closed(cells, s, j, k);
}

/// The way back is a way.
pub proof fn lemma_back(cells: Seq<CellView>, i: int, j: int)
    requires
        connected(cells, i, j),
    ensures
        connected(cells, j, i),
        0 <= i < cells.len(),
        0 <= j < cells.len(),
{
    let way = choose|way: Seq<int>| is_way(cells, way, i, j);
    assert(0 <= way[0] < cells.len());
    assert(0 <= way[way.len() - 1] < cells.len());
    let s = |x: int| connected(cells, x, i);
    assert forall|a: int, b: int|
        0 <= a < cells.len() && 0 <= b < cells.len() && s(a) && #[trigger] linked(
            cells[a],
            cells[b],
        ) implies s(b) by {
        lemma_self(cells, b);
        lemma_step(cells, b, b, a);
        lemma_onward(cells, b, a, i);
    }
    lemma_self(cells, i);
    lemma_closed(cells, s, i, j);
}

/// A region has one smallest rectangle around it.
proof fn lemma_one_frame(cells: Seq<CellView>, i: int, a: Rect, b: Rect)
    requires
        is_frame(cells, i, a),
        is_frame(cells, i, b),
    ensures
        a == b,
{
    let ja = choose|j: int|
        0 <= j < cells.len() && #[trigger] connected(cells, i, j) && cells[j].row == a.top;
    let jb = choose|j: int|
        0 <= j < cells.len() && #[trigger] connected(cells, i, j) && cells[j].row == b.top;
    assert(within(cells[ja], b) && within(cells[jb], a));
    let ka = choose|j: int|
        0 <= j < cells.len() && #[trigger] connected(cells, i, j) && cells[j].row == a.bottom;
    let kb = choose|j: int|
        0 <= j < cells.len() && #[trigger] connected(cells, i, j) && cells[j].row == b.bottom;
    assert(within(cells[ka], b) && within(cells[kb], a));
    let la = choose|j: int|
        0 <= j < cells.len() && #[trigger] connected(cells, i, j) && cells[j].col == a.left;
    let lb = choose|j: int|
        0 <= j < cells.len() && #[trigger] connected(cells, i, j) && cells[j].col == b.left;
    assert(within(cells[la], b) && within(cells[lb], a));
    let ra = choose|j: int|
        0 <= j < cells.len() && #[trigger] connected(cells, i, j) && cells[j].col == a.right;
    let rb = choose|j: int|
        0 <= j < cells.len() && #[trigger] connected(cells, i, j) && cells[j].col == b.right;
    assert(within(cells[ra], b) && within(cells[rb], a));
}

/// The text at the place of a cell is the cell's.
pub proof fn lemma_text_at(cells: Seq<CellView>, k: int)
    requires
        in_order(cells),
        0 <= k < cells.len(),
    ensures
        text_at(cells, cells[k].row, cells[k].col) == cells[k].text,
    decreases cells.len(),
{
    if k < cells.len() - 1 {
        assert(precedes(cells[k], cells[cells.len() - 1]));
        lemma_text_at(cells.drop_last(), k);
    }
}

/// Where there is no cell there is no text.
pub proof fn lemma_no_text_at(cells: Seq<CellView>, row: int, col: int)
    requires
        forall|j: int|
            0 <= j < cells.len() ==> !((#[trigger] cells[j]).row == row && cells[j].col == col),
    ensures
        text_at(cells, row, col) == Seq::<char>::empty(),
    decreases cells.len(),
{
    if cells.len() > 0 {
        assert(!(cells[cells.len() - 1].row == row && cells[cells.len() - 1].col == col));
        lemma_no_text_at(cells.drop_last(), row, col);
    }
}

// ---------------------------------------------------------------- reading a sheet

/// The text nodes among the given nodes, one after another.
fn joined_text(nodes: &Vec<&XmlNode>) -> (text: String)
    ensures
        text@ == plain_text(refs_view(nodes@)),
{
    let ghost all = refs_view(nodes@);
    let mut out = String::new();
    let mut i: usize = 0;
    while i < nodes.len()
        invariant
            i <= nodes@.len(),
            all == refs_view(nodes@),
            out@ == plain_text(all.take(i as int)),
        decreases nodes@.len() - i,
    {
        let n = nodes[i];
        assert(all.take(i as int + 1).drop_last() =~= all.take(i as int));
        assert(all.take(i as int + 1).last() == n@);
        assert(out@ + Seq::<char>::empty() =~= out@);
        if n.is_text {
            if let Some(t) = &n.text {
                out.append(t.as_str());
            }
        }
        i += 1;
    }
    assert(all.take(i as int) =~= all);
    out
}

/// The plain text of a cell: its paragraphs, without the blank ones, on lines of their own.
pub fn ods_cell_text(cell: &XmlNode) -> (text: String)
    ensures
        text@ == sheet_text(cell@),
{
    proof {
        lemma_children_view(cell);
    }
    let ghost all = nodes_view(cell.children@);
    let mut parts: Vec<String> = Vec::new();
    let mut i: usize = 0;
    assert(texts(parts@) =~= Seq::empty());
    while i < cell.children.len()
        invariant
            i <= cell.children@.len(),
            all == nodes_view(cell.children@),
            all == cell@.children,
            texts(parts@) == plain_paragraphs(all.take(i as int)),
        decreases cell.children@.len() - i,
    {
        let p = &cell.children[i];
        assert(all.take(i as int + 1).drop_last() =~= all.take(i as int));
        assert(all.take(i as int + 1).last() == p@);
        if p.has_tag_name("p") || p.has_tag_name("h") {
            let text = joined_text(&p.descendants());
            let shown = trim(text.as_str());
            if !shown.as_str().is_empty() {
                let ghost known = texts(parts@);
                parts.push(text);
                assert(texts(parts@) =~= known.push(text@));
            }
        }
        i += 1;
    }
    assert(all.take(i as int) =~= all);
    join(&parts, "\n")
}

/// How often a row or cell is there, at least once.
pub fn repeat(node: &XmlNode, name: &str) -> (n: usize)
    ensures
        n == repeats(node@, name@),
        n >= 1,
{
    let n = usize_attr(node, name);
    if n < 1 {
        1
    } else {
        n
    }
}

/// The contents of a list of columns with their texts.
spec fn content_view(content: Seq<(u128, String)>) -> Seq<(int, Seq<char>)> {
    content.map_values(|c: (u128, String)| (c.0 as int, c.1@))
}

/// The cells with content of a row, each with its column.
fn read_row(row: &XmlNode) -> (content: Vec<(u128, String)>)
    ensures
        content_view(content@) == row_content(row@.children),
{
    proof {
        lemma_children_view(row);
    }
    let ghost all = nodes_view(row.children@);
    let mut content: Vec<(u128, String)> = Vec::new();
    let mut col: u128 = 0;
    let mut i: usize = 0;
    assert(content_view(content@) =~= Seq::empty());
    while i < row.children.len()
        invariant
            i <= row.children@.len(),
            all == nodes_view(row.children@),
            all == row@.children,
            col == row_width(all.take(i as int)),
            col <= i * 0xffff_ffff_ffff_ffff,
            content_view(content@) == row_content(all.take(i as int)),
        decreases row.children@.len() - i,
    {
        let cell = &row.children[i];
        assert(all.take(i as int + 1).drop_last() =~= all.take(i as int));
        assert(all.take(i as int + 1).last() == cell@);
        let covered = cell.has_tag_name("covered-table-cell");
        if covered || cell.has_tag_name("table-cell") {
            let times = repeat(cell, "number-columns-repeated");
            let text = ods_cell_text(cell);
            if !text.as_str().is_empty() || covered {
                let shown: usize = if times < 1024 {
                    times
                } else {
                    1024
                };
                let ghost known = content_view(content@);
                let mut c: usize = 0;
                while c < shown
                    invariant
                        c <= shown <= 1024,
                        col <= 0xffff_ffff_ffff_ffff * 0xffff_ffff_ffff_ffff,
                        content_view(content@) =~= known + side_by_side(
                            col as int,
                            c as int,
                            text@,
                        ),
                    decreases shown - c,
                {
                    let ghost so_far = content_view(content@);
                    content.push((col + c as u128, text.clone()));
                    assert(content_view(content@) =~= so_far.push((col + c, text@)));
                    c += 1;
                }
            }
            col = col + times as u128;
        }
        i += 1;
    }
    assert(all.take(i as int) =~= all);
    content
}

/// The cells with content of a sheet, row by row.
fn read_sheet(table: &XmlNode) -> (cells: Vec<SheetCell>)
    ensures
        cells_view(cells@) == sheet_cells(table@.children),
{
    proof {
        lemma_children_view(table);
    }
    let ghost all = nodes_view(table.children@);
    let mut cells: Vec<SheetCell> = Vec::new();
    let mut row: u128 = 0;
    let mut i: usize = 0;
    assert(cells_view(cells@) =~= Seq::empty());
    while i < table.children.len()
        invariant
            i <= table.children@.len(),
            all == nodes_view(table.children@),
            all == table@.children,
            row == sheet_height(all.take(i as int)),
            row <= i * 0xffff_ffff_ffff_ffff,
            cells_view(cells@) == sheet_cells(all.take(i as int)),
        decreases table.children@.len() - i,
    {
        let tr = &table.children[i];
        assert(all.take(i as int + 1).drop_last() =~= all.take(i as int));
        assert(all.take(i as int + 1).last() == tr@);
        if tr.has_tag_name("table-row") {
            let times = repeat(tr, "number-rows-repeated");
            let content = read_row(tr);
            let ghost line = content_view(content@);
            let shown: usize = if times < 1024 {
                times
            } else {
                1024
            };
            let ghost known = cells_view(cells@);
            let mut r: usize = 0;
            while r < shown
                invariant
                    r <= shown <= 1024,
                    row <= 0xffff_ffff_ffff_ffff * 0xffff_ffff_ffff_ffff,
                    line == content_view(content@),
                    cells_view(cells@) =~= known + stacked(row as int, r as int, line),
                decreases shown - r,
            {
                let ghost so_far = cells_view(cells@);
                let ghost next = placed(row + r, line);
                let mut k: usize = 0;
                while k < content.len()
                    invariant
                        k <= content@.len(),
                        r < 1024,
                        row <= 0xffff_ffff_ffff_ffff * 0xffff_ffff_ffff_ffff,
                        line == content_view(content@),
                        next == placed(row + r, line),
                        cells_view(cells@) =~= so_far + next.take(k as int),
                    decreases content@.len() - k,
                {
                    let ghost listed = cells_view(cells@);
                    let cell = SheetCell {
                        row: row + r as u128,
                        col: content[k].0,
                        text: content[k].1.clone(),
                    };
                    cells.push(cell);
                    assert(cells_view(cells@) =~= listed.push(cell@));
                    assert(next[k as int] == cell@);
                    k += 1;
                }
                assert(next.take(k as int) =~= next);
                r += 1;
            }
            row = row + times as u128;
        }
        i += 1;
    }
    assert(all.take(i as int) =~= all);
    cells
}

/// The index of the cell at a place of the sheet.
fn find_cell(cells: &Vec<SheetCell>, row: u128, col: u128) -> (found: Option<usize>)
    requires
        in_order(cells_view(cells@)),
    ensures
        match found {
            Some(k) => k < cells@.len() && cells@[k as int].row == row && cells@[k as int].col
                == col,
            None => forall|j: int|
                0 <= j < cells@.len() ==> !((#[trigger] cells@[j]).row == row && cells@[j].col
                    == col),
        },
{
    let ghost all = cells_view(cells@);
    let mut low: usize = 0;
    let mut high: usize = cells.len();
    while low < high
        invariant
            low <= high <= cells@.len(),
            all == cells_view(cells@),
            in_order(all),
            forall|j: int|
                0 <= j < low ==> (#[trigger] cells@[j]).row < row || (cells@[j].row == row
                    && cells@[j].col < col),
            forall|j: int|
                high <= j < cells@.len() ==> (#[trigger] cells@[j]).row > row || (cells@[j].row
                    == row && cells@[j].col > col),
        decreases high - low,
    {
        let mid = low + (high - low) / 2;
        let c = &cells[mid];
        if c.row == row && c.col == col {
            return Some(mid);
        }
        if c.row < row || (c.row == row && c.col < col) {
            assert forall|j: int| 0 <= j < mid + 1 implies (#[trigger] cells@[j]).row < row || (
            cells@[j].row == row && cells@[j].col < col) by {
                if j < mid {
                    assert(precedes(all[j], all[mid as int]));
                }
            }
            low = mid + 1;
        } else {
            assert forall|j: int| mid <= j < cells@.len() implies (#[trigger] cells@[j]).row > row
                || (cells@[j].row == row && cells@[j].col > col) by {
                if j > mid {
                    assert(precedes(all[mid as int], all[j]));
                }
            }
            high = mid;
        }
    }
    None
}

// ---------------------------------------------------------------- finding regions

/// A rectangle of rows and columns, its edges counted in.
struct Frame {
    top: u128,
    bottom: u128,
    left: u128,
    right: u128,
}

impl Frame {
    spec fn rect(self) -> Rect {
        Rect {
            top: self.top as int,
            bottom: self.bottom as int,
            left: self.left as int,
            right: self.right as int,
        }
    }
}

/// How many cells have not been visited.
spec fn unseen(visited: Seq<bool>) -> nat
    decreases visited.len(),
{
    if visited.len() == 0 {
        0
    } else {
        unseen(visited.drop_last()) + (if visited.last() {
            0nat
        } else {
            1nat
        })
    }
}

proof fn lemma_unseen_mark(visited: Seq<bool>, k: int)
    requires
        0 <= k < visited.len(),
        !visited[k],
    ensures
        unseen(visited) == unseen(visited.update(k, true)) + 1,
    decreases visited.len(),
{
    let marked = visited.update(k, true);
    if k == visited.len() - 1 {
        assert(marked.drop_last() =~= visited.drop_last());
    } else {
        assert(marked.drop_last() =~= visited.drop_last().update(k, true));
        lemma_unseen_mark(visited.drop_last(), k);
    }
}

/// Whether visited cells come in whole regions.
spec fn whole_regions(cells: Seq<CellView>, visited: Seq<bool>) -> bool {
    &&& visited.len() == cells.len()
    &&& forall|a: int, b: int|
        0 <= a < cells.len() && 0 <= b < cells.len() && visited[a] && #[trigger] linked(
            cells[a],
            cells[b],
        ) ==> visited[b]
}

/// Whether a cell is in the queue.
spec fn queued(queue: Seq<usize>, j: int) -> bool {
    exists|q: int| 0 <= q < queue.len() && #[trigger] queue[q] as int == j
}

/// What holds while a region is visited: the queue lists what has been visited of it.
#[verifier::opaque]
spec fn visiting(
    cells: Seq<CellView>,
    start: int,
    past: Seq<bool>,
    visited: Seq<bool>,
    queue: Seq<usize>,
    frame: Rect,
) -> bool {
    &&& past.len() == cells.len()
    &&& visited.len() == cells.len()
    &&& queue.len() > 0
    &&& queue[0] == start
    &&& forall|j: int| 0 <= j < cells.len() && #[trigger] past[j] ==> visited[j]
    &&& forall|q: int|
        0 <= q < queue.len() ==> {
            let j = #[trigger] queue[q] as int;
            &&& j < cells.len()
            &&& visited[j]
            &&& !past[j]
            &&& connected(cells, start, j)
            &&& within(cells[j], frame)
        }
    &&& forall|j: int|
        0 <= j < cells.len() && #[trigger] visited[j] && !past[j] ==> queued(queue, j)
    &&& exists|q: int| 0 <= q < queue.len() && cells[#[trigger] queue[q] as int].row == frame.top
    &&& exists|q: int|
        0 <= q < queue.len() && cells[#[trigger] queue[q] as int].row == frame.bottom
    &&& exists|q: int| 0 <= q < queue.len() && cells[#[trigger] queue[q] as int].col == frame.left
    &&& exists|q: int| 0 <= q < queue.len() && cells[#[trigger] queue[q] as int].col == frame.right
    &&& unseen(visited) + queue.len() == unseen(past)
}

/// Whether every neighbour of a cell has been visited.
spec fn surrounded(cells: Seq<CellView>, visited: Seq<bool>, j: int) -> bool {
    forall|k: int| 0 <= k < cells.len() && #[trigger] linked(cells[j], cells[k]) ==> visited[k]
}

/// Visits the cell at a place, where there is one that has not been visited.
fn visit(
    cells: &Vec<SheetCell>,
    row: u128,
    col: u128,
    visited: &mut Vec<bool>,
    queue: &mut Vec<usize>,
    frame: &mut Frame,
    Ghost(start): Ghost<int>,
    Ghost(past): Ghost<Seq<bool>>,
    Ghost(from): Ghost<int>,
)
    requires
        in_order(cells_view(cells@)),
        visiting(
            cells_view(cells@),
            start,
            past,
            old(visited)@,
            old(queue)@,
            old(frame).rect(),
        ),
        0 <= from < cells@.len(),
        connected(cells_view(cells@), start, from),
        forall|k: int|
            0 <= k < cells@.len() && (#[trigger] cells@[k]).row == row && cells@[k].col == col
                ==> linked(cells_view(cells@)[from], cells_view(cells@)[k]),
        whole_regions(cells_view(cells@), past),
        !past[from],
    ensures
        visiting(
            cells_view(cells@),
            start,
            past,
            final(visited)@,
            final(queue)@,
            final(frame).rect(),
        ),
        old(queue)@.is_prefix_of(final(queue)@),
        forall|k: int| 0 <= k < cells@.len() && old(visited)@[k] ==> #[trigger] final(visited)@[k],
        forall|k: int|
            0 <= k < cells@.len() && (#[trigger] cells@[k]).row == row && cells@[k].col == col
                ==> final(visited)@[k],
{
    let ghost all = cells_view(cells@);
    proof {
        reveal(visiting);
    }
    let found = find_cell(cells, row, col);
    if let Some(k) = found {
        assert forall|j: int|
            0 <= j < cells@.len() && (#[trigger] cells@[j]).row == row && cells@[j].col
                == col implies j == k by {
            if j < k {
                assert(precedes(all[j], all[k as int]));
            } else if j > k {
                assert(precedes(all[k as int], all[j]));
            }
        }
        if !visited[k] {
            let ghost old_visited = visited@;
            let ghost old_queue = queue@;
            let ghost old_frame = frame.rect();
            proof {
                lemma_unseen_mark(visited@, k as int);
                assert(linked(all[from], all[k as int]));
                lemma_step(all, start, from, k as int);
            }
            visited.set(k, true);
            queue.push(k);
            if row < frame.top {
                frame.top = row;
            }
            if row > frame.bottom {
                frame.bottom = row;
            }
            if col < frame.left {
                frame.left = col;
            }
            if col > frame.right {
                frame.right = col;
            }
            proof {
                let f = frame.rect();
                assert(queue@[old_queue.len() as int] == k);
                assert forall|q: int| 0 <= q < queue@.len() implies ({
                    let j = #[trigger] queue@[q] as int;
                    &&& j < all.len()
                    &&& visited@[j]
                    &&& !past[j]
                    &&& connected(all, start, j)
                    &&& within(all[j], f)
                }) by {
                    if q < old_queue.len() {
                        assert(queue@[q] == old_queue[q]);
                    }
                }
                assert forall|j: int|
                    0 <= j < all.len() && #[trigger] visited@[j]
                        && !past[j] implies queued(queue@, j) by {
                    if j != k {
                        assert(old_visited[j]);
                        let q = choose|q: int|
                            0 <= q < old_queue.len() && #[trigger] old_queue[q] as int == j;
                        assert(queue@[q] as int == j);
                    } else {
                        assert(queue@[old_queue.len() as int] as int == j);
                    }
                }
                let qt = choose|q: int|
                    0 <= q < old_queue.len() && all[#[trigger] old_queue[q] as int].row
                        == old_frame.top;
                assert(queue@[qt] == old_queue[qt]);
                let qb = choose|q: int|
                    0 <= q < old_queue.len() && all[#[trigger] old_queue[q] as int].row
                        == old_frame.bottom;
                assert(queue@[qb] == old_queue[qb]);
                let ql = choose|q: int|
                    0 <= q < old_queue.len() && all[#[trigger] old_queue[q] as int].col
                        == old_frame.left;
                assert(queue@[ql] == old_queue[ql]);
                let qr = choose|q: int|
                    0 <= q < old_queue.len() && all[#[trigger] old_queue[q] as int].col
                        == old_frame.right;
                assert(queue@[qr] == old_queue[qr]);
                assert(all[k as int].row == row && all[k as int].col == col);
            }
        }
    }
}

/// Visits the neighbours of a cell.
fn visit_around(
    cells: &Vec<SheetCell>,
    k: usize,
    visited: &mut Vec<bool>,
    queue: &mut Vec<usize>,
    frame: &mut Frame,
    Ghost(start): Ghost<int>,
    Ghost(past): Ghost<Seq<bool>>,
)
    requires
        in_order(cells_view(cells@)),
        visiting(
            cells_view(cells@),
            start,
            past,
            old(visited)@,
            old(queue)@,
            old(frame).rect(),
        ),
        k < cells@.len(),
        connected(cells_view(cells@), start, k as int),
        whole_regions(cells_view(cells@), past),
        !past[k as int],
    ensures
        visiting(
            cells_view(cells@),
            start,
            past,
            final(visited)@,
            final(queue)@,
            final(frame).rect(),
        ),
        old(queue)@.is_prefix_of(final(queue)@),
        forall|j: int| 0 <= j < cells@.len() && old(visited)@[j] ==> #[trigger] final(visited)@[j],
        surrounded(cells_view(cells@), final(visited)@, k as int),
{
    let ghost all = cells_view(cells@);
    let ghost from = k as int;
    let r = cells[k].row;
    let c = cells[k].col;
    if c < u128::MAX {
        visit(
            cells,
            r,
            c + 1,
            visited,
            queue,
            frame,
            Ghost(start),
            Ghost(past),
            Ghost(from),
        );
    }
    let ghost seen_a = visited@;
    if c > 0 {
        visit(
            cells,
            r,
            c - 1,
            visited,
            queue,
            frame,
            Ghost(start),
            Ghost(past),
            Ghost(from),
        );
    }
    let ghost seen_b = visited@;
    if r < u128::MAX {
        visit(
            cells,
            r + 1,
            c,
            visited,
            queue,
            frame,
            Ghost(start),
            Ghost(past),
            Ghost(from),
        );
    }
    let ghost seen_c = visited@;
    if r > 0 {
        visit(
            cells,
            r - 1,
            c,
            visited,
            queue,
            frame,
            Ghost(start),
            Ghost(past),
            Ghost(from),
        );
    }
    proof {
        assert forall|j: int|
            0 <= j < cells@.len() && old(visited)@[j] implies #[trigger] visited@[j] by {
            assert(seen_a[j]);
            assert(seen_b[j]);
            assert(seen_c[j]);
        }
        assert forall|j: int| 0 <= j < all.len() && #[trigger] linked(
            all[from],
            all[j],
        ) implies visited@[j] by {
            assert(all[j] == cells@[j]@);
            if cells@[j].row == r && cells@[j].col == c + 1 {
                assert(seen_a[j]);
                assert(seen_b[j]);
                assert(seen_c[j]);
            } else if cells@[j].row == r {
                assert(seen_b[j]);
                assert(seen_c[j]);
            } else if cells@[j].row == r + 1 {
                assert(seen_c[j]);
            }
        }
    }
}

/// Once the neighbours of all queued cells have been visited, the region is the queue.
proof fn lemma_flooded(
    cells: Seq<CellView>,
    start: int,
    past: Seq<bool>,
    visited: Seq<bool>,
    queue: Seq<usize>,
    frame: Rect,
)
    requires
        whole_regions(cells, past),
        visiting(cells, start, past, visited, queue, frame),
        forall|q: int|
            0 <= q < queue.len() ==> surrounded(cells, visited, #[trigger] queue[q] as int),
    ensures
        whole_regions(cells, visited),
        forall|j: int|
            0 <= j < cells.len() ==> (#[trigger] visited[j] <==> past[j] || connected(
                cells,
                start,
                j,
            )),
        is_frame(cells, start, frame),
{
    reveal(visiting);
    let member = |j: int| 0 <= j < cells.len() && visited[j] && !past[j];
    assert forall|a: int, b: int|
        0 <= a < cells.len() && 0 <= b < cells.len() && member(a) && #[trigger] linked(
            cells[a],
            cells[b],
        ) implies member(b) by {
        let q = choose|q: int| 0 <= q < queue.len() && #[trigger] queue[q] as int == a;
        assert(surrounded(cells, visited, queue[q] as int));
        if past[b] {
            assert(linked(cells[b], cells[a]));
        }
    }
    assert(member(start)) by {
        assert(queue[0] as int == start);
    }
    assert forall|j: int| 0 <= j < cells.len() implies (#[trigger] visited[j] <==> past[j]
        || connected(cells, start, j)) by {
        if connected(cells, start, j) {
            lemma_closed(cells, member, start, j);
        }
        if visited[j] && !past[j] {
            let q = choose|q: int| 0 <= q < queue.len() && #[trigger] queue[q] as int == j;
            assert(connected(cells, start, queue[q] as int));
        }
    }
    assert forall|a: int, b: int|
        0 <= a < cells.len() && 0 <= b < cells.len() && visited[a] && #[trigger] linked(
            cells[a],
            cells[b],
        ) implies visited[b] by {
        if !past[a] {
            assert(member(a));
            assert(member(b));
        }
    }
    assert forall|j: int| 0 <= j < cells.len() && #[trigger] connected(
        cells,
        start,
        j,
    ) implies within(cells[j], frame) by {
        lemma_closed(cells, member, start, j);
        assert(member(j));
        let q = choose|q: int| 0 <= q < queue.len() && #[trigger] queue[q] as int == j;
        assert(within(cells[queue[q] as int], frame));
    }
    let qt = choose|q: int|
        0 <= q < queue.len() && cells[#[trigger] queue[q] as int].row == frame.top;
    assert(connected(cells, start, queue[qt] as int));
    let qb = choose|q: int|
        0 <= q < queue.len() && cells[#[trigger] queue[q] as int].row == frame.bottom;
    assert(connected(cells, start, queue[qb] as int));
    let ql = choose|q: int|
        0 <= q < queue.len() && cells[#[trigger] queue[q] as int].col == frame.left;
    assert(connected(cells, start, queue[ql] as int));
    let qr = choose|q: int|
        0 <= q < queue.len() && cells[#[trigger] queue[q] as int].col == frame.right;
    assert(connected(cells, start, queue[qr] as int));
}

/// Visits the region of a cell, and finds the smallest rectangle around it.
fn flood(cells: &Vec<SheetCell>, start: usize, visited: &mut Vec<bool>) -> (frame: Frame)
    requires
        in_order(cells_view(cells@)),
        start < cells@.len(),
        whole_regions(cells_view(cells@), old(visited)@),
        !old(visited)@[start as int],
    ensures
        whole_regions(cells_view(cells@), final(visited)@),
        forall|j: int|
            0 <= j < cells@.len() ==> (#[trigger] final(visited)@[j] <==> old(visited)@[j]
                || connected(cells_view(cells@), start as int, j)),
        is_frame(cells_view(cells@), start as int, frame.rect()),
{
    let ghost all = cells_view(cells@);
    let ghost past = visited@;
    let ghost first = start as int;
    let mut queue: Vec<usize> = Vec::new();
    let row = cells[start].row;
    let col = cells[start].col;
    let mut frame = Frame { top: row, bottom: row, left: col, right: col };
    proof {
        lemma_self(all, first);
        lemma_unseen_mark(past, first);
    }
    visited.set(start, true);
    queue.push(start);
    let mut head: usize = 0;
    assert(visiting(all, first, past, visited@, queue@, frame.rect())) by {
        reveal(visiting);
        assert(queue@[0] == start);
    }
    while head < queue.len()
        invariant
            in_order(all),
            all == cells_view(cells@),
            whole_regions(all, past),
            visiting(all, first, past, visited@, queue@, frame.rect()),
            head <= queue@.len(),
            forall|q: int|
                0 <= q < head ==> surrounded(all, visited@, #[trigger] queue@[q] as int),
        decreases unseen(past) - head,
    {
        let k = queue[head];
        proof {
            reveal(visiting);
        }
        let ghost seen_before = visited@;
        let ghost queue_before = queue@;
        visit_around(cells, k, visited, &mut queue, &mut frame, Ghost(first), Ghost(past));
        proof {
            assert forall|q: int| 0 <= q < head + 1 implies surrounded(
                all,
                visited@,
                #[trigger] queue@[q] as int,
            ) by {
                assert(queue@[q] == queue_before[q]);
                if q < head {
                    let j = queue_before[q] as int;
                    assert(surrounded(all, seen_before, j));
                }
            }
        }
        head += 1;
    }
    proof {
        lemma_flooded(all, first, past, visited@, queue@, frame.rect());
    }
    frame
}

// ---------------------------------------------------------------- tables of a sheet

/// One row of what the sheet shows in a rectangle.
fn cut_row(cells: &Vec<SheetCell>, row: u128, left: u128, right: u128) -> (texts_of_row: Vec<
    String,
>)
    requires
        in_order(cells_view(cells@)),
        left <= right,
    ensures
        texts(texts_of_row@) == Seq::new(
            (right - left + 1) as nat,
            |x: int| text_at(cells_view(cells@), row as int, left + x),
        ),
{
    let ghost all = cells_view(cells@);
    let mut shown: Vec<String> = Vec::new();
    let mut col = left;
    loop
        invariant_except_break
            left <= col <= right,
            in_order(all),
            all == cells_view(cells@),
            shown@.len() == col - left,
            forall|x: int|
                0 <= x < shown@.len() ==> (#[trigger] shown@[x])@ == text_at(
                    all,
                    row as int,
                    left + x,
                ),
        ensures
            shown@.len() == right - left + 1,
            forall|x: int|
                0 <= x < shown@.len() ==> (#[trigger] shown@[x])@ == text_at(
                    all,
                    row as int,
                    left + x,
                ),
        decreases right - col,
    {
        let text = match find_cell(cells, row, col) {
            Some(k) => {
                proof {
                    lemma_text_at(all, k as int);
                }
                cells[k].text.clone()
            },
            None => {
                proof {
                    assert forall|j: int| 0 <= j < all.len() implies !((#[trigger] all[j]).row
                        == row && all[j].col == col) by {
                        assert(all[j] == cells@[j]@);
                    }
                    lemma_no_text_at(all, row as int, col as int);
                }
                let none = String::new();
                assert(none@ =~= Seq::empty());
                none
            },
        };
        shown.push(text);
        if col == right {
            break;
        }
        col += 1;
    }
    shown
}

/// What the sheet shows in a rectangle.
fn cut_table(cells: &Vec<SheetCell>, frame: &Frame) -> (table: Table)
    requires
        in_order(cells_view(cells@)),
        frame.left <= frame.right,
        frame.top <= frame.bottom,
    ensures
        table@ == cut(cells_view(cells@), frame.rect()),
{
    let ghost all = cells_view(cells@);
    let ghost whole = cut(all, frame.rect());
    let mut rows: Vec<Vec<String>> = Vec::new();
    let mut row = frame.top;
    loop
        invariant_except_break
            frame.top <= row <= frame.bottom,
            frame.left <= frame.right,
            in_order(all),
            all == cells_view(cells@),
            whole == cut(all, frame.rect()),
            rows@.len() == row - frame.top,
            forall|y: int| 0 <= y < rows@.len() ==> texts((#[trigger] rows@[y])@) == whole[y],
        ensures
            rows@.len() == frame.bottom - frame.top + 1,
            forall|y: int| 0 <= y < rows@.len() ==> texts((#[trigger] rows@[y])@) == whole[y],
        decreases frame.bottom - row,
    {
        let shown = cut_row(cells, row, frame.left, frame.right);
        assert(texts(shown@) =~= whole[row - frame.top]);
        rows.push(shown);
        if row == frame.bottom {
            break;
        }
        row += 1;
    }
    assert(rows_view(rows@) =~= whole);
    Table { rows }
}

/// Appends a table for each region of connected cells of a sheet, in the order of their first
/// cells, row by row. A cell with no neighbour is a table of its own.
pub fn add_ods_sheet(table: &XmlNode, doc: &mut DoclingDocument)
    ensures
        final(doc)@ == extended(old(doc)@, sheet_tables(table@)),
{
    let cells = read_sheet(table);
    let ghost all = cells_view(cells@);
    proof {
        lemma_sheet_cells(table@.children);
    }
    let ghost past = doc@;
    let mut visited: Vec<bool> = Vec::new();
    let mut k: usize = 0;
    while k < cells.len()
        invariant
            k <= cells@.len(),
            visited@.len() == k,
            forall|j: int| 0 <= j < k ==> !#[trigger] visited@[j],
        decreases cells@.len() - k,
    {
        visited.push(false);
        k += 1;
    }
    let mut i: usize = 0;
    assert(doc@ =~= extended(past, region_tables(all, 0)));
    while i < cells.len()
        invariant
            i <= cells@.len(),
            all == cells_view(cells@),
            in_order(all),
            whole_regions(all, visited@),
            forall|j: int|
                0 <= j < all.len() ==> (#[trigger] visited@[j] <==> exists|l: int|
                    0 <= l < i && #[trigger] connected(all, l, j)),
            doc@ == extended(past, region_tables(all, i as int)),
        decreases cells@.len() - i,
    {
        let ghost seen = visited@;
        let ghost tables = region_tables(all, i as int);
        assert(leads(all, i as int) <==> !seen[i as int]);
        if !visited[i] {
            let frame = flood(&cells, i, &mut visited);
            proof {
                lemma_one_frame(all, i as int, frame.rect(), frame_of(all, i as int));
                lemma_self(all, i as int);
                assert(within(all[i as int], frame.rect()));
            }
            let found = cut_table(&cells, &frame);
            doc.push(Node::Table(found));
            assert(region_tables(all, i + 1) =~= tables.push(
                NodeView::Table { rows: cut(all, frame.rect()) },
            ));
        }
        proof {
            assert forall|j: int| 0 <= j < all.len() implies (#[trigger] visited@[j] <==> exists|
                l: int,
            |
                0 <= l < i + 1 && #[trigger] connected(all, l, j)) by {
                if exists|l: int| 0 <= l < i + 1 && #[trigger] connected(all, l, j) {
                    let l = choose|l: int| 0 <= l < i + 1 && #[trigger] connected(all, l, j);
                    if l < i {
                        assert(seen[j]);
                    } else if seen[i as int] {
                        let m = choose|m: int| 0 <= m < i && #[trigger] connected(all, m, i as int);
                        lemma_onward(all, m, i as int, j);
                        assert(connected(all, m, j));
                    }
                }
            }
            assert(doc@ =~= extended(past, region_tables(all, i + 1)));
        }
        i += 1;
    }
}

/// Appends the tables of all sheets of a spreadsheet.
pub fn walk_spreadsheet(sheet: &XmlNode, doc: &mut DoclingDocument)
    ensures
        final(doc)@ == extended(old(doc)@, workbook_tables(sheet@.children)),
{
    proof {
        lemma_children_view(sheet);
    }
    let ghost all = nodes_view(sheet.children@);
    let ghost past = doc@;
    let mut i: usize = 0;
    assert(doc@ =~= extended(past, workbook_tables(all.take(0))));
    while i < sheet.children.len()
        invariant
            i <= sheet.children@.len(),
            all == nodes_view(sheet.children@),
            doc@ == extended(past, workbook_tables(all.take(i as int))),
        decreases sheet.children@.len() - i,
    {
        let child = &sheet.children[i];
        assert(all.take(i as int + 1).drop_last() =~= all.take(i as int));
        assert(all.take(i as int + 1).last() == child@);
        if child.has_tag_name("table") {
            add_ods_sheet(child, doc);
        }
        assert(doc@ =~= extended(past, workbook_tables(all.take(i as int + 1))));
        i += 1;
    }
    assert(all.take(i as int) =~= all);
}

// ---------------------------------------------------------------- laws

/// The smallest rectangle around what of a region is among the first `n` cells.
spec fn is_part_frame(cells: Seq<CellView>, i: int, n: int, frame: Rect) -> bool {
    &&& forall|j: int|
        0 <= j < n && #[trigger] connected(cells, i, j) ==> within(cells[j], frame)
    &&& exists|j: int|
        0 <= j < n && #[trigger] connected(cells, i, j) && cells[j].row == frame.top
    &&& exists|j: int|
        0 <= j < n && #[trigger] connected(cells, i, j) && cells[j].row == frame.bottom
    &&& exists|j: int|
        0 <= j < n && #[trigger] connected(cells, i, j) && cells[j].col == frame.left
    &&& exists|j: int|
        0 <= j < n && #[trigger] connected(cells, i, j) && cells[j].col == frame.right
}

proof fn lemma_part_frame(cells: Seq<CellView>, i: int, n: int) -> (frame: Rect)
    requires
        0 <= n <= cells.len(),
        exists|j: int| 0 <= j < n && #[trigger] connected(cells, i, j),
    ensures
        is_part_frame(cells, i, n, frame),
    decreases n,
{
    let last = cells[n - 1];
    let alone = Rect { top: last.row, bottom: last.row, left: last.col, right: last.col };
    if exists|j: int| 0 <= j < n - 1 && #[trigger] connected(cells, i, j) {
        let f = lemma_part_frame(cells, i, n - 1);
        if connected(cells, i, n - 1) {
            let g = Rect {
                top: if last.row < f.top {
                    last.row
                } else {
                    f.top
                },
                bottom: if last.row > f.bottom {
                    last.row
                } else {
                    f.bottom
                },
                left: if last.col < f.left {
                    last.col
                } else {
                    f.left
                },
                right: if last.col > f.right {
                    last.col
                } else {
                    f.right
                },
            };
            assert(is_part_frame(cells, i, n, g)) by {
                let a = choose|j: int|
                    0 <= j < n - 1 && #[trigger] connected(cells, i, j) && cells[j].row == f.top;
                let b = choose|j: int|
                    0 <= j < n - 1 && #[trigger] connected(cells, i, j) && cells[j].row
                        == f.bottom;
                let c = choose|j: int|
                    0 <= j < n - 1 && #[trigger] connected(cells, i, j) && cells[j].col == f.left;
                let d = choose|j: int|
                    0 <= j < n - 1 && #[trigger] connected(cells, i, j) && cells[j].col
                        == f.right;
                assert(connected(cells, i, a) && connected(cells, i, b));
                assert(connected(cells, i, c) && connected(cells, i, d));
                assert(connected(cells, i, n - 1));
            }
            g
        } else {
            f
        }
    } else {
        let j = choose|j: int| 0 <= j < n && #[trigger] connected(cells, i, j);
        assert(j == n - 1);
        assert(connected(cells, i, n - 1));
        alone
    }
}

/// Every region has a smallest rectangle around it.
pub proof fn lemma_has_frame(cells: Seq<CellView>, i: int)
    requires
        0 <= i < cells.len(),
    ensures
        is_frame(cells, i, frame_of(cells, i)),
{
    lemma_self(cells, i);
    let f = lemma_part_frame(cells, i, cells.len() as int);
    assert(is_frame(cells, i, f));
}

proof fn lemma_leader(cells: Seq<CellView>, k: int, n: int)
    requires
        0 <= k < cells.len(),
        n >= 0,
        exists|i: int| 0 <= i < n && #[trigger] connected(cells, i, k),
    ensures
        exists|i: int|
            0 <= i < cells.len() && leads(cells, i) && #[trigger] connected(cells, i, k),
    decreases n,
{
    let i = choose|i: int| 0 <= i < n && #[trigger] connected(cells, i, k);
    lemma_back(cells, i, k);
    if !leads(cells, i) {
        let j = choose|j: int| 0 <= j < i && connected(cells, j, i);
        lemma_onward(cells, j, i, k);
        assert(connected(cells, j, k));
        lemma_leader(cells, k, i);
    }
}

/// Every cell belongs to the region of exactly one first cell.
pub proof fn law_one_region_each(cells: Seq<CellView>, k: int)
    requires
        0 <= k < cells.len(),
    ensures
        exists|i: int|
            0 <= i < cells.len() && leads(cells, i) && #[trigger] connected(cells, i, k),
        forall|i: int, j: int|
            leads(cells, i) && leads(cells, j) && #[trigger] connected(cells, i, k)
                && #[trigger] connected(cells, j, k) ==> i == j,
{
    lemma_self(cells, k);
    lemma_leader(cells, k, k + 1);
    assert forall|i: int, j: int|
        leads(cells, i) && leads(cells, j) && #[trigger] connected(cells, i, k)
            && #[trigger] connected(cells, j, k) implies i == j by {
        lemma_back(cells, i, k);
        lemma_back(cells, j, k);
        lemma_onward(cells, i, k, j);
        lemma_onward(cells, j, k, i);
    }
}

/// Neighbours belong to one region.
pub proof fn law_neighbours_share_a_region(cells: Seq<CellView>, i: int, j: int, k: int)
    requires
        0 <= j < cells.len(),
        0 <= k < cells.len(),
        linked(cells[j], cells[k]),
    ensures
        connected(cells, i, j) <==> connected(cells, i, k),
{
    if connected(cells, i, j) {
        lemma_step(cells, i, j, k);
    }
    if connected(cells, i, k) {
        lemma_step(cells, i, k, j);
    }
}

proof fn lemma_region_tables(cells: Seq<CellView>, i: int, n: int)
    requires
        0 <= i < n,
        leads(cells, i),
    ensures
        region_tables(cells, i).len() < region_tables(cells, n).len(),
        region_tables(cells, n)[region_tables(cells, i).len() as int] == (NodeView::Table {
            rows: cut(cells, frame_of(cells, i)),
        }),
    decreases n,
{
    if i < n - 1 {
        lemma_region_tables(cells, i, n - 1);
    }
}

/// Every cell is shown in the table of its region, as far from the table's first row and column
/// as it is from the region's.
pub proof fn law_every_cell_is_shown(table: XmlView, i: int, k: int)
    requires
        0 <= k < sheet_cells(table.children).len(),
        0 <= i < sheet_cells(table.children).len(),
        leads(sheet_cells(table.children), i),
        connected(sheet_cells(table.children), i, k),
    ensures
        ({
            let cells = sheet_cells(table.children);
            let frame = frame_of(cells, i);
            let place = region_tables(cells, i).len() as int;
            &&& 0 <= place < sheet_tables(table).len()
            &&& sheet_tables(table)[place] == (NodeView::Table { rows: cut(cells, frame) })
            &&& within(cells[k], frame)
            &&& cut(cells, frame)[cells[k].row - frame.top][cells[k].col - frame.left]
                == cells[k].text
        }),
{
    let cells = sheet_cells(table.children);
    lemma_region_tables(cells, i, cells.len() as int);
    lemma_has_frame(cells, i);
    lemma_sheet_cells(table.children);
    lemma_text_at(cells, k);
}

/// A cell with no neighbour is a table of one row and one column.
pub proof fn law_lonely_cell_is_a_table(cells: Seq<CellView>, k: int)
    requires
        in_order(cells),
        0 <= k < cells.len(),
        forall|j: int| 0 <= j < cells.len() ==> !#[trigger] linked(cells[k], cells[j]),
    ensures
        leads(cells, k),
        cut(cells, frame_of(cells, k)) == seq![seq![cells[k].text]],
{
    let s = |j: int| j == k;
    assert forall|j: int| connected(cells, k, j) implies j == k by {
        lemma_closed(cells, s, k, j);
    }
    assert forall|j: int| 0 <= j < k implies !connected(cells, j, k) by {
        if connected(cells, j, k) {
            lemma_back(cells, j, k);
        }
    }
    lemma_has_frame(cells, k);
    lemma_self(cells, k);
    lemma_text_at(cells, k);
    let frame = frame_of(cells, k);
    assert(within(cells[k], frame));
    assert(cut(cells, frame)[0] =~= seq![cells[k].text]);
    assert(cut(cells, frame) =~= seq![seq![cells[k].text]]);
}

/// The table of a region has at least one row and one column, and all its rows are as long.
pub proof fn law_tables_are_rectangles(cells: Seq<CellView>, i: int)
    requires
        0 <= i < cells.len(),
    ensures
        ({
            let frame = frame_of(cells, i);
            let rows = cut(cells, frame);
            &&& rows.len() == frame.bottom - frame.top + 1
            &&& rows.len() > 0
            &&& frame.right >= frame.left
            &&& forall|y: int|
                0 <= y < rows.len() ==> (#[trigger] rows[y]).len() == frame.right - frame.left + 1
        }),
{
    lemma_has_frame(cells, i);
    lemma_self(cells, i);
    assert(within(cells[i], frame_of(cells, i)));
}

/// A sheet without content gives no table.
pub proof fn law_empty_sheet_gives_nothing(table: XmlView)
    ensures
        sheet_cells(table.children).len() == 0 <==> sheet_tables(table).len() == 0,
{
    let cells = sheet_cells(table.children);
    if cells.len() > 0 {
        assert(leads(cells, 0));
        lemma_region_tables(cells, 0, cells.len() as int);
    }
}

// ---------------------------------------------------------------- what fits

proof fn lemma_region_tables_fit(cells: Seq<CellView>, n: int)
    ensures
        fits(region_tables(cells, n)),
    decreases n,
{
    if n > 0 {
        lemma_region_tables_fit(cells, n - 1);
    }
}

/// The tables of a spreadsheet always fit.
pub proof fn lemma_workbook_fits(nodes: Seq<XmlView>)
    ensures
        fits(workbook_tables(nodes)),
    decreases nodes.len(),
{
    if nodes.len() > 0 {
        lemma_workbook_fits(nodes.drop_last());
        let cells = sheet_cells(nodes.last().children);
        lemma_region_tables_fit(cells, cells.len() as int);
        lemma_fits_add(workbook_tables(nodes.drop_last()), sheet_tables(nodes.last()));
    }
}

} // verus!
