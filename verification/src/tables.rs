//! Tables in texts and presentations.

use vstd::prelude::*;

use crate::document::{rows_view, Table};
use crate::lists::is_block_text;
use crate::runs::{count_attr, markdown_of, paragraph_text, usize_attr};
use crate::styles::{Styles, StylesView};
use crate::text::{join, joined, lemma_nonempty_push, nonempty, texts};
use crate::xml::{
    all_nodes, is_tag, lemma_children_view, nodes_view, refs_view, XmlNode, XmlView,
};

verus! {

/// The texts of the paragraphs among the given nodes.
pub open spec fn paragraph_texts(nodes: Seq<XmlView>, styles: StylesView) -> Seq<Seq<char>>
    decreases nodes.len(),
{
    if nodes.len() == 0 {
        Seq::empty()
    } else if is_block_text(nodes.last()) {
        paragraph_texts(nodes.drop_last(), styles).push(markdown_of(nodes.last(), styles))
    } else {
        paragraph_texts(nodes.drop_last(), styles)
    }
}

/// The text of a table cell: its paragraphs, with a space between them.
pub open spec fn cell_markdown(tc: XmlView, styles: StylesView) -> Seq<char> {
    joined(nonempty(paragraph_texts(tc.children, styles)), " "@)
}

/// A count that is at least one.
pub open spec fn at_least_one(n: int) -> int {
    if n < 1 {
        1
    } else {
        n
    }
}

/// How many columns a cell fills: as often as it is repeated, times the columns that it spans.
pub open spec fn cell_width(tc: XmlView) -> int {
    at_least_one(count_attr(tc, "number-columns-repeated"@)) * at_least_one(
        count_attr(tc, "number-columns-spanned"@),
    )
}

/// `n` copies of a text.
pub open spec fn copies(text: Seq<char>, n: int) -> Seq<Seq<char>> {
    Seq::new(n as nat, |i: int| text)
}

/// The columns that the cells among the given nodes fill.
pub open spec fn columns(nodes: Seq<XmlView>, styles: StylesView) -> Seq<Seq<char>>
    decreases nodes.len(),
{
    if nodes.len() == 0 {
        Seq::empty()
    } else if is_tag(nodes.last(), "table-cell"@) {
        columns(nodes.drop_last(), styles) + copies(
            cell_markdown(nodes.last(), styles),
            cell_width(nodes.last()),
        )
    } else {
        columns(nodes.drop_last(), styles)
    }
}

/// A row without the empty cells at its end.
pub open spec fn without_blanks(cells: Seq<Seq<char>>) -> Seq<Seq<char>>
    decreases cells.len(),
{
    if cells.len() > 0 && cells.last().len() == 0 {
        without_blanks(cells.drop_last())
    } else {
        cells
    }
}

/// The rows with anything in them among the given nodes.
pub open spec fn table_rows(nodes: Seq<XmlView>, styles: StylesView) -> Seq<Seq<Seq<char>>>
    decreases nodes.len(),
{
    if nodes.len() == 0 {
        Seq::empty()
    } else {
        let before = table_rows(nodes.drop_last(), styles);
        let row = without_blanks(columns(nodes.last().children, styles));
        if is_tag(nodes.last(), "table-row"@) && row.len() > 0 {
            before.push(row)
        } else {
            before
        }
    }
}

/// The rows of a table element, where there are any.
pub open spec fn table_of(table: XmlView, styles: StylesView) -> Option<Seq<Seq<Seq<char>>>> {
    let rows = table_rows(all_nodes(table), styles);
    if rows.len() == 0 {
        None
    } else {
        Some(rows)
    }
}

/// The text of a table cell: its paragraphs, with a space between them.
pub fn cell_text(tc: &XmlNode, styles: &Styles) -> (text: String)
    ensures
        text@ == cell_markdown(tc@, styles@),
{
    proof {
        lemma_children_view(tc);
    }
    let ghost all = nodes_view(tc.children@);
    let mut parts: Vec<String> = Vec::new();
    let mut i: usize = 0;
    assert(texts(parts@) =~= Seq::empty());
    while i < tc.children.len()
        invariant
            i <= tc.children@.len(),
            all == nodes_view(tc.children@),
            all == tc@.children,
            texts(parts@) == nonempty(paragraph_texts(all.take(i as int), styles@)),
        decreases tc.children@.len() - i,
    {
        let child = &tc.children[i];
        assert(all.take(i as int + 1).drop_last() =~= all.take(i as int));
        assert(all.take(i as int + 1).last() == child@);
        if child.has_tag_name("p") || child.has_tag_name("h") {
            let text = paragraph_text(child, styles);
            proof {
                lemma_nonempty_push(paragraph_texts(all.take(i as int), styles@), text@);
            }
            if !text.as_str().is_empty() {
                let ghost before = texts(parts@);
                parts.push(text);
                assert(texts(parts@) =~= before.push(text@));
            }
        }
        i += 1;
    }
    assert(all.take(i as int) =~= all);
    join(&parts, " ")
}

/// Appends a text to a row `repeat` times `span` times.
fn push_copies(cells: &mut Vec<String>, text: &String, repeat: usize, span: usize)
    ensures
        texts(final(cells)@) == texts(old(cells)@) + copies(text@, repeat * span),
{
    let ghost before = texts(cells@);
    let mut a: usize = 0;
    assert(copies(text@, 0 * span) =~= Seq::empty());
    while a < repeat
        invariant
            a <= repeat,
            before == texts(old(cells)@),
            texts(cells@) =~= before + copies(text@, a * span),
        decreases repeat - a,
    {
        let ghost start = texts(cells@);
        let mut b: usize = 0;
        while b < span
            invariant
                b <= span,
                texts(cells@) =~= start + copies(text@, b as int),
            decreases span - b,
        {
            let ghost known = texts(cells@);
            cells.push(text.clone());
            assert(texts(cells@) =~= known.push(text@));
            b += 1;
        }
        assert((a + 1) * span == a * span + span) by (nonlinear_arith);
        assert(0 <= a * span) by (nonlinear_arith);
        assert(copies(text@, a * span) + copies(text@, span as int) =~= copies(
            text@,
            (a + 1) * span,
        ));
        a += 1;
    }
}

/// The columns of a row, without the empty ones at its end.
fn row_cells(tr: &XmlNode, styles: &Styles) -> (cells: Vec<String>)
    ensures
        texts(cells@) == without_blanks(columns(tr@.children, styles@)),
{
    proof {
        lemma_children_view(tr);
    }
    let ghost all = nodes_view(tr.children@);
    let mut cells: Vec<String> = Vec::new();
    let mut i: usize = 0;
    assert(texts(cells@) =~= Seq::empty());
    while i < tr.children.len()
        invariant
            i <= tr.children@.len(),
            all == nodes_view(tr.children@),
            all == tr@.children,
            texts(cells@) == columns(all.take(i as int), styles@),
        decreases tr.children@.len() - i,
    {
        let tc = &tr.children[i];
        assert(all.take(i as int + 1).drop_last() =~= all.take(i as int));
        assert(all.take(i as int + 1).last() == tc@);
        if tc.has_tag_name("table-cell") {
            let repeat = usize_attr(tc, "number-columns-repeated");
            let span = usize_attr(tc, "number-columns-spanned");
            let text = cell_text(tc, styles);
            push_copies(
                &mut cells,
                &text,
                if repeat < 1 {
                    1
                } else {
                    repeat
                },
                if span < 1 {
                    1
                } else {
                    span
                },
            );
        }
        i += 1;
    }
    assert(all.take(i as int) =~= all);
    while cells.len() > 0 && cells[cells.len() - 1].as_str().is_empty()
        invariant
            without_blanks(texts(cells@)) == without_blanks(columns(tr@.children, styles@)),
        decreases cells@.len(),
    {
        let ghost known = texts(cells@);
        assert(known.last() == cells@[cells@.len() - 1]@);
        cells.pop();
        assert(texts(cells@) =~= known.drop_last());
    }
    if cells.len() > 0 {
        assert(texts(cells@).last() == cells@[cells@.len() - 1]@);
    }
    cells
}

/// The table of a table element, where any row holds anything.
pub fn parse_table(table: &XmlNode, styles: &Styles) -> (out: Option<Table>)
    ensures
        (match out {
            Some(t) => Some(t@),
            None => None,
        }) == table_of(table@, styles@),
{
    let nodes = table.descendants();
    let ghost all = refs_view(nodes@);
    let mut rows: Vec<Vec<String>> = Vec::new();
    let mut i: usize = 0;
    assert(rows_view(rows@) =~= Seq::empty());
    while i < nodes.len()
        invariant
            i <= nodes@.len(),
            all == refs_view(nodes@),
            rows_view(rows@) == table_rows(all.take(i as int), styles@),
        decreases nodes@.len() - i,
    {
        let tr = nodes[i];
        assert(all.take(i as int + 1).drop_last() =~= all.take(i as int));
        assert(all.take(i as int + 1).last() == tr@);
        if tr.has_tag_name("table-row") {
            let cells = row_cells(tr, styles);
            if cells.len() > 0 {
                let ghost before = rows_view(rows@);
                rows.push(cells);
                assert(rows_view(rows@) =~= before.push(texts(cells@)));
            }
        }
        i += 1;
    }
    assert(all.take(i as int) =~= all);
    if rows.len() == 0 {
        None
    } else {
        Some(Table { rows })
    }
}

/// A table keeps no row without cells, and no row ends in an empty cell.
pub proof fn law_rows_end_in_content(table: XmlView, styles: StylesView)
    ensures
        table_of(table, styles) matches Some(rows) ==> rows.len() > 0 && forall|r: int|
            0 <= r < rows.len() ==> (#[trigger] rows[r]).len() > 0 && rows[r].last().len() > 0,
{
    lemma_rows_end_in_content(all_nodes(table), styles);
}

proof fn lemma_rows_end_in_content(nodes: Seq<XmlView>, styles: StylesView)
    ensures
        forall|r: int|
            0 <= r < table_rows(nodes, styles).len() ==> (#[trigger] table_rows(
                nodes,
                styles,
            )[r]).len() > 0 && table_rows(nodes, styles)[r].last().len() > 0,
    decreases nodes.len(),
{
    if nodes.len() > 0 {
        lemma_rows_end_in_content(nodes.drop_last(), styles);
        lemma_without_blanks(columns(nodes.last().children, styles));
        let before = table_rows(nodes.drop_last(), styles);
        let rows = table_rows(nodes, styles);
        assert forall|r: int| 0 <= r < rows.len() implies (#[trigger] rows[r]).len() > 0
            && rows[r].last().len() > 0 by {
            if r < before.len() {
                assert(rows[r] == before[r]);
            }
        }
    }
}

proof fn lemma_without_blanks(cells: Seq<Seq<char>>)
    ensures
        without_blanks(cells).len() > 0 ==> without_blanks(cells).last().len() > 0,
    decreases cells.len(),
{
    if cells.len() > 0 && cells.last().len() == 0 {
        lemma_without_blanks(cells.drop_last());
    }
}

} // verus!
