//! Blocks: headings, paragraphs, lists and tables of texts and presentations.

use vstd::prelude::*;

use crate::document::{extended, DoclingDocument, Node, NodeView};
use crate::lists::{
    fits, lemma_fits_add, list_nodes, progress_is, try_add_list, ContView, Progress,
};
use crate::runs::{markdown_of, paragraph_text};
use crate::styles::{
    has_text, i64_attr, int_attr, known_names, paragraph_style_names, Styles, StylesView,
};
use crate::tables::{parse_table, table_of};
use crate::text::same_text;
use crate::xml::{
    all_nodes, attr, attr_of, is_tag, lemma_children_view, nodes_view, refs_view, XmlNode, XmlView,
};

verus! {

// ---------------------------------------------------------------- one block

/// The level of a heading: one below its outline level, which is at least one. It is kept in a
/// byte, so that it starts again at zero behind 255.
pub open spec fn heading_level(el: XmlView) -> int {
    let outline = match int_attr(el, "outline-level"@) {
        Some(n) => if n < 1 {
            1
        } else {
            n
        },
        None => 1,
    };
    (outline + 1) % 256
}

/// The block of a paragraph with text: a heading where its style is one for titles or headings. A
/// title is at level one, a subtitle at level two, and a paragraph in the style of headings, which
/// tells of no outline level, at level three.
pub open spec fn paragraph_block(names: Seq<Seq<char>>, text: Seq<char>) -> NodeView {
    if names.contains("Title"@) {
        NodeView::Heading { level: 1, text }
    } else if names.contains("Subtitle"@) {
        NodeView::Heading { level: 2, text }
    } else if names.contains("Heading"@) {
        NodeView::Heading { level: 3, text }
    } else {
        NodeView::Paragraph { text }
    }
}

/// The blocks that a table element becomes: one, or none where it has no content.
pub open spec fn table_nodes(el: XmlView, styles: StylesView) -> Seq<NodeView> {
    match table_of(el, styles) {
        Some(rows) => seq![NodeView::Table { rows }],
        None => Seq::empty(),
    }
}

/// The blocks that an element becomes.
pub open spec fn block_nodes(el: XmlView, styles: StylesView, list_level: int) -> Seq<NodeView> {
    let text = markdown_of(el, styles);
    if el.name == "h"@ {
        if text.len() == 0 {
            Seq::empty()
        } else {
            seq![NodeView::Heading { level: heading_level(el), text }]
        }
    } else if el.name == "p"@ {
        if text.len() == 0 {
            Seq::empty()
        } else {
            seq![paragraph_block(known_names(styles, attr_of(el, "style-name"@)), text)]
        }
    } else if el.name == "list"@ {
        list_nodes(el, styles, list_level, 1, false, None).0
    } else if el.name == "table"@ {
        table_nodes(el, styles)
    } else {
        Seq::empty()
    }
}

// ---------------------------------------------------------------- a run of blocks

/// The blocks that sibling elements become, and where a list stopped that they end with.
///
/// A list can go on where the list right before it stopped; any other element ends that.
pub open spec fn sibling_nodes(nodes: Seq<XmlView>, styles: StylesView) -> (
    Seq<NodeView>,
    Option<ContView>,
)
    decreases nodes.len(),
{
    if nodes.len() == 0 {
        (Seq::empty(), None)
    } else {
        let (before, cont) = sibling_nodes(nodes.drop_last(), styles);
        let el = nodes.last();
        if !el.is_element {
            (before, cont)
        } else if el.name == "list"@ {
            let (inner, stopped) = list_nodes(el, styles, 0, 1, false, cont);
            (before + inner, stopped)
        } else {
            (before + block_nodes(el, styles, 0), None)
        }
    }
}

/// The blocks of a text.
pub open spec fn text_nodes(text: XmlView, styles: StylesView) -> Seq<NodeView> {
    sibling_nodes(text.children, styles).0
}

// ---------------------------------------------------------------- presentations

/// The blocks of the text boxes among the given nodes.
pub open spec fn box_nodes(nodes: Seq<XmlView>, styles: StylesView) -> Seq<NodeView>
    decreases nodes.len(),
{
    if nodes.len() == 0 {
        Seq::empty()
    } else {
        let before = box_nodes(nodes.drop_last(), styles);
        if is_tag(nodes.last(), "text-box"@) {
            before + text_nodes(nodes.last(), styles)
        } else {
            before
        }
    }
}

/// The blocks of the tables among the given nodes.
pub open spec fn framed_tables(nodes: Seq<XmlView>, styles: StylesView) -> Seq<NodeView>
    decreases nodes.len(),
{
    if nodes.len() == 0 {
        Seq::empty()
    } else {
        let before = framed_tables(nodes.drop_last(), styles);
        if is_tag(nodes.last(), "table"@) {
            before + table_nodes(nodes.last(), styles)
        } else {
            before
        }
    }
}

/// The blocks of the frames among the given nodes: of each its text boxes, then its tables.
pub open spec fn frame_nodes(nodes: Seq<XmlView>, styles: StylesView) -> Seq<NodeView>
    decreases nodes.len(),
{
    if nodes.len() == 0 {
        Seq::empty()
    } else {
        let before = frame_nodes(nodes.drop_last(), styles);
        let frame = nodes.last();
        if is_tag(frame, "frame"@) {
            before + (box_nodes(frame.children, styles) + framed_tables(frame.children, styles))
        } else {
            before
        }
    }
}

/// The blocks of the pages among the given nodes: of each those of its frames, at any depth.
pub open spec fn page_nodes(nodes: Seq<XmlView>, styles: StylesView) -> Seq<NodeView>
    decreases nodes.len(),
{
    if nodes.len() == 0 {
        Seq::empty()
    } else {
        let before = page_nodes(nodes.drop_last(), styles);
        if is_tag(nodes.last(), "page"@) {
            before + frame_nodes(all_nodes(nodes.last()), styles)
        } else {
            before
        }
    }
}

/// The blocks of a presentation.
pub open spec fn slide_nodes(pres: XmlView, styles: StylesView) -> Seq<NodeView> {
    page_nodes(pres.children, styles)
}

// ---------------------------------------------------------------- what fits

proof fn lemma_siblings_part(nodes: Seq<XmlView>, k: int, styles: StylesView)
    requires
        0 <= k <= nodes.len(),
        fits(sibling_nodes(nodes, styles).0),
    ensures
        fits(sibling_nodes(nodes.take(k), styles).0),
    decreases nodes.len(),
{
    if k == nodes.len() {
        assert(nodes.take(k) =~= nodes);
    } else {
        let (before, cont) = sibling_nodes(nodes.drop_last(), styles);
        let el = nodes.last();
        lemma_fits_add(before, list_nodes(el, styles, 0, 1, false, cont).0);
        lemma_fits_add(before, block_nodes(el, styles, 0));
        lemma_siblings_part(nodes.drop_last(), k, styles);
        assert(nodes.drop_last().take(k) =~= nodes.take(k));
    }
}

proof fn lemma_boxes_part(nodes: Seq<XmlView>, k: int, styles: StylesView)
    requires
        0 <= k <= nodes.len(),
        fits(box_nodes(nodes, styles)),
    ensures
        fits(box_nodes(nodes.take(k), styles)),
    decreases nodes.len(),
{
    if k == nodes.len() {
        assert(nodes.take(k) =~= nodes);
    } else {
        lemma_fits_add(box_nodes(nodes.drop_last(), styles), text_nodes(nodes.last(), styles));
        lemma_boxes_part(nodes.drop_last(), k, styles);
        assert(nodes.drop_last().take(k) =~= nodes.take(k));
    }
}

/// Tables always fit.
proof fn lemma_tables_fit(nodes: Seq<XmlView>, styles: StylesView)
    ensures
        fits(framed_tables(nodes, styles)),
    decreases nodes.len(),
{
    if nodes.len() > 0 {
        lemma_tables_fit(nodes.drop_last(), styles);
        lemma_fits_add(
            framed_tables(nodes.drop_last(), styles),
            table_nodes(nodes.last(), styles),
        );
    }
}

proof fn lemma_frames_part(nodes: Seq<XmlView>, k: int, styles: StylesView)
    requires
        0 <= k <= nodes.len(),
        fits(frame_nodes(nodes, styles)),
    ensures
        fits(frame_nodes(nodes.take(k), styles)),
    decreases nodes.len(),
{
    if k == nodes.len() {
        assert(nodes.take(k) =~= nodes);
    } else {
        let frame = nodes.last();
        lemma_fits_add(
            frame_nodes(nodes.drop_last(), styles),
            box_nodes(frame.children, styles) + framed_tables(frame.children, styles),
        );
        lemma_frames_part(nodes.drop_last(), k, styles);
        assert(nodes.drop_last().take(k) =~= nodes.take(k));
    }
}

proof fn lemma_pages_part(nodes: Seq<XmlView>, k: int, styles: StylesView)
    requires
        0 <= k <= nodes.len(),
        fits(page_nodes(nodes, styles)),
    ensures
        fits(page_nodes(nodes.take(k), styles)),
    decreases nodes.len(),
{
    if k == nodes.len() {
        assert(nodes.take(k) =~= nodes);
    } else {
        lemma_fits_add(
            page_nodes(nodes.drop_last(), styles),
            frame_nodes(all_nodes(nodes.last()), styles),
        );
        lemma_pages_part(nodes.drop_last(), k, styles);
        assert(nodes.drop_last().take(k) =~= nodes.take(k));
    }
}

// ---------------------------------------------------------------- appending blocks

/// The level of a heading.
fn level_of_heading(el: &XmlNode) -> (level: u8)
    ensures
        level == heading_level(el@),
{
    let outline: i64 = match i64_attr(el, "outline-level") {
        Some(n) => if n < 1 {
            1
        } else {
            n
        },
        None => 1,
    };
    let byte: u64 = (outline as u64 + 1) % 256;
    byte as u8
}

/// Appends the table of a table element, where it has content.
fn add_table(el: &XmlNode, styles: &Styles, doc: &mut DoclingDocument)
    ensures
        final(doc)@ == extended(old(doc)@, table_nodes(el@, styles@)),
{
    match parse_table(el, styles) {
        Some(table) => {
            doc.push(Node::Table(table));
        },
        None => {},
    }
    assert(doc@ =~= extended(old(doc)@, table_nodes(el@, styles@)));
}

/// Appends the blocks of an element; says whether they fit.
pub(crate) fn try_handle_block(
    el: &XmlNode,
    styles: &Styles,
    doc: &mut DoclingDocument,
    list_level: u8,
) -> (fit: bool)
    requires
        styles@.wf(),
    ensures
        fit == fits(block_nodes(el@, styles@, list_level as int)),
        fit ==> final(doc)@ == extended(
            old(doc)@,
            block_nodes(el@, styles@, list_level as int),
        ),
{
    let ghost whole = block_nodes(el@, styles@, list_level as int);
    let name = el.name.as_str();
    if same_text(name, "h") {
        let level = level_of_heading(el);
        let text = paragraph_text(el, styles);
        if !text.as_str().is_empty() {
            doc.push(Node::Heading { level, text });
        }
    } else if same_text(name, "p") {
        let names = paragraph_style_names(styles, attr(el, "style-name"));
        let text = paragraph_text(el, styles);
        if !text.as_str().is_empty() {
            if has_text(&names, "Title") {
                doc.push(Node::Heading { level: 1, text });
            } else if has_text(&names, "Subtitle") {
                doc.push(Node::Heading { level: 2, text });
            } else if has_text(&names, "Heading") {
                doc.push(Node::Heading { level: 3, text });
            } else {
                doc.push(Node::Paragraph { text });
            }
        }
    } else if same_text(name, "list") {
        return try_add_list(el, styles, doc, list_level, None, Ghost(None)).is_some();
    } else if same_text(name, "table") {
        add_table(el, styles, doc);
    }
    assert(doc@ =~= extended(old(doc)@, whole));
    true
}

/// Appends the blocks of sibling elements; says whether they fit.
pub(crate) fn try_walk_blocks(els: &Vec<XmlNode>, styles: &Styles, doc: &mut DoclingDocument) -> (
    fit: bool)
    requires
        styles@.wf(),
    ensures
        fit == fits(sibling_nodes(nodes_view(els@), styles@).0),
        fit ==> final(doc)@ == extended(old(doc)@, sibling_nodes(nodes_view(els@), styles@).0),
{
    let ghost all = nodes_view(els@);
    let mut prev: Option<Progress> = None;
    let mut i: usize = 0;
    assert(doc@ =~= extended(old(doc)@, Seq::empty()));
    while i < els.len()
        invariant
            styles@.wf(),
            i <= els@.len(),
            all == nodes_view(els@),
            fits(sibling_nodes(all.take(i as int), styles@).0),
            progress_is(prev, sibling_nodes(all.take(i as int), styles@).1),
            doc@ == extended(old(doc)@, sibling_nodes(all.take(i as int), styles@).0),
        decreases els@.len() - i,
    {
        let el = &els[i];
        let ghost (before, cont) = sibling_nodes(all.take(i as int), styles@);
        let ghost part = sibling_nodes(all.take(i as int + 1), styles@);
        assert(el@ == all[i as int]);
        assert(all.take(i as int + 1).drop_last() =~= all.take(i as int));
        proof {
            if fits(sibling_nodes(all, styles@).0) {
                lemma_siblings_part(all, i as int + 1, styles@);
            }
            lemma_fits_add(before, list_nodes(el@, styles@, 0, 1, false, cont).0);
            lemma_fits_add(before, block_nodes(el@, styles@, 0));
        }
        if el.is_element {
            if same_text(el.name.as_str(), "list") {
                match try_add_list(el, styles, doc, 0, prev, Ghost(cont)) {
                    Some(stopped) => {
                        prev = stopped;
                    },
                    None => {
                        return false;
                    },
                }
            } else {
                prev = None;
                if !try_handle_block(el, styles, doc, 0) {
                    return false;
                }
            }
            assert(doc@.nodes =~= old(doc)@.nodes + part.0);
        }
        i += 1;
    }
    assert(all.take(i as int) =~= all);
    true
}

/// Appends the blocks of a text; says whether they fit.
pub(crate) fn try_walk_text(text: &XmlNode, styles: &Styles, doc: &mut DoclingDocument) -> (fit:
    bool)
    requires
        styles@.wf(),
    ensures
        fit == fits(text_nodes(text@, styles@)),
        fit ==> final(doc)@ == extended(old(doc)@, text_nodes(text@, styles@)),
{
    proof {
        lemma_children_view(text);
    }
    try_walk_blocks(&text.children, styles, doc)
}

/// Appends the blocks of a frame: its text boxes, then its tables; says whether they fit.
fn try_walk_frame(frame: &XmlNode, styles: &Styles, doc: &mut DoclingDocument) -> (fit: bool)
    requires
        styles@.wf(),
    ensures
        ({
            let nodes = box_nodes(frame@.children, styles@) + framed_tables(
                frame@.children,
                styles@,
            );
            &&& fit == fits(nodes)
            &&& fit ==> final(doc)@ == extended(old(doc)@, nodes)
        }),
{
    proof {
        lemma_children_view(frame);
    }
    let ghost all = nodes_view(frame.children@);
    let ghost boxes = box_nodes(all, styles@);
    proof {
        lemma_tables_fit(all, styles@);
        lemma_fits_add(boxes, framed_tables(all, styles@));
    }
    let mut i: usize = 0;
    assert(doc@ =~= extended(old(doc)@, Seq::empty()));
    while i < frame.children.len()
        invariant
            styles@.wf(),
            i <= frame.children@.len(),
            all == nodes_view(frame.children@),
            all == frame@.children,
            boxes == box_nodes(all, styles@),
            fits(boxes + framed_tables(all, styles@)) == fits(boxes),
            fits(box_nodes(all.take(i as int), styles@)),
            doc@ == extended(old(doc)@, box_nodes(all.take(i as int), styles@)),
        decreases frame.children@.len() - i,
    {
        let child = &frame.children[i];
        let ghost before = box_nodes(all.take(i as int), styles@);
        assert(child@ == all[i as int]);
        assert(all.take(i as int + 1).drop_last() =~= all.take(i as int));
        proof {
            if fits(boxes) {
                lemma_boxes_part(all, i as int + 1, styles@);
            }
            lemma_fits_add(before, text_nodes(child@, styles@));
        }
        if child.has_tag_name("text-box") {
            if !try_walk_text(child, styles, doc) {
                return false;
            }
            assert(doc@.nodes =~= old(doc)@.nodes + (before + text_nodes(child@, styles@)));
        }
        i += 1;
    }
    assert(all.take(i as int) =~= all);
    let mut k: usize = 0;
    assert(boxes + framed_tables(all.take(0), styles@) =~= boxes);
    while k < frame.children.len()
        invariant
            k <= frame.children@.len(),
            all == nodes_view(frame.children@),
            doc@ == extended(old(doc)@, boxes + framed_tables(all.take(k as int), styles@)),
        decreases frame.children@.len() - k,
    {
        let child = &frame.children[k];
        let ghost before = framed_tables(all.take(k as int), styles@);
        assert(child@ == all[k as int]);
        assert(all.take(k as int + 1).drop_last() =~= all.take(k as int));
        if child.has_tag_name("table") {
            add_table(child, styles, doc);
            assert(doc@.nodes =~= old(doc)@.nodes + (boxes + (before + table_nodes(
                child@,
                styles@,
            ))));
        }
        k += 1;
    }
    assert(all.take(k as int) =~= all);
    true
}

/// Appends the blocks of the frames on a page, at any depth; says whether they fit.
fn try_walk_page(page: &XmlNode, styles: &Styles, doc: &mut DoclingDocument) -> (fit: bool)
    requires
        styles@.wf(),
    ensures
        fit == fits(frame_nodes(all_nodes(page@), styles@)),
        fit ==> final(doc)@ == extended(old(doc)@, frame_nodes(all_nodes(page@), styles@)),
{
    let nodes = page.descendants();
    let ghost all = refs_view(nodes@);
    let mut i: usize = 0;
    assert(doc@ =~= extended(old(doc)@, Seq::empty()));
    while i < nodes.len()
        invariant
            styles@.wf(),
            i <= nodes@.len(),
            all == refs_view(nodes@),
            all == all_nodes(page@),
            fits(frame_nodes(all.take(i as int), styles@)),
            doc@ == extended(old(doc)@, frame_nodes(all.take(i as int), styles@)),
        decreases nodes@.len() - i,
    {
        let frame = nodes[i];
        let ghost before = frame_nodes(all.take(i as int), styles@);
        let ghost inner = box_nodes(frame@.children, styles@) + framed_tables(
            frame@.children,
            styles@,
        );
        assert(frame@ == all[i as int]);
        assert(all.take(i as int + 1).drop_last() =~= all.take(i as int));
        proof {
            if fits(frame_nodes(all, styles@)) {
                lemma_frames_part(all, i as int + 1, styles@);
            }
            lemma_fits_add(before, inner);
        }
        if frame.has_tag_name("frame") {
            if !try_walk_frame(frame, styles, doc) {
                return false;
            }
            assert(doc@.nodes =~= old(doc)@.nodes + (before + inner));
        }
        i += 1;
    }
    assert(all.take(i as int) =~= all);
    true
}

/// Appends the blocks of a presentation; says whether they fit.
pub(crate) fn try_walk_presentation(
    pres: &XmlNode,
    styles: &Styles,
    doc: &mut DoclingDocument,
) -> (fit: bool)
    requires
        styles@.wf(),
    ensures
        fit == fits(slide_nodes(pres@, styles@)),
        fit ==> final(doc)@ == extended(old(doc)@, slide_nodes(pres@, styles@)),
{
    proof {
        lemma_children_view(pres);
    }
    let ghost all = nodes_view(pres.children@);
    let mut i: usize = 0;
    assert(doc@ =~= extended(old(doc)@, Seq::empty()));
    while i < pres.children.len()
        invariant
            styles@.wf(),
            i <= pres.children@.len(),
            all == nodes_view(pres.children@),
            all == pres@.children,
            fits(page_nodes(all.take(i as int), styles@)),
            doc@ == extended(old(doc)@, page_nodes(all.take(i as int), styles@)),
        decreases pres.children@.len() - i,
    {
        let page = &pres.children[i];
        let ghost before = page_nodes(all.take(i as int), styles@);
        let ghost inner = frame_nodes(all_nodes(page@), styles@);
        assert(page@ == all[i as int]);
        assert(all.take(i as int + 1).drop_last() =~= all.take(i as int));
        proof {
            if fits(page_nodes(all, styles@)) {
                lemma_pages_part(all, i as int + 1, styles@);
            }
            lemma_fits_add(before, inner);
        }
        if page.has_tag_name("page") {
            if !try_walk_page(page, styles, doc) {
                return false;
            }
            assert(doc@.nodes =~= old(doc)@.nodes + (before + inner));
        }
        i += 1;
    }
    assert(all.take(i as int) =~= all);
    true
}

// ---------------------------------------------------------------- blocks that fit

/// Appends the blocks of an element, which fit.
pub fn handle_block(el: &XmlNode, styles: &Styles, doc: &mut DoclingDocument, list_level: u8)
    requires
        styles@.wf(),
        fits(block_nodes(el@, styles@, list_level as int)),
    ensures
        final(doc)@ == extended(old(doc)@, block_nodes(el@, styles@, list_level as int)),
{
    try_handle_block(el, styles, doc, list_level);
}

/// Appends the blocks of sibling elements, which fit. A list can go on where the list right
/// before it stopped; any other element ends that.
pub fn walk_blocks(els: &Vec<XmlNode>, styles: &Styles, doc: &mut DoclingDocument)
    requires
        styles@.wf(),
        fits(sibling_nodes(nodes_view(els@), styles@).0),
    ensures
        final(doc)@ == extended(old(doc)@, sibling_nodes(nodes_view(els@), styles@).0),
{
    try_walk_blocks(els, styles, doc);
}

/// Appends the blocks of a text, which fit.
pub fn walk_text(text: &XmlNode, styles: &Styles, doc: &mut DoclingDocument)
    requires
        styles@.wf(),
        fits(text_nodes(text@, styles@)),
    ensures
        final(doc)@ == extended(old(doc)@, text_nodes(text@, styles@)),
{
    try_walk_text(text, styles, doc);
}

/// Appends the blocks of a presentation, which fit: page by page those of its frames.
pub fn walk_presentation(pres: &XmlNode, styles: &Styles, doc: &mut DoclingDocument)
    requires
        styles@.wf(),
        fits(slide_nodes(pres@, styles@)),
    ensures
        final(doc)@ == extended(old(doc)@, slide_nodes(pres@, styles@)),
{
    try_walk_presentation(pres, styles, doc);
}

} // verus!
