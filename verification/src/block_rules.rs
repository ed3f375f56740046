//! Laws of blocks: what each element of a text becomes, and which parts of a slide are shown.

use vstd::prelude::*;

use crate::blocks::{
    block_nodes, box_nodes, frame_nodes, framed_tables, page_nodes, sibling_nodes, slide_nodes,
    text_nodes,
};
use crate::document::NodeView;
use crate::lists::list_nodes;
use crate::runs::markdown_of;
use crate::style_rules::spelled;
use crate::styles::{known_names, StylesView};
use crate::tables::table_of;
use crate::xml::{all_nodes, attr_of, XmlView};

verus! {

// ---------------------------------------------------------------- elements

/// A heading with text is a heading one level below its outline level, and without an outline
/// level, or with one below one, at level two; the level is kept in one byte.
pub proof fn law_headings(el: XmlView, styles: StylesView, depth: int)
    requires
        el.name == "h"@,
    ensures
        markdown_of(el, styles).len() == 0 ==> block_nodes(el, styles, depth).len() == 0,
        markdown_of(el, styles).len() > 0 ==> block_nodes(el, styles, depth) == seq![
            NodeView::Heading {
                level: (if spelled(el, "outline-level"@, 1) < 1 {
                    2
                } else {
                    (spelled(el, "outline-level"@, 1) + 1) % 256
                }),
                text: markdown_of(el, styles),
            },
        ],
{
}

/// A paragraph with text is a paragraph; one in the style of titles is a heading at level one, one
/// in that of subtitles at level two, and one in that of headings at level three.
pub proof fn law_paragraphs(el: XmlView, styles: StylesView, depth: int)
    requires
        el.name == "p"@,
    ensures
        ({
            let text = markdown_of(el, styles);
            let names = known_names(styles, attr_of(el, "style-name"@));
            let blocks = block_nodes(el, styles, depth);
            &&& text.len() == 0 ==> blocks.len() == 0
            &&& text.len() > 0 && names.contains("Title"@) ==> blocks == seq![
                NodeView::Heading { level: 1, text },
            ]
            &&& text.len() > 0 && !names.contains("Title"@) && names.contains("Subtitle"@)
                ==> blocks == seq![NodeView::Heading { level: 2, text }]
            &&& text.len() > 0 && !names.contains("Title"@) && !names.contains("Subtitle"@)
                && names.contains("Heading"@) ==> blocks == seq![
                NodeView::Heading { level: 3, text },
            ]
            &&& text.len() > 0 && !names.contains("Title"@) && !names.contains("Subtitle"@)
                && !names.contains("Heading"@) ==> blocks == seq![NodeView::Paragraph { text }]
        }),
{
    reveal_strlit("p");
    reveal_strlit("h");
    assert("p"@[0] != "h"@[0]);
}

/// A list is its items, at level one, with bullets where its style says nothing else. A table is one
/// table with its rows, and nothing where it has none. Any other element is nothing.
pub proof fn law_other_elements(el: XmlView, styles: StylesView, depth: int)
    ensures
        el.name == "list"@ ==> block_nodes(el, styles, depth) == list_nodes(
            el,
            styles,
            depth,
            1,
            false,
            None,
        ).0,
        el.name == "table"@ && table_of(el, styles) is Some ==> block_nodes(el, styles, depth)
            == seq![NodeView::Table { rows: table_of(el, styles)->0 }],
        el.name == "table"@ && table_of(el, styles) is None ==> block_nodes(
            el,
            styles,
            depth,
        ).len() == 0,
        el.name != "h"@ && el.name != "p"@ && el.name != "list"@ && el.name != "table"@
            ==> block_nodes(el, styles, depth).len() == 0,
{
    reveal_strlit("p");
    reveal_strlit("h");
    reveal_strlit("list");
    reveal_strlit("table");
    assert("p"@.len() == 1 && "h"@.len() == 1 && "list"@.len() == 4 && "table"@.len() == 5);
}

// ---------------------------------------------------------------- siblings

/// The blocks of a text come one after another: each element but a list adds its own, and a list
/// its items, going on where the list before it stopped when nothing but space stands between them.
pub proof fn law_blocks_follow_each_other(text: XmlView, el: XmlView, styles: StylesView)
    ensures
        ({
            let more = XmlView { children: text.children.push(el), ..text };
            let stopped = sibling_nodes(text.children, styles).1;
            &&& text.children.len() == 0 ==> text_nodes(text, styles).len() == 0
            &&& !el.is_element ==> text_nodes(more, styles) == text_nodes(text, styles)
            &&& el.is_element && el.name != "list"@ ==> text_nodes(more, styles) == text_nodes(
                text,
                styles,
            ) + block_nodes(el, styles, 0)
            &&& el.is_element && el.name == "list"@ ==> text_nodes(more, styles) == text_nodes(
                text,
                styles,
            ) + list_nodes(el, styles, 0, 1, false, stopped).0
        }),
{
    assert(text.children.push(el).drop_last() =~= text.children);
}

/// Where a list stopped is known right behind it, and behind the space that follows; behind any
/// other element, and at the start, there is no list to go on with.
pub proof fn law_what_a_list_goes_on_with(nodes: Seq<XmlView>, el: XmlView, styles: StylesView)
    ensures
        sibling_nodes(Seq::empty(), styles).1 is None,
        ({
            let stopped = sibling_nodes(nodes, styles).1;
            let now = sibling_nodes(nodes.push(el), styles).1;
            &&& !el.is_element ==> now == stopped
            &&& el.is_element && el.name != "list"@ ==> now is None
            &&& el.is_element && el.name == "list"@ ==> now == list_nodes(
                el,
                styles,
                0,
                1,
                false,
                stopped,
            ).1
        }),
{
    assert(nodes.push(el).drop_last() =~= nodes);
}

/// The block of an element other than a list is among the blocks of the siblings that it is one of.
pub proof fn lemma_sibling_has(nodes: Seq<XmlView>, i: int, styles: StylesView, block: NodeView)
    requires
        0 <= i < nodes.len(),
        nodes[i].is_element,
        nodes[i].name != "list"@,
        block_nodes(nodes[i], styles, 0).contains(block),
    ensures
        sibling_nodes(nodes, styles).0.contains(block),
    decreases nodes.len(),
{
    let all = sibling_nodes(nodes, styles).0;
    let before = sibling_nodes(nodes.drop_last(), styles).0;
    if i < nodes.len() - 1 {
        lemma_sibling_has(nodes.drop_last(), i, styles, block);
        let k = choose|k: int| 0 <= k < before.len() && before[k] == block;
        assert(all[k] == block);
    } else {
        let own = block_nodes(nodes[i], styles, 0);
        let k = choose|k: int| 0 <= k < own.len() && own[k] == block;
        assert(all[before.len() + k] == block);
    }
}

// ---------------------------------------------------------------- slides

/// A further page of a presentation adds the blocks of the frames below it, at any depth; what is
/// no page adds nothing.
pub proof fn law_pages_follow_each_other(pres: XmlView, n: XmlView, styles: StylesView)
    ensures
        ({
            let more = XmlView { children: pres.children.push(n), ..pres };
            &&& pres.children.len() == 0 ==> slide_nodes(pres, styles).len() == 0
            &&& slide_nodes(more, styles) == slide_nodes(pres, styles) + (if n.is_element && n.name
                == "page"@ {
                frame_nodes(all_nodes(n), styles)
            } else {
                Seq::empty()
            })
        }),
{
    assert(pres.children.push(n).drop_last() =~= pres.children);
    assert(page_nodes(pres.children, styles) + Seq::<NodeView>::empty() =~= page_nodes(
        pres.children,
        styles,
    ));
}

/// A further frame adds the blocks of its text boxes and behind them those of its tables; what is
/// no frame adds nothing.
pub proof fn law_frames_follow_each_other(nodes: Seq<XmlView>, n: XmlView, styles: StylesView)
    ensures
        frame_nodes(Seq::empty(), styles).len() == 0,
        frame_nodes(nodes.push(n), styles) == frame_nodes(nodes, styles) + (if n.is_element
            && n.name == "frame"@ {
            box_nodes(n.children, styles) + framed_tables(n.children, styles)
        } else {
            Seq::empty()
        }),
{
    assert(nodes.push(n).drop_last() =~= nodes);
    assert(frame_nodes(nodes, styles) + Seq::<NodeView>::empty() =~= frame_nodes(nodes, styles));
}

/// A further text box adds the blocks of the text in it, a further table itself where it has rows,
/// and anything else in a frame nothing.
pub proof fn law_what_a_frame_shows(nodes: Seq<XmlView>, n: XmlView, styles: StylesView)
    ensures
        box_nodes(Seq::empty(), styles).len() == 0,
        framed_tables(Seq::empty(), styles).len() == 0,
        box_nodes(nodes.push(n), styles) == box_nodes(nodes, styles) + (if n.is_element && n.name
            == "text-box"@ {
            text_nodes(n, styles)
        } else {
            Seq::empty()
        }),
        framed_tables(nodes.push(n), styles) == framed_tables(nodes, styles) + (if n.is_element
            && n.name == "table"@ && table_of(n, styles) is Some {
            seq![NodeView::Table { rows: table_of(n, styles)->0 }]
        } else {
            Seq::empty()
        }),
{
    assert(nodes.push(n).drop_last() =~= nodes);
    assert(box_nodes(nodes, styles) + Seq::<NodeView>::empty() =~= box_nodes(nodes, styles));
    assert(framed_tables(nodes, styles) + Seq::<NodeView>::empty() =~= framed_tables(
        nodes,
        styles,
    ));
}

proof fn lemma_box_has(nodes: Seq<XmlView>, i: int, styles: StylesView, block: NodeView)
    requires
        0 <= i < nodes.len(),
        nodes[i].is_element,
        nodes[i].name == "text-box"@,
        text_nodes(nodes[i], styles).contains(block),
    ensures
        box_nodes(nodes, styles).contains(block),
    decreases nodes.len(),
{
    let all = box_nodes(nodes, styles);
    let before = box_nodes(nodes.drop_last(), styles);
    if i < nodes.len() - 1 {
        lemma_box_has(nodes.drop_last(), i, styles, block);
        let k = choose|k: int| 0 <= k < before.len() && before[k] == block;
        assert(all[k] == block);
    } else {
        let own = text_nodes(nodes[i], styles);
        let k = choose|k: int| 0 <= k < own.len() && own[k] == block;
        assert(all[before.len() + k] == block);
    }
}

proof fn lemma_tables_have(nodes: Seq<XmlView>, i: int, styles: StylesView)
    requires
        0 <= i < nodes.len(),
        nodes[i].is_element,
        nodes[i].name == "table"@,
        table_of(nodes[i], styles) is Some,
    ensures
        framed_tables(nodes, styles).contains(
            NodeView::Table { rows: table_of(nodes[i], styles)->0 },
        ),
    decreases nodes.len(),
{
    let block = NodeView::Table { rows: table_of(nodes[i], styles)->0 };
    let all = framed_tables(nodes, styles);
    let before = framed_tables(nodes.drop_last(), styles);
    if i < nodes.len() - 1 {
        lemma_tables_have(nodes.drop_last(), i, styles);
        let k = choose|k: int| 0 <= k < before.len() && before[k] == block;
        assert(all[k] == block);
    } else {
        assert(all[before.len() as int] == block);
    }
}

proof fn lemma_frame_has(nodes: Seq<XmlView>, i: int, styles: StylesView, block: NodeView)
    requires
        0 <= i < nodes.len(),
        nodes[i].is_element,
        nodes[i].name == "frame"@,
        box_nodes(nodes[i].children, styles).contains(block) || framed_tables(
            nodes[i].children,
            styles,
        ).contains(block),
    ensures
        frame_nodes(nodes, styles).contains(block),
    decreases nodes.len(),
{
    let all = frame_nodes(nodes, styles);
    let before = frame_nodes(nodes.drop_last(), styles);
    if i < nodes.len() - 1 {
        lemma_frame_has(nodes.drop_last(), i, styles, block);
        let k = choose|k: int| 0 <= k < before.len() && before[k] == block;
        assert(all[k] == block);
    } else {
        let boxes = box_nodes(nodes[i].children, styles);
        let tables = framed_tables(nodes[i].children, styles);
        if boxes.contains(block) {
            let k = choose|k: int| 0 <= k < boxes.len() && boxes[k] == block;
            assert(all[before.len() + k] == block);
        } else {
            let k = choose|k: int| 0 <= k < tables.len() && tables[k] == block;
            assert(all[before.len() + boxes.len() + k] == block);
        }
    }
}

proof fn lemma_page_has(nodes: Seq<XmlView>, i: int, styles: StylesView, block: NodeView)
    requires
        0 <= i < nodes.len(),
        nodes[i].is_element,
        nodes[i].name == "page"@,
        frame_nodes(all_nodes(nodes[i]), styles).contains(block),
    ensures
        page_nodes(nodes, styles).contains(block),
    decreases nodes.len(),
{
    let all = page_nodes(nodes, styles);
    let before = page_nodes(nodes.drop_last(), styles);
    if i < nodes.len() - 1 {
        lemma_page_has(nodes.drop_last(), i, styles, block);
        let k = choose|k: int| 0 <= k < before.len() && before[k] == block;
        assert(all[k] == block);
    } else {
        let own = frame_nodes(all_nodes(nodes[i]), styles);
        let k = choose|k: int| 0 <= k < own.len() && own[k] == block;
        assert(all[before.len() + k] == block);
    }
}

/// The blocks of a slide hold those of every text box of every frame below its page.
pub proof fn law_text_boxes_are_shown(
    pres: XmlView,
    p: int,
    frame: XmlView,
    b: int,
    styles: StylesView,
    block: NodeView,
)
    requires
        0 <= p < pres.children.len(),
        pres.children[p].is_element,
        pres.children[p].name == "page"@,
        all_nodes(pres.children[p]).contains(frame),
        frame.is_element,
        frame.name == "frame"@,
        0 <= b < frame.children.len(),
        frame.children[b].is_element,
        frame.children[b].name == "text-box"@,
        text_nodes(frame.children[b], styles).contains(block),
    ensures
        slide_nodes(pres, styles).contains(block),
{
    let nodes = all_nodes(pres.children[p]);
    let i = choose|i: int| 0 <= i < nodes.len() && nodes[i] == frame;
    lemma_box_has(frame.children, b, styles, block);
    lemma_frame_has(nodes, i, styles, block);
    lemma_page_has(pres.children, p, styles, block);
}

/// The blocks of a slide hold every table with rows that stands in a frame below its page.
pub proof fn law_framed_tables_are_shown(
    pres: XmlView,
    p: int,
    frame: XmlView,
    b: int,
    styles: StylesView,
)
    requires
        0 <= p < pres.children.len(),
        pres.children[p].is_element,
        pres.children[p].name == "page"@,
        all_nodes(pres.children[p]).contains(frame),
        frame.is_element,
        frame.name == "frame"@,
        0 <= b < frame.children.len(),
        frame.children[b].is_element,
        frame.children[b].name == "table"@,
        table_of(frame.children[b], styles) is Some,
    ensures
        slide_nodes(pres, styles).contains(
            NodeView::Table { rows: table_of(frame.children[b], styles)->0 },
        ),
{
    let nodes = all_nodes(pres.children[p]);
    let i = choose|i: int| 0 <= i < nodes.len() && nodes[i] == frame;
    let block = NodeView::Table { rows: table_of(frame.children[b], styles)->0 };
    lemma_tables_have(frame.children, b, styles);
    lemma_frame_has(nodes, i, styles, block);
    lemma_page_has(pres.children, p, styles, block);
}

} // verus!
