//! Laws of conversions: which parts of a file are shown, and when a file is refused.

use vstd::prelude::*;

use crate::archive::{archive_opens, archive_text};
use crate::backend::{body_nodes, conversion, converted, is_outcome, ConversionError};
use crate::block_rules::{law_paragraphs, law_text_boxes_are_shown, lemma_sibling_has};
use crate::blocks::{block_nodes, slide_nodes, text_nodes};
use crate::document::{extended, DoclingDocument, DocumentView, NodeView};
use crate::lists::{block_fits, fits};
use crate::parse::parsed;
use crate::runs::markdown_of;
use crate::sheets::{sheet_tables, workbook_tables};
use crate::styles::{known_names, styles_of, StylesView};
use crate::xml::{all_nodes, all_nodes_of, attr_of, XmlView};
use crate::xml_rules::law_the_first_element_counts;

verus! {

// ---------------------------------------------------------------- the body

/// Whether a node is the body of a document: the first element of that name, at any depth.
pub open spec fn body_at(content: Seq<XmlView>, at: int) -> bool {
    &&& 0 <= at < all_nodes_of(content).len()
    &&& all_nodes_of(content)[at].is_element
    &&& all_nodes_of(content)[at].name == "body"@
    &&& forall|k: int|
        0 <= k < at ==> !((#[trigger] all_nodes_of(content)[k]).is_element && all_nodes_of(
            content,
        )[k].name == "body"@)
}

/// A further element of the body adds what it holds: a text its blocks, a spreadsheet the tables of
/// its sheets, a presentation the blocks of its slides. Anything else adds nothing.
pub proof fn law_what_a_body_holds(nodes: Seq<XmlView>, n: XmlView, styles: StylesView)
    ensures
        body_nodes(Seq::empty(), styles).len() == 0,
        n.is_element && n.name == "text"@ ==> body_nodes(nodes.push(n), styles) == body_nodes(
            nodes,
            styles,
        ) + text_nodes(n, styles),
        n.is_element && n.name == "spreadsheet"@ ==> body_nodes(nodes.push(n), styles)
            == body_nodes(nodes, styles) + workbook_tables(n.children),
        n.is_element && n.name == "presentation"@ ==> body_nodes(nodes.push(n), styles)
            == body_nodes(nodes, styles) + slide_nodes(n, styles),
        !n.is_element || (n.name != "text"@ && n.name != "spreadsheet"@ && n.name
            != "presentation"@) ==> body_nodes(nodes.push(n), styles) == body_nodes(nodes, styles),
{
    reveal_strlit("text");
    reveal_strlit("spreadsheet");
    reveal_strlit("presentation");
    assert("text"@.len() == 4 && "spreadsheet"@.len() == 11 && "presentation"@.len() == 12);
    assert(nodes.push(n).drop_last() =~= nodes);
    assert(body_nodes(nodes, styles) + Seq::<NodeView>::empty() =~= body_nodes(nodes, styles));
}

proof fn lemma_body_has(nodes: Seq<XmlView>, i: int, styles: StylesView, block: NodeView)
    requires
        0 <= i < nodes.len(),
        nodes[i].is_element,
        (nodes[i].name == "text"@ && text_nodes(nodes[i], styles).contains(block)) || (
        nodes[i].name == "spreadsheet"@ && workbook_tables(nodes[i].children).contains(block)) || (
        nodes[i].name == "presentation"@ && slide_nodes(nodes[i], styles).contains(block)),
    ensures
        body_nodes(nodes, styles).contains(block),
    decreases nodes.len(),
{
    let fewer = nodes.drop_last();
    let all = body_nodes(nodes, styles);
    let before = body_nodes(fewer, styles);
    if i < nodes.len() - 1 {
        lemma_body_has(fewer, i, styles, block);
        let k = choose|k: int| 0 <= k < before.len() && before[k] == block;
        assert(all[k] == block);
    } else {
        assert(fewer.push(nodes[i]) =~= nodes);
        law_what_a_body_holds(fewer, nodes[i], styles);
        let own = if nodes[i].name == "text"@ {
            text_nodes(nodes[i], styles)
        } else if nodes[i].name == "spreadsheet"@ {
            workbook_tables(nodes[i].children)
        } else {
            slide_nodes(nodes[i], styles)
        };
        reveal_strlit("text");
        reveal_strlit("spreadsheet");
        reveal_strlit("presentation");
        assert("text"@.len() == 4 && "spreadsheet"@.len() == 11 && "presentation"@.len() == 12);
        let k = choose|k: int| 0 <= k < own.len() && own[k] == block;
        assert(all =~= before + own);
        assert(all[before.len() + k] == block);
    }
}

/// The document has the name that it is given, and holds what the body of the content holds, in
/// the styles of the content and the style sheet; without a body it holds nothing.
pub proof fn law_the_body_is_converted(
    name: Seq<char>,
    content: Seq<XmlView>,
    sheet: Option<Seq<XmlView>>,
    at: int,
)
    ensures
        converted(name, content, sheet).name == name,
        body_at(content, at) ==> converted(name, content, sheet).nodes == body_nodes(
            all_nodes_of(content)[at].children,
            styles_of(content, sheet),
        ),
        (forall|k: int|
            0 <= k < all_nodes_of(content).len() ==> !((#[trigger] all_nodes_of(
                content,
            )[k]).is_element && all_nodes_of(content)[k].name == "body"@)) ==> converted(
            name,
            content,
            sheet,
        ).nodes.len() == 0,
{
    let all = all_nodes_of(content);
    if body_at(content, at) {
        law_the_first_element_counts(all, "body"@, at);
    }
    if forall|k: int|
        0 <= k < all.len() ==> !((#[trigger] all[k]).is_element && all[k].name == "body"@) {
        law_the_first_element_counts(all, "body"@, all.len() as int);
    }
}

// ---------------------------------------------------------------- what is shown

/// Whether an element is a paragraph with the given text, in no style for titles or headings.
pub open spec fn plain_paragraph(el: XmlView, text: Seq<char>, styles: StylesView) -> bool {
    &&& el.is_element
    &&& el.name == "p"@
    &&& text.len() > 0
    &&& markdown_of(el, styles) == text
    &&& !known_names(styles, attr_of(el, "style-name"@)).contains("Title"@)
    &&& !known_names(styles, attr_of(el, "style-name"@)).contains("Subtitle"@)
    &&& !known_names(styles, attr_of(el, "style-name"@)).contains("Heading"@)
}

proof fn lemma_paragraph_is_there(
    text: XmlView,
    i: int,
    words: Seq<char>,
    styles: StylesView,
)
    requires
        0 <= i < text.children.len(),
        plain_paragraph(text.children[i], words, styles),
    ensures
        text_nodes(text, styles).contains(NodeView::Paragraph { text: words }),
{
    let block = NodeView::Paragraph { text: words };
    law_paragraphs(text.children[i], styles, 0);
    assert(block_nodes(text.children[i], styles, 0)[0] == block);
    reveal_strlit("p");
    reveal_strlit("list");
    assert("p"@.len() == 1 && "list"@.len() == 4);
    lemma_sibling_has(text.children, i, styles, block);
}

/// Converting a file whose body holds a text shows every paragraph of that text.
pub proof fn law_texts_are_shown(
    name: Seq<char>,
    content: Seq<XmlView>,
    sheet: Option<Seq<XmlView>>,
    at: int,
    o: int,
    i: int,
    words: Seq<char>,
)
    requires
        body_at(content, at),
        0 <= o < all_nodes_of(content)[at].children.len(),
        all_nodes_of(content)[at].children[o].is_element,
        all_nodes_of(content)[at].children[o].name == "text"@,
        0 <= i < all_nodes_of(content)[at].children[o].children.len(),
        plain_paragraph(
            all_nodes_of(content)[at].children[o].children[i],
            words,
            styles_of(content, sheet),
        ),
    ensures
        converted(name, content, sheet).nodes.contains(NodeView::Paragraph { text: words }),
{
    let body = all_nodes_of(content)[at];
    let styles = styles_of(content, sheet);
    law_the_body_is_converted(name, content, sheet, at);
    lemma_paragraph_is_there(body.children[o], i, words, styles);
    lemma_body_has(body.children, o, styles, NodeView::Paragraph { text: words });
}

/// Converting a file whose body holds a presentation shows every paragraph in a text box of a
/// frame below one of its pages.
pub proof fn law_presentations_are_shown(
    name: Seq<char>,
    content: Seq<XmlView>,
    sheet: Option<Seq<XmlView>>,
    at: int,
    o: int,
    p: int,
    frame: XmlView,
    b: int,
    i: int,
    words: Seq<char>,
)
    requires
        body_at(content, at),
        0 <= o < all_nodes_of(content)[at].children.len(),
        all_nodes_of(content)[at].children[o].is_element,
        all_nodes_of(content)[at].children[o].name == "presentation"@,
        0 <= p < all_nodes_of(content)[at].children[o].children.len(),
        all_nodes_of(content)[at].children[o].children[p].is_element,
        all_nodes_of(content)[at].children[o].children[p].name == "page"@,
        all_nodes(all_nodes_of(content)[at].children[o].children[p]).contains(frame),
        frame.is_element,
        frame.name == "frame"@,
        0 <= b < frame.children.len(),
        frame.children[b].is_element,
        frame.children[b].name == "text-box"@,
        0 <= i < frame.children[b].children.len(),
        plain_paragraph(frame.children[b].children[i], words, styles_of(content, sheet)),
    ensures
        converted(name, content, sheet).nodes.contains(NodeView::Paragraph { text: words }),
{
    let body = all_nodes_of(content)[at];
    let styles = styles_of(content, sheet);
    let block = NodeView::Paragraph { text: words };
    law_the_body_is_converted(name, content, sheet, at);
    lemma_paragraph_is_there(frame.children[b], i, words, styles);
    law_text_boxes_are_shown(body.children[o], p, frame, b, styles, block);
    lemma_body_has(body.children, o, styles, block);
}

proof fn lemma_workbook_has(nodes: Seq<XmlView>, i: int, block: NodeView)
    requires
        0 <= i < nodes.len(),
        nodes[i].is_element,
        nodes[i].name == "table"@,
        sheet_tables(nodes[i]).contains(block),
    ensures
        workbook_tables(nodes).contains(block),
    decreases nodes.len(),
{
    let all = workbook_tables(nodes);
    let before = workbook_tables(nodes.drop_last());
    if i < nodes.len() - 1 {
        lemma_workbook_has(nodes.drop_last(), i, block);
        let k = choose|k: int| 0 <= k < before.len() && before[k] == block;
        assert(all[k] == block);
    } else {
        let own = sheet_tables(nodes[i]);
        let k = choose|k: int| 0 <= k < own.len() && own[k] == block;
        assert(all[before.len() + k] == block);
    }
}

/// Converting a file whose body holds a spreadsheet shows every table of every sheet.
pub proof fn law_spreadsheets_are_shown(
    name: Seq<char>,
    content: Seq<XmlView>,
    sheet: Option<Seq<XmlView>>,
    at: int,
    o: int,
    t: int,
    block: NodeView,
)
    requires
        body_at(content, at),
        0 <= o < all_nodes_of(content)[at].children.len(),
        all_nodes_of(content)[at].children[o].is_element,
        all_nodes_of(content)[at].children[o].name == "spreadsheet"@,
        0 <= t < all_nodes_of(content)[at].children[o].children.len(),
        all_nodes_of(content)[at].children[o].children[t].is_element,
        all_nodes_of(content)[at].children[o].children[t].name == "table"@,
        sheet_tables(all_nodes_of(content)[at].children[o].children[t]).contains(block),
    ensures
        converted(name, content, sheet).nodes.contains(block),
{
    let body = all_nodes_of(content)[at];
    law_the_body_is_converted(name, content, sheet, at);
    lemma_workbook_has(body.children[o].children, t, block);
    lemma_body_has(body.children, o, styles_of(content, sheet), block);
}

// ---------------------------------------------------------------- files

/// A file that is no archive, one without a content, and one whose content cannot be parsed are
/// refused, each with words of its own. Any other file is converted: its content in the styles of
/// its style sheet, where that can be parsed, and else without a style sheet. A file without a
/// style sheet counts as one whose style sheet is empty.
pub proof fn law_files(name: Seq<char>, bytes: Seq<u8>)
    ensures
        !archive_opens(bytes) ==> conversion(name, bytes) == Err::<DocumentView, Seq<char>>(
            "odf: not a zip"@,
        ),
        archive_opens(bytes) && archive_text(bytes, "content.xml"@) is None ==> conversion(
            name,
            bytes,
        ) == Err::<DocumentView, Seq<char>>("odf: no content.xml"@),
        archive_opens(bytes) && archive_text(bytes, "content.xml"@) is Some ==> ({
            let content = parsed(archive_text(bytes, "content.xml"@)->0);
            let found = archive_text(bytes, "styles.xml"@);
            let sheet = parsed(
                if found is Some {
                    found->0
                } else {
                    Seq::empty()
                },
            );
            &&& content is Err ==> conversion(name, bytes) == Err::<DocumentView, Seq<char>>(
                seq!['o', 'd', 'f', ':', ' '] + content->Err_0,
            )
            &&& content is Ok && sheet is Ok ==> conversion(name, bytes) == Ok::<
                DocumentView,
                Seq<char>,
            >(converted(name, content->Ok_0, Some(sheet->Ok_0)))
            &&& content is Ok && sheet is Err ==> conversion(name, bytes) == Ok::<
                DocumentView,
                Seq<char>,
            >(converted(name, content->Ok_0, None))
        }),
{
    reveal_strlit("odf: ");
    assert("odf: "@ =~= seq!['o', 'd', 'f', ':', ' ']);
}

/// The list items of a document fit where none is deeper than 255 and none has a number above the
/// largest one of 63 bits; other blocks always fit.
pub proof fn law_what_fits(nodes: Seq<NodeView>)
    ensures
        fits(nodes) <==> forall|k: int|
            0 <= k < nodes.len() && #[trigger] nodes[k] is ListItem ==> nodes[k]->depth <= 255
                && nodes[k]->number <= 0x7fff_ffff_ffff_ffff,
{
    if forall|k: int|
        0 <= k < nodes.len() && #[trigger] nodes[k] is ListItem ==> nodes[k]->depth <= 255
            && nodes[k]->number <= 0x7fff_ffff_ffff_ffff {
        assert forall|k: int| 0 <= k < nodes.len() implies block_fits(#[trigger] nodes[k]) by {}
    }
    if fits(nodes) {
        assert forall|k: int| 0 <= k < nodes.len() && #[trigger] nodes[k] is ListItem implies
            nodes[k]->depth <= 255 && nodes[k]->number <= 0x7fff_ffff_ffff_ffff by {
            assert(block_fits(nodes[k]));
        }
    }
}

/// A result tells of the outcome: a document is the one that the file becomes, the words of an
/// error are those that the file is refused with, and a limit is told of exactly where the file
/// becomes a document that does not fit.
pub proof fn law_results_tell_the_outcome(
    result: Result<DoclingDocument, ConversionError>,
    whole: Result<DocumentView, Seq<char>>,
)
    requires
        is_outcome(result, whole),
    ensures
        result is Ok <==> whole is Ok && fits(whole->Ok_0.nodes),
        result is Ok ==> result->Ok_0@ == whole->Ok_0,
        whole is Err ==> result is Err && result->Err_0 is Parse && (result->Err_0->Parse_0)@
            == whole->Err_0,
        whole is Ok && !fits(whole->Ok_0.nodes) ==> result is Err && result->Err_0 is Limit,
{
}

/// Blocks that are appended to a document stand behind those that it has, and its name stays.
pub proof fn law_blocks_are_appended(doc: DocumentView, nodes: Seq<NodeView>)
    ensures
        extended(doc, nodes).name == doc.name,
        extended(doc, nodes).nodes == doc.nodes + nodes,
{
}

} // verus!
