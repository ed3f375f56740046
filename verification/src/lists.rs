//! Lists: their items with numbers and depths, flattened into a document.

use vstd::prelude::*;

use crate::document::{extended, DoclingDocument, Node, NodeView};
use crate::runs::{markdown_of, paragraph_text};
use crate::styles::{
    declared, declared_level, levels_wf, lists_view, lists_wf, Levels, OdfLevel, Styles, StylesView,
};
use crate::text::{
    clean_lines, join, joined, lemma_nonempty_push, nonempty, same_text, texts, tidy_lines,
};
use crate::xml::{attr, attr_of, is_tag, lemma_children_view, nodes_view, XmlNode, XmlView};

verus! {

/// Where a list stopped, for a following list that goes on from there.
#[derive(Clone, Copy, PartialEq, Eq, Structural, Debug)]
pub struct ListCont {
    pub enumerated: bool,
    pub counter: i64,
    pub has_last: bool,
}

/// The mathematical form of [`ListCont`].
pub struct ContView {
    pub enumerated: bool,
    pub counter: int,
    pub has_last: bool,
}

/// The mathematical form of where a list stopped.
pub open spec fn cont_view(cont: Option<ListCont>) -> Option<ContView> {
    match cont {
        Some(c) => Some(
            ContView { enumerated: c.enumerated, counter: c.counter as int, has_last: c.has_last },
        ),
        None => None,
    }
}

// ---------------------------------------------------------------- what a list holds

/// Whether a node is an item of a list.
pub open spec fn is_item(n: XmlView) -> bool {
    is_tag(n, "list-item"@) || is_tag(n, "list-header"@)
}

/// Whether a node is a list.
pub open spec fn is_list(n: XmlView) -> bool {
    is_tag(n, "list"@)
}

/// Whether a node is a paragraph or a heading.
pub open spec fn is_block_text(n: XmlView) -> bool {
    is_tag(n, "p"@) || is_tag(n, "h"@)
}

/// The texts of the paragraphs among the given nodes, each on a single line.
pub open spec fn line_texts(nodes: Seq<XmlView>, styles: StylesView) -> Seq<Seq<char>>
    decreases nodes.len(),
{
    if nodes.len() == 0 {
        Seq::empty()
    } else if is_block_text(nodes.last()) {
        line_texts(nodes.drop_last(), styles).push(
            joined(tidy_lines(markdown_of(nodes.last(), styles)), " "@),
        )
    } else {
        line_texts(nodes.drop_last(), styles)
    }
}

/// The text of a list item: its own paragraphs, not those of the lists inside it.
pub open spec fn item_text(item: XmlView, styles: StylesView) -> Seq<char> {
    joined(nonempty(line_texts(item.children, styles)), " "@)
}

/// Whether a list shows anything: an item with text, or one around a list that shows anything.
pub open spec fn renderable(list: XmlView, styles: StylesView) -> bool
    decreases list, 0nat,
{
    exists|i: int|
        0 <= i < list.children.len() && item_renders(#[trigger] list.children[i], styles)
}

/// Whether a node is a list item that shows anything.
pub open spec fn item_renders(item: XmlView, styles: StylesView) -> bool
    decreases item, 1nat,
{
    is_item(item) && (item_text(item, styles).len() > 0 || inner_renders(item, styles))
}

/// Whether any list directly inside an item shows anything.
pub open spec fn inner_renders(item: XmlView, styles: StylesView) -> bool
    decreases item, 0nat,
{
    exists|j: int| 0 <= j < item.children.len() && list_renders(#[trigger] item.children[j], styles)
}

/// Whether a node is a list that shows anything.
pub open spec fn list_renders(n: XmlView, styles: StylesView) -> bool
    decreases n, 1nat,
{
    is_list(n) && renderable(n, styles)
}

/// Whether any item of a list has text of its own.
pub open spec fn has_direct_text(list: XmlView, styles: StylesView) -> bool {
    exists|i: int|
        0 <= i < list.children.len() && is_item(#[trigger] list.children[i]) && item_text(
            list.children[i],
            styles,
        ).len() > 0
}

/// The first list item among the given nodes.
pub open spec fn first_item(nodes: Seq<XmlView>) -> Option<XmlView>
    decreases nodes.len(),
{
    if nodes.len() == 0 {
        None
    } else if is_item(nodes[0]) {
        Some(nodes[0])
    } else {
        first_item(nodes.skip(1))
    }
}

/// Whether a list opens with an item that has no text but a list inside that shows anything.
pub open spec fn opens_with_nested(list: XmlView, styles: StylesView) -> bool {
    match first_item(list.children) {
        Some(item) => item_text(item, styles).len() == 0 && inner_renders(item, styles),
        None => false,
    }
}

/// What the style of a list declares for a level.
pub open spec fn level_style(styles: StylesView, list: XmlView, level: int) -> Option<OdfLevel> {
    match attr_of(list, "style-name"@) {
        Some(name) => match declared(styles.lists, name) {
            Some(levels) => declared_level(levels, level),
            None => None,
        },
        None => None,
    }
}

/// Whether a level of a list is numbered.
pub open spec fn enumerated(
    styles: StylesView,
    list: XmlView,
    level: int,
    fallback: bool,
) -> bool {
    match level_style(styles, list, level) {
        Some(lv) => lv.numbered,
        None => fallback,
    }
}

/// The first number of a level of a list.
pub open spec fn start_of(styles: StylesView, list: XmlView, level: int) -> int {
    match level_style(styles, list, level) {
        Some(lv) => lv.start as int,
        None => 1,
    }
}

// ---------------------------------------------------------------- what a list becomes

/// The blocks that the items of a list become, and the state behind them.
pub struct Items {
    pub nodes: Seq<NodeView>,
    pub counter: int,
    pub has_last: bool,
}

/// The blocks that a list becomes, and where it stopped.
///
/// A list that shows nothing becomes nothing. A list that opens with an item around a list, right
/// behind a list with items, goes on with that list's numbers and marks. Any other list without
/// text of its own is transparent: the lists inside it take its place, at its depth.
pub open spec fn list_nodes(
    list: XmlView,
    styles: StylesView,
    depth: int,
    level: int,
    fallback: bool,
    continued: Option<ContView>,
) -> (Seq<NodeView>, Option<ContView>)
    decreases list, 1nat,
{
    if !renderable(list, styles) {
        (Seq::empty(), None)
    } else {
        let style_enum = enumerated(styles, list, level, fallback);
        let goes_on = continued matches Some(c) && c.has_last && opens_with_nested(list, styles);
        if !goes_on && !has_direct_text(list, styles) {
            (transparent_nodes(list.children, styles, depth, level + 1, style_enum), None)
        } else {
            let numbered = if goes_on {
                continued->0.enumerated
            } else {
                style_enum
            };
            let counter = if goes_on {
                continued->0.counter
            } else {
                start_of(styles, list, level) - 1
            };
            let items = item_nodes(
                list.children,
                styles,
                depth,
                level,
                numbered,
                style_enum,
                counter,
                goes_on,
            );
            (
                items.nodes,
                Some(
                    ContView {
                        enumerated: numbered,
                        counter: items.counter,
                        has_last: items.has_last,
                    },
                ),
            )
        }
    }
}

/// The blocks of the lists directly among the given nodes.
pub open spec fn nested_nodes(
    nodes: Seq<XmlView>,
    styles: StylesView,
    depth: int,
    level: int,
    fallback: bool,
) -> Seq<NodeView>
    decreases nodes, 0nat,
{
    if nodes.len() == 0 {
        Seq::empty()
    } else {
        let before = nested_nodes(nodes.drop_last(), styles, depth, level, fallback);
        if is_list(nodes.last()) {
            before + list_nodes(nodes.last(), styles, depth, level, fallback, None).0
        } else {
            before
        }
    }
}

/// The blocks of the lists inside the items among the given nodes.
pub open spec fn transparent_nodes(
    nodes: Seq<XmlView>,
    styles: StylesView,
    depth: int,
    level: int,
    fallback: bool,
) -> Seq<NodeView>
    decreases nodes, 0nat,
{
    if nodes.len() == 0 {
        Seq::empty()
    } else {
        let before = transparent_nodes(nodes.drop_last(), styles, depth, level, fallback);
        if is_item(nodes.last()) {
            before + nested_nodes(nodes.last().children, styles, depth, level, fallback)
        } else {
            before
        }
    }
}

/// The blocks of the items among the given nodes.
///
/// An item with text counts and is one block; the lists inside an item follow, one deeper. An
/// item without text only hands on what is inside it.
pub open spec fn item_nodes(
    nodes: Seq<XmlView>,
    styles: StylesView,
    depth: int,
    level: int,
    numbered: bool,
    style_enum: bool,
    counter: int,
    has_last: bool,
) -> Items
    decreases nodes, 0nat,
{
    if nodes.len() == 0 {
        Items { nodes: Seq::empty(), counter, has_last }
    } else {
        let before = item_nodes(
            nodes.drop_last(),
            styles,
            depth,
            level,
            numbered,
            style_enum,
            counter,
            has_last,
        );
        let item = nodes.last();
        let text = item_text(item, styles);
        if !is_item(item) {
            before
        } else {
            let inner = nested_nodes(item.children, styles, depth + 1, level + 1, style_enum);
            if text.len() == 0 {
                Items { nodes: before.nodes + inner, ..before }
            } else {
                let number = before.counter + 1;
                Items {
                    nodes: before.nodes.push(item_block(text, depth, numbered, number)) + inner,
                    counter: number,
                    has_last: true,
                }
            }
        }
    }
}

/// The block of one list item.
pub open spec fn item_block(text: Seq<char>, depth: int, numbered: bool, number: int) -> NodeView {
    NodeView::ListItem {
        ordered: numbered,
        number: if numbered && number > 0 {
            number
        } else {
            0
        },
        first_in_list: false,
        text,
        depth,
    }
}

/// Whether the depths and numbers of all list items are ones that the document can hold.
pub open spec fn fits(nodes: Seq<NodeView>) -> bool {
    forall|k: int| 0 <= k < nodes.len() ==> block_fits(#[trigger] nodes[k])
}

/// Whether the depth and number of a list item are ones that the document can hold.
pub open spec fn block_fits(node: NodeView) -> bool {
    node matches NodeView::ListItem { depth, number, .. } ==> depth <= u8::MAX && number
        <= i64::MAX
}

// ---------------------------------------------------------------- facts about list blocks

/// Whether every block has a property.
pub open spec fn all_hold(nodes: Seq<NodeView>, p: spec_fn(NodeView) -> bool) -> bool {
    forall|k: int| 0 <= k < nodes.len() ==> p(#[trigger] nodes[k])
}

proof fn lemma_all_hold_add(a: Seq<NodeView>, b: Seq<NodeView>, p: spec_fn(NodeView) -> bool)
    ensures
        all_hold(a + b, p) <==> all_hold(a, p) && all_hold(b, p),
{
    if all_hold(a + b, p) {
        assert forall|k: int| 0 <= k < a.len() implies p(#[trigger] a[k]) by {
            assert((a + b)[k] == a[k]);
        }
        assert forall|k: int| 0 <= k < b.len() implies p(#[trigger] b[k]) by {
            assert((a + b)[a.len() + k] == b[k]);
        }
    }
}

spec fn fit_check() -> spec_fn(NodeView) -> bool {
    |n: NodeView| block_fits(n)
}

proof fn lemma_fits_is_all(nodes: Seq<NodeView>)
    ensures
        fits(nodes) <==> all_hold(nodes, fit_check()),
{
    if all_hold(nodes, fit_check()) {
        assert forall|k: int| 0 <= k < nodes.len() implies block_fits(#[trigger] nodes[k]) by {
            assert(fit_check()(nodes[k]));
        }
    }
}

/// Blocks fit together where they fit apart.
pub proof fn lemma_fits_add(a: Seq<NodeView>, b: Seq<NodeView>)
    ensures
        fits(a + b) <==> fits(a) && fits(b),
{
    lemma_fits_is_all(a);
    lemma_fits_is_all(b);
    lemma_fits_is_all(a + b);
    lemma_all_hold_add(a, b, fit_check());
}

proof fn lemma_nested_part(
    p: spec_fn(NodeView) -> bool,
    nodes: Seq<XmlView>,
    k: int,
    styles: StylesView,
    depth: int,
    level: int,
    fallback: bool,
)
    requires
        0 <= k <= nodes.len(),
        all_hold(nested_nodes(nodes, styles, depth, level, fallback), p),
    ensures
        all_hold(nested_nodes(nodes.take(k), styles, depth, level, fallback), p),
    decreases nodes.len(),
{
    if k == nodes.len() {
        assert(nodes.take(k) =~= nodes);
    } else {
        lemma_all_hold_add(
            nested_nodes(nodes.drop_last(), styles, depth, level, fallback),
            list_nodes(nodes.last(), styles, depth, level, fallback, None).0,
            p,
        );
        lemma_nested_part(p, nodes.drop_last(), k, styles, depth, level, fallback);
        assert(nodes.drop_last().take(k) =~= nodes.take(k));
    }
}

proof fn lemma_transparent_part(
    p: spec_fn(NodeView) -> bool,
    nodes: Seq<XmlView>,
    k: int,
    styles: StylesView,
    depth: int,
    level: int,
    fallback: bool,
)
    requires
        0 <= k <= nodes.len(),
        all_hold(transparent_nodes(nodes, styles, depth, level, fallback), p),
    ensures
        all_hold(transparent_nodes(nodes.take(k), styles, depth, level, fallback), p),
    decreases nodes.len(),
{
    if k == nodes.len() {
        assert(nodes.take(k) =~= nodes);
    } else {
        lemma_all_hold_add(
            transparent_nodes(nodes.drop_last(), styles, depth, level, fallback),
            nested_nodes(nodes.last().children, styles, depth, level, fallback),
            p,
        );
        lemma_transparent_part(p, nodes.drop_last(), k, styles, depth, level, fallback);
        assert(nodes.drop_last().take(k) =~= nodes.take(k));
    }
}

proof fn lemma_items_part(
    p: spec_fn(NodeView) -> bool,
    nodes: Seq<XmlView>,
    k: int,
    styles: StylesView,
    depth: int,
    level: int,
    numbered: bool,
    style_enum: bool,
    counter: int,
    has_last: bool,
)
    requires
        0 <= k <= nodes.len(),
        all_hold(
            item_nodes(
                nodes,
                styles,
                depth,
                level,
                numbered,
                style_enum,
                counter,
                has_last,
            ).nodes,
            p,
        ),
    ensures
        all_hold(
            item_nodes(
                nodes.take(k),
                styles,
                depth,
                level,
                numbered,
                style_enum,
                counter,
                has_last,
            ).nodes,
            p,
        ),
    decreases nodes.len(),
{
    if k == nodes.len() {
        assert(nodes.take(k) =~= nodes);
    } else {
        let fewer = nodes.drop_last();
        let before = item_nodes(
            fewer,
            styles,
            depth,
            level,
            numbered,
            style_enum,
            counter,
            has_last,
        );
        let inner = nested_nodes(
            nodes.last().children,
            styles,
            depth + 1,
            level + 1,
            style_enum,
        );
        let number = if numbered {
            before.counter + 1
        } else {
            before.counter
        };
        let block = item_block(item_text(nodes.last(), styles), depth, numbered, number);
        lemma_all_hold_add(before.nodes, inner, p);
        lemma_all_hold_add(before.nodes.push(block), inner, p);
        lemma_all_hold_add(before.nodes, seq![block], p);
        assert(before.nodes.push(block) =~= before.nodes + seq![block]);
        lemma_items_part(
            p,
            fewer,
            k,
            styles,
            depth,
            level,
            numbered,
            style_enum,
            counter,
            has_last,
        );
        assert(fewer.take(k) =~= nodes.take(k));
    }
}

/// The property that a block is not a list item at `depth` or deeper.
pub open spec fn above(depth: int) -> spec_fn(NodeView) -> bool {
    |n: NodeView| n matches NodeView::ListItem { depth: d, .. } ==> d < depth
}

proof fn lemma_above_less(nodes: Seq<NodeView>, low: int, high: int)
    requires
        low <= high,
        all_hold(nodes, above(low)),
    ensures
        all_hold(nodes, above(high)),
{
    assert forall|k: int| 0 <= k < nodes.len() implies above(high)(#[trigger] nodes[k]) by {
        assert(above(low)(nodes[k]));
    }
}

/// A list that shows anything becomes at least one item at its depth or deeper.
pub proof fn lemma_list_shows(
    list: XmlView,
    styles: StylesView,
    depth: int,
    level: int,
    fallback: bool,
    continued: Option<ContView>,
)
    requires
        renderable(list, styles),
    ensures
        !all_hold(
            list_nodes(list, styles, depth, level, fallback, continued).0,
            above(depth),
        ),
    decreases list, 1nat,
{
    let nodes = list_nodes(list, styles, depth, level, fallback, continued).0;
    if all_hold(nodes, above(depth)) {
        let style_enum = enumerated(styles, list, level, fallback);
        let goes_on = continued matches Some(c) && c.has_last && opens_with_nested(list, styles);
        if !goes_on && !has_direct_text(list, styles) {
            let i = choose|i: int|
                0 <= i < list.children.len() && item_renders(#[trigger] list.children[i], styles);
            let item = list.children[i];
            assert(is_item(list.children[i]));
            lemma_transparent_part(
                above(depth),
                list.children,
                i + 1,
                styles,
                depth,
                level + 1,
                style_enum,
            );
            let head = list.children.take(i + 1);
            assert(head.drop_last() =~= list.children.take(i));
            lemma_all_hold_add(
                transparent_nodes(list.children.take(i), styles, depth, level + 1, style_enum),
                nested_nodes(item.children, styles, depth, level + 1, style_enum),
                above(depth),
            );
            lemma_inner_shows(item, styles, depth, level + 1, style_enum);
        } else {
            let numbered = if goes_on {
                continued->0.enumerated
            } else {
                style_enum
            };
            let counter = if goes_on {
                continued->0.counter
            } else {
                start_of(styles, list, level) - 1
            };
            let i = if goes_on {
                lemma_first_item(list.children)
            } else {
                choose|i: int|
                    0 <= i < list.children.len() && is_item(#[trigger] list.children[i])
                        && item_text(list.children[i], styles).len() > 0
            };
            let item = list.children[i];
            lemma_items_part(
                above(depth),
                list.children,
                i + 1,
                styles,
                depth,
                level,
                numbered,
                style_enum,
                counter,
                goes_on,
            );
            let head = list.children.take(i + 1);
            assert(head.drop_last() =~= list.children.take(i));
            let before = item_nodes(
                list.children.take(i),
                styles,
                depth,
                level,
                numbered,
                style_enum,
                counter,
                goes_on,
            );
            let inner = nested_nodes(item.children, styles, depth + 1, level + 1, style_enum);
            if goes_on {
                lemma_all_hold_add(before.nodes, inner, above(depth));
                lemma_above_less(inner, depth, depth + 1);
                lemma_inner_shows(item, styles, depth + 1, level + 1, style_enum);
            } else {
                let number = before.counter + 1;
                let block = item_block(item_text(item, styles), depth, numbered, number);
                lemma_all_hold_add(before.nodes.push(block), inner, above(depth));
                let shown = before.nodes.push(block);
                assert(shown[before.nodes.len() as int] == block);
                assert(above(depth)(block));
            }
        }
    }
}

proof fn lemma_inner_shows(
    item: XmlView,
    styles: StylesView,
    depth: int,
    level: int,
    fallback: bool,
)
    requires
        inner_renders(item, styles),
    ensures
        !all_hold(nested_nodes(item.children, styles, depth, level, fallback), above(depth)),
    decreases item, 0nat,
{
    let j = choose|j: int|
        0 <= j < item.children.len() && list_renders(#[trigger] item.children[j], styles);
    let inner = item.children[j];
    if all_hold(nested_nodes(item.children, styles, depth, level, fallback), above(depth)) {
        lemma_nested_part(above(depth), item.children, j + 1, styles, depth, level, fallback);
        let head = item.children.take(j + 1);
        assert(head.drop_last() =~= item.children.take(j));
        lemma_all_hold_add(
            nested_nodes(item.children.take(j), styles, depth, level, fallback),
            list_nodes(inner, styles, depth, level, fallback, None).0,
            above(depth),
        );
        lemma_list_shows(inner, styles, depth, level, fallback, None);
    }
}

proof fn lemma_first_item(nodes: Seq<XmlView>) -> (i: int)
    requires
        first_item(nodes) is Some,
    ensures
        0 <= i < nodes.len(),
        is_item(nodes[i]),
        first_item(nodes) == Some(nodes[i]),
    decreases nodes.len(),
{
    if is_item(nodes[0]) {
        0
    } else {
        let i = lemma_first_item(nodes.skip(1));
        i + 1
    }
}

/// An item without lists that show anything has no blocks of nested lists.
pub proof fn lemma_nothing_inside(
    item: XmlView,
    k: int,
    styles: StylesView,
    depth: int,
    level: int,
    fallback: bool,
)
    requires
        !inner_renders(item, styles),
        0 <= k <= item.children.len(),
    ensures
        nested_nodes(item.children.take(k), styles, depth, level, fallback) == Seq::<
            NodeView,
        >::empty(),
    decreases k,
{
    if k > 0 {
        lemma_nothing_inside(item, k - 1, styles, depth, level, fallback);
        let head = item.children.take(k);
        assert(head.drop_last() =~= item.children.take(k - 1));
        let last = item.children[k - 1];
        assert(!list_renders(last, styles));
        if is_list(last) {
            assert(list_nodes(last, styles, depth, level, fallback, None).0 == Seq::<
                NodeView,
            >::empty());
        }
        assert(nested_nodes(head, styles, depth, level, fallback) =~= Seq::<NodeView>::empty());
    }
}

/// Blocks at a depth that the document cannot hold do not fit.
proof fn lemma_too_deep(
    item: XmlView,
    styles: StylesView,
    depth: int,
    level: int,
    fallback: bool,
)
    requires
        inner_renders(item, styles),
        depth > u8::MAX,
    ensures
        !fits(nested_nodes(item.children, styles, depth, level, fallback)),
{
    let nodes = nested_nodes(item.children, styles, depth, level, fallback);
    lemma_inner_shows(item, styles, depth, level, fallback);
    if fits(nodes) {
        assert forall|k: int| 0 <= k < nodes.len() implies above(depth)(#[trigger] nodes[k]) by {
            assert(block_fits(nodes[k]));
        }
    }
}

// ---------------------------------------------------------------- reading a list

/// The text of a list item: its own paragraphs, each on a single line, not those of the lists
/// inside it.
pub fn odf_item_text(item: &XmlNode, styles: &Styles) -> (text: String)
    ensures
        text@ == item_text(item@, styles@),
{
    proof {
        lemma_children_view(item);
    }
    let ghost all = nodes_view(item.children@);
    let mut parts: Vec<String> = Vec::new();
    let mut i: usize = 0;
    assert(texts(parts@) =~= Seq::empty());
    while i < item.children.len()
        invariant
            i <= item.children@.len(),
            all == nodes_view(item.children@),
            all == item@.children,
            texts(parts@) == nonempty(line_texts(all.take(i as int), styles@)),
        decreases item.children@.len() - i,
    {
        let child = &item.children[i];
        assert(all.take(i as int + 1).drop_last() =~= all.take(i as int));
        assert(all.take(i as int + 1).last() == child@);
        if child.has_tag_name("p") || child.has_tag_name("h") {
            let markdown = paragraph_text(child, styles);
            let text = clean_lines(markdown.as_str());
            proof {
                lemma_nonempty_push(line_texts(all.take(i as int), styles@), text@);
            }
            if !text.as_str().is_empty() {
                let ghost before = texts(parts@);
                parts.push(text);
                assert(texts(parts@) =~= before.push(text@));
            }
        }
        i += 1;
    }
    assert(all.take(i as int) =~= all);
    join(&parts, " ")
}

/// Whether a node is an item of a list.
fn item(n: &XmlNode) -> (yes: bool)
    ensures
        yes == is_item(n@),
{
    n.has_tag_name("list-item") || n.has_tag_name("list-header")
}

/// Whether a list shows anything: an item with text, or one around a list that shows anything.
pub fn list_has_renderable(list: &XmlNode, styles: &Styles) -> (yes: bool)
    ensures
        yes == renderable(list@, styles@),
    decreases list@, 0nat,
{
    proof {
        lemma_children_view(list);
    }
    let ghost all = nodes_view(list.children@);
    let mut i: usize = 0;
    while i < list.children.len()
        invariant
            i <= list.children@.len(),
            all == nodes_view(list.children@),
            all == list@.children,
            forall|k: int| 0 <= k < i ==> !item_renders(#[trigger] all[k], styles@),
        decreases list.children@.len() - i,
    {
        let it = &list.children[i];
        assert(it@ == all[i as int]);
        assert(decreases_to!(list@ => list@.children));
        assert(decreases_to!(all => all[i as int]));
        if item(it) {
            let text = odf_item_text(it, styles);
            if !text.as_str().is_empty() || item_has_renderable(it, styles) {
                assert(item_renders(all[i as int], styles@));
                return true;
            }
        }
        i += 1;
    }
    false
}

/// Whether any list directly inside an item shows anything.
fn item_has_renderable(it: &XmlNode, styles: &Styles) -> (yes: bool)
    ensures
        yes == inner_renders(it@, styles@),
    decreases it@, 0nat,
{
    proof {
        lemma_children_view(it);
    }
    let ghost all = nodes_view(it.children@);
    let mut j: usize = 0;
    while j < it.children.len()
        invariant
            j <= it.children@.len(),
            all == nodes_view(it.children@),
            all == it@.children,
            forall|k: int| 0 <= k < j ==> !list_renders(#[trigger] all[k], styles@),
        decreases it.children@.len() - j,
    {
        let n = &it.children[j];
        assert(n@ == all[j as int]);
        assert(decreases_to!(it@ => it@.children));
        assert(decreases_to!(all => all[j as int]));
        if n.has_tag_name("list") && list_has_renderable(n, styles) {
            assert(list_renders(all[j as int], styles@));
            return true;
        }
        j += 1;
    }
    false
}

/// Whether any item of a list has text of its own.
pub fn list_has_direct_text(list: &XmlNode, styles: &Styles) -> (yes: bool)
    ensures
        yes == has_direct_text(list@, styles@),
{
    proof {
        lemma_children_view(list);
    }
    let ghost all = nodes_view(list.children@);
    let mut i: usize = 0;
    while i < list.children.len()
        invariant
            i <= list.children@.len(),
            all == nodes_view(list.children@),
            all == list@.children,
            forall|k: int|
                0 <= k < i && is_item(#[trigger] all[k]) ==> item_text(all[k], styles@).len() == 0,
        decreases list.children@.len() - i,
    {
        let it = &list.children[i];
        assert(it@ == all[i as int]);
        if item(it) {
            let text = odf_item_text(it, styles);
            if !text.as_str().is_empty() {
                return true;
            }
        }
        i += 1;
    }
    false
}

/// Whether a list opens with an item that has no text but a list inside that shows anything.
pub fn list_starts_with_empty_nested(list: &XmlNode, styles: &Styles) -> (yes: bool)
    ensures
        yes == opens_with_nested(list@, styles@),
{
    proof {
        lemma_children_view(list);
    }
    let ghost all = nodes_view(list.children@);
    let mut i: usize = 0;
    assert(all.skip(0) =~= all);
    while i < list.children.len()
        invariant
            i <= list.children@.len(),
            all == nodes_view(list.children@),
            all == list@.children,
            first_item(all.skip(i as int)) == first_item(all),
        decreases list.children@.len() - i,
    {
        let it = &list.children[i];
        assert(all.skip(i as int)[0] == it@);
        if item(it) {
            let text = odf_item_text(it, styles);
            return text.as_str().is_empty() && item_has_renderable(it, styles);
        }
        assert(all.skip(i as int).skip(1) =~= all.skip(i as int + 1));
        i += 1;
    }
    false
}

/// The levels of the last list style that is declared under a name.
fn find_levels<'a>(
    lists: &'a Vec<(String, Vec<(i64, OdfLevel)>)>,
    name: &str,
) -> (found: Option<&'a Vec<(i64, OdfLevel)>>)
    ensures
        match found {
            Some(levels) => declared(lists_view(lists@), name@) == Some(levels@),
            None => declared(lists_view(lists@), name@) is None,
        },
        lists_wf(lists_view(lists@)) ==> (found matches Some(levels) ==> levels_wf(levels@)),
{
    let ghost all = lists_view(lists@);
    let mut i = lists.len();
    assert(all.take(i as int) =~= all);
    while i > 0
        invariant
            i <= lists@.len(),
            all == lists_view(lists@),
            declared(all.take(i as int), name@) == declared(all, name@),
        decreases i,
    {
        let e = &lists[i - 1];
        assert(all[i as int - 1] == (e.0@, e.1@));
        if same_text(e.0.as_str(), name) {
            return Some(&e.1);
        }
        assert(all.take(i as int).drop_last() =~= all.take(i as int - 1));
        i -= 1;
    }
    None
}

/// What the style of a list declares for a level.
fn find_level(styles: &Styles, list: &XmlNode, level: i64) -> (found: Option<OdfLevel>)
    requires
        styles@.wf(),
    ensures
        found == level_style(styles@, list@, level as int),
        found matches Some(lv) ==> lv.start >= 1,
{
    let name = match attr(list, "style-name") {
        Some(name) => name,
        None => {
            return None;
        },
    };
    let levels = match find_levels(&styles.lists, name) {
        Some(levels) => levels,
        None => {
            return None;
        },
    };
    let mut i = levels.len();
    assert(levels@.take(i as int) =~= levels@);
    while i > 0
        invariant
            i <= levels@.len(),
            levels_wf(levels@),
            level_style(styles@, list@, level as int) == declared_level(levels@, level as int),
            declared_level(levels@.take(i as int), level as int) == declared_level(
                levels@,
                level as int,
            ),
        decreases i,
    {
        let e = levels[i - 1];
        assert(levels@.take(i as int).last() == e);
        if e.0 == level {
            return Some(e.1);
        }
        assert(levels@.take(i as int).drop_last() =~= levels@.take(i as int - 1));
        i -= 1;
    }
    None
}

/// Whether a level of a list is numbered; `fallback` says so where the style does not.
pub fn level_is_enumerated(styles: &Styles, list: &XmlNode, level: i64, fallback: bool) -> (yes:
    bool)
    requires
        styles@.wf(),
    ensures
        yes == enumerated(styles@, list@, level as int, fallback),
{
    match find_level(styles, list, level) {
        Some(lv) => lv.numbered,
        None => fallback,
    }
}

/// The first number of a level of a list.
pub fn level_start(styles: &Styles, list: &XmlNode, level: i64) -> (start: i64)
    requires
        styles@.wf(),
    ensures
        start == start_of(styles@, list@, level as int),
        start >= 1,
{
    match find_level(styles, list, level) {
        Some(lv) => lv.start,
        None => 1,
    }
}

/// Whether `number` is the number `exact`, or none where `i64` cannot hold it.
pub open spec fn number_is(number: Option<i64>, exact: int) -> bool {
    &&& exact >= i64::MIN
    &&& number == (if exact <= i64::MAX {
        Some(exact as i64)
    } else {
        None
    })
}

/// One more.
fn next_number(number: Option<i64>, Ghost(exact): Ghost<int>) -> (next: Option<i64>)
    requires
        number_is(number, exact),
    ensures
        number_is(next, exact + 1),
{
    match number {
        Some(n) => n.checked_add(1),
        None => None,
    }
}

/// No style declares a level that `i64` cannot hold.
proof fn lemma_no_level(levels: Levels, level: int)
    requires
        level > i64::MAX,
    ensures
        declared_level(levels, level) is None,
    decreases levels.len(),
{
    if levels.len() > 0 {
        lemma_no_level(levels.drop_last(), level);
    }
}

proof fn lemma_no_level_style(styles: StylesView, list: XmlView, level: int)
    requires
        level > i64::MAX,
    ensures
        level_style(styles, list, level) is None,
{
    if let Some(name) = attr_of(list, "style-name"@) {
        if let Some(levels) = declared(styles.lists, name) {
            lemma_no_level(levels, level);
        }
    }
}

/// Where a list stopped, its counter none where `i64` cannot hold it.
#[derive(Clone, Copy)]
pub struct Progress {
    pub enumerated: bool,
    pub counter: Option<i64>,
    pub has_last: bool,
}

/// Whether `progress` tells where a list stopped.
pub open spec fn progress_is(progress: Option<Progress>, cont: Option<ContView>) -> bool {
    match (progress, cont) {
        (Some(p), Some(c)) => {
            &&& p.enumerated == c.enumerated
            &&& number_is(p.counter, c.counter)
            &&& p.has_last == c.has_last
        },
        (None, None) => true,
        _ => false,
    }
}

// ---------------------------------------------------------------- flattening a list

/// Appends the blocks of a list; nothing comes back where they do not fit.
fn push_list(
    list: &XmlNode,
    styles: &Styles,
    doc: &mut DoclingDocument,
    depth: u8,
    level: Option<i64>,
    fallback: bool,
    continued: Option<Progress>,
    Ghost(exact): Ghost<int>,
    Ghost(past): Ghost<Option<ContView>>,
) -> (stopped: Option<Option<Progress>>)
    requires
        styles@.wf(),
        number_is(level, exact),
        progress_is(continued, past),
    ensures
        ({
            let (nodes, cont) = list_nodes(
                list@,
                styles@,
                depth as int,
                exact,
                fallback,
                past,
            );
            match stopped {
                Some(c) => {
                    &&& fits(nodes)
                    &&& final(doc)@ == extended(old(doc)@, nodes)
                    &&& progress_is(c, cont)
                },
                None => !fits(nodes),
            }
        }),
    decreases list@, 0nat,
{
    let ghost whole = list_nodes(
        list@,
        styles@,
        depth as int,
        exact,
        fallback,
        past,
    );
    if !list_has_renderable(list, styles) {
        assert(old(doc)@.nodes + Seq::<NodeView>::empty() =~= old(doc)@.nodes);
        return Some(None);
    }
    proof {
        if exact > i64::MAX {
            lemma_no_level_style(styles@, list@, exact);
        }
    }
    let style_enum = match level {
        Some(l) => level_is_enumerated(styles, list, l, fallback),
        None => fallback,
    };
    let goes_on = match continued {
        Some(c) => c.has_last && list_starts_with_empty_nested(list, styles),
        None => false,
    };
    let inner_level = next_number(level, Ghost(exact));
    proof {
        lemma_children_view(list);
    }
    let ghost all = nodes_view(list.children@);
    let mut i: usize = 0;
    if !goes_on && !list_has_direct_text(list, styles) {
        while i < list.children.len()
            invariant
                styles@.wf(),
                number_is(inner_level, exact + 1),
                i <= list.children@.len(),
                all == nodes_view(list.children@),
                all == list@.children,
                whole == list_nodes(
                    list@,
                    styles@,
                    depth as int,
                    exact,
                    fallback,
                    past,
                ),
                whole.0 == transparent_nodes(all, styles@, depth as int, exact + 1, style_enum),
                fits(
                    transparent_nodes(
                        all.take(i as int),
                        styles@,
                        depth as int,
                        exact + 1,
                        style_enum,
                    ),
                ),
                doc@ == extended(
                    old(doc)@,
                    transparent_nodes(
                        all.take(i as int),
                        styles@,
                        depth as int,
                        exact + 1,
                        style_enum,
                    ),
                ),
            decreases list.children@.len() - i,
        {
            let it = &list.children[i];
            let ghost before = transparent_nodes(
                all.take(i as int),
                styles@,
                depth as int,
                exact + 1,
                style_enum,
            );
            let ghost inner = nested_nodes(
                it@.children,
                styles@,
                depth as int,
                exact + 1,
                style_enum,
            );
            let ghost known = doc@;
            assert(it@ == all[i as int]);
            assert(decreases_to!(list@ => list@.children));
            assert(decreases_to!(all => all[i as int]));
            assert(all.take(i as int + 1).drop_last() =~= all.take(i as int));
            if item(it) {
                let fit = push_nested(
                    it,
                    styles,
                    doc,
                    depth,
                    inner_level,
                    style_enum,
                    Ghost(exact + 1),
                );
                proof {
                    lemma_fits_add(before, inner);
                }
                if !fit {
                    proof {
                        lemma_fits_is_all(whole.0);
                        let part = transparent_nodes(
                            all.take(i as int + 1),
                            styles@,
                            depth as int,
                            exact + 1,
                            style_enum,
                        );
                        lemma_fits_is_all(part);
                        if fits(whole.0) {
                            lemma_transparent_part(
                                fit_check(),
                                all,
                                i as int + 1,
                                styles@,
                                depth as int,
                                exact + 1,
                                style_enum,
                            );
                        }
                    }
                    return None;
                }
                assert(doc@.nodes =~= old(doc)@.nodes + (before + inner));
            }
            i += 1;
        }
        assert(all.take(i as int) =~= all);
        return Some(None);
    }
    let numbered = match continued {
        Some(c) => if goes_on {
            c.enumerated
        } else {
            style_enum
        },
        None => style_enum,
    };
    let ghost first = if goes_on {
        past->0.counter
    } else {
        start_of(styles@, list@, exact) - 1
    };
    let start: i64 = match level {
        Some(l) => level_start(styles, list, l),
        None => 1,
    };
    let mut counter: Option<i64> = match continued {
        Some(c) => if goes_on {
            c.counter
        } else {
            Some(start - 1)
        },
        None => Some(start - 1),
    };
    let mut has_last = goes_on;
    let ghost done = |k: int|
        item_nodes(
            all.take(k),
            styles@,
            depth as int,
            exact,
            numbered,
            style_enum,
            first,
            goes_on,
        );
    while i < list.children.len()
        invariant
            styles@.wf(),
            number_is(inner_level, exact + 1),
            i <= list.children@.len(),
            all == nodes_view(list.children@),
            all == list@.children,
            done == (|k: int|
                item_nodes(
                    all.take(k),
                    styles@,
                    depth as int,
                    exact,
                    numbered,
                    style_enum,
                    first,
                    goes_on,
                )),
            whole == list_nodes(
                list@,
                styles@,
                depth as int,
                exact,
                fallback,
                past,
            ),
            whole.0 == item_nodes(
                all,
                styles@,
                depth as int,
                exact,
                numbered,
                style_enum,
                first,
                goes_on,
            ).nodes,
            fits(done(i as int).nodes),
            number_is(counter, done(i as int).counter),
            has_last == done(i as int).has_last,
            doc@ == extended(old(doc)@, done(i as int).nodes),
        decreases list.children@.len() - i,
    {
        let it = &list.children[i];
        let ghost before = done(i as int);
        let ghost after = done(i as int + 1);
        let ghost inner = nested_nodes(
            it@.children,
            styles@,
            depth as int + 1,
            exact + 1,
            style_enum,
        );
        assert(it@ == all[i as int]);
        assert(decreases_to!(list@ => list@.children));
        assert(decreases_to!(all => all[i as int]));
        assert(all.take(i as int + 1).drop_last() =~= all.take(i as int));
        proof {
            lemma_fits_is_all(whole.0);
            lemma_fits_is_all(after.nodes);
            if fits(whole.0) {
                lemma_items_part(
                    fit_check(),
                    all,
                    i as int + 1,
                    styles@,
                    depth as int,
                    exact,
                    numbered,
                    style_enum,
                    first,
                    goes_on,
                );
            }
        }
        if item(it) {
            let text = odf_item_text(it, styles);
            let ghost mut shown = before.nodes;
            if !text.as_str().is_empty() {
                let ghost block = item_block(
                    text@,
                    depth as int,
                    numbered,
                    before.counter + 1,
                );
                proof {
                    shown = before.nodes.push(block);
                    lemma_fits_add(shown, inner);
                    assert(shown[before.nodes.len() as int] == block);
                }
                counter = next_number(counter, Ghost(before.counter));
                let number: u64 = if numbered {
                    match counter {
                        Some(n) => if n > 0 {
                            n as u64
                        } else {
                            0
                        },
                        None => {
                            assert(!block_fits(block));
                            return None;
                        },
                    }
                } else {
                    0
                };
                let node = Node::ListItem {
                    ordered: numbered,
                    number,
                    first_in_list: false,
                    text,
                    level: depth,
                };
                assert(node@ == block);
                doc.push(node);
                assert(doc@.nodes =~= old(doc)@.nodes + shown);
                has_last = true;
                assert(fits(shown));
            }
            proof {
                lemma_fits_add(shown, inner);
                assert(after.nodes == shown + inner);
            }
            let fit = push_deeper(
                it,
                styles,
                doc,
                depth,
                inner_level,
                style_enum,
                Ghost(exact + 1),
            );
            if !fit {
                return None;
            }
            assert(doc@.nodes =~= old(doc)@.nodes + (shown + inner));
        }
        i += 1;
    }
    assert(all.take(i as int) =~= all);
    Some(Some(Progress { enumerated: numbered, counter, has_last }))
}

/// Appends the blocks of the lists inside an item, one deeper; says whether they fit.
fn push_deeper(
    it: &XmlNode,
    styles: &Styles,
    doc: &mut DoclingDocument,
    depth: u8,
    level: Option<i64>,
    fallback: bool,
    Ghost(exact): Ghost<int>,
) -> (fit: bool)
    requires
        styles@.wf(),
        number_is(level, exact),
    ensures
        ({
            let nodes = nested_nodes(it@.children, styles@, depth as int + 1, exact, fallback);
            &&& fit == fits(nodes)
            &&& fit ==> final(doc)@ == extended(old(doc)@, nodes)
        }),
    decreases it@, 2nat,
{
    if depth == u8::MAX {
        if item_has_renderable(it, styles) {
            proof {
                lemma_too_deep(it@, styles@, depth as int + 1, exact, fallback);
            }
            false
        } else {
            proof {
                lemma_nothing_inside(
                    it@,
                    it@.children.len() as int,
                    styles@,
                    depth as int + 1,
                    exact,
                    fallback,
                );
                assert(it@.children.take(it@.children.len() as int) =~= it@.children);
                assert(doc@.nodes + Seq::<NodeView>::empty() =~= doc@.nodes);
            }
            true
        }
    } else {
        push_nested(it, styles, doc, depth + 1, level, fallback, Ghost(exact))
    }
}

/// Appends the blocks of the lists inside an item; says whether they fit.
fn push_nested(
    it: &XmlNode,
    styles: &Styles,
    doc: &mut DoclingDocument,
    depth: u8,
    level: Option<i64>,
    fallback: bool,
    Ghost(exact): Ghost<int>,
) -> (fit: bool)
    requires
        styles@.wf(),
        number_is(level, exact),
    ensures
        ({
            let nodes = nested_nodes(it@.children, styles@, depth as int, exact, fallback);
            &&& fit == fits(nodes)
            &&& fit ==> final(doc)@ == extended(old(doc)@, nodes)
        }),
    decreases it@, 1nat,
{
    proof {
        lemma_children_view(it);
    }
    let ghost all = nodes_view(it.children@);
    let mut j: usize = 0;
    assert(doc@.nodes + Seq::<NodeView>::empty() =~= doc@.nodes);
    while j < it.children.len()
        invariant
            styles@.wf(),
            number_is(level, exact),
            j <= it.children@.len(),
            all == nodes_view(it.children@),
            all == it@.children,
            fits(nested_nodes(all.take(j as int), styles@, depth as int, exact, fallback)),
            doc@ == extended(
                old(doc)@,
                nested_nodes(all.take(j as int), styles@, depth as int, exact, fallback),
            ),
        decreases it.children@.len() - j,
    {
        let n = &it.children[j];
        let ghost before = nested_nodes(
            all.take(j as int),
            styles@,
            depth as int,
            exact,
            fallback,
        );
        let ghost inner = list_nodes(n@, styles@, depth as int, exact, fallback, None).0;
        assert(n@ == all[j as int]);
        assert(decreases_to!(it@ => it@.children));
        assert(decreases_to!(all => all[j as int]));
        assert(all.take(j as int + 1).drop_last() =~= all.take(j as int));
        if n.has_tag_name("list") {
            let stopped = push_list(
                n,
                styles,
                doc,
                depth,
                level,
                fallback,
                None,
                Ghost(exact),
                Ghost(None),
            );
            proof {
                lemma_fits_add(before, inner);
            }
            if stopped.is_none() {
                proof {
                    let whole = nested_nodes(all, styles@, depth as int, exact, fallback);
                    let part = nested_nodes(
                        all.take(j as int + 1),
                        styles@,
                        depth as int,
                        exact,
                        fallback,
                    );
                    lemma_fits_is_all(whole);
                    lemma_fits_is_all(part);
                    if fits(whole) {
                        lemma_nested_part(
                            fit_check(),
                            all,
                            j as int + 1,
                            styles@,
                            depth as int,
                            exact,
                            fallback,
                        );
                    }
                }
                return false;
            }
            assert(doc@.nodes =~= old(doc)@.nodes + (before + inner));
        }
        j += 1;
    }
    assert(all.take(j as int) =~= all);
    true
}

/// Appends the blocks of a list, its style looked up from the first level on; nothing comes back
/// where they do not fit.
pub(crate) fn try_add_list(
    list: &XmlNode,
    styles: &Styles,
    doc: &mut DoclingDocument,
    depth: u8,
    continued: Option<Progress>,
    Ghost(past): Ghost<Option<ContView>>,
) -> (stopped: Option<Option<Progress>>)
    requires
        styles@.wf(),
        progress_is(continued, past),
    ensures
        ({
            let (nodes, cont) = list_nodes(list@, styles@, depth as int, 1, false, past);
            match stopped {
                Some(c) => {
                    &&& fits(nodes)
                    &&& final(doc)@ == extended(old(doc)@, nodes)
                    &&& progress_is(c, cont)
                },
                None => !fits(nodes),
            }
        }),
{
    push_list(list, styles, doc, depth, Some(1), false, continued, Ghost(1), Ghost(past))
}

/// Appends the blocks of a list, and says where it stopped.
///
/// `depth` is the depth of the list's own items, and `style_level` the level, counted from one,
/// at which its style is looked up; where the style does not declare the level,
/// `enumerated_fallback` says whether it is numbered. An item without text collapses: the lists
/// inside it follow the item before it. A list that opens with such an item goes on with the
/// numbers of the list that `continued` tells of.
pub fn add_odf_list(
    list: &XmlNode,
    styles: &Styles,
    doc: &mut DoclingDocument,
    depth: u8,
    style_level: i64,
    enumerated_fallback: bool,
    continued: Option<ListCont>,
) -> (stopped: Option<ListCont>)
    requires
        styles@.wf(),
        fits(
            list_nodes(
                list@,
                styles@,
                depth as int,
                style_level as int,
                enumerated_fallback,
                cont_view(continued),
            ).0,
        ),
        list_nodes(
            list@,
            styles@,
            depth as int,
            style_level as int,
            enumerated_fallback,
            cont_view(continued),
        ).1 matches Some(c) ==> c.counter <= i64::MAX,
    ensures
        ({
            let (nodes, cont) = list_nodes(
                list@,
                styles@,
                depth as int,
                style_level as int,
                enumerated_fallback,
                cont_view(continued),
            );
            &&& final(doc)@ == extended(old(doc)@, nodes)
            &&& cont_view(stopped) == cont
        }),
{
    let past = match continued {
        Some(c) => Some(
            Progress { enumerated: c.enumerated, counter: Some(c.counter), has_last: c.has_last },
        ),
        None => None,
    };
    let stopped = push_list(
        list,
        styles,
        doc,
        depth,
        Some(style_level),
        enumerated_fallback,
        past,
        Ghost(style_level as int),
        Ghost(cont_view(continued)),
    );
    match stopped {
        Some(Some(p)) => match p.counter {
            Some(counter) => Some(
                ListCont { enumerated: p.enumerated, counter, has_last: p.has_last },
            ),
            None => vstd::pervasive::unreached(),
        },
        Some(None) => None,
        None => vstd::pervasive::unreached(),
    }
}

} // verus!
