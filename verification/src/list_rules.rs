//! Laws of lists, item by item: which marks, numbers and depth an item gets, at every nesting.

use vstd::prelude::*;

use crate::document::NodeView;
use crate::list_laws::{
    law_items_count_up, law_lists_with_text_are_shown, law_lists_without_text_are_transparent,
    law_numbers_go_on, lemma_counter, text_items,
};
use crate::lists::{
    enumerated, first_item, has_direct_text, inner_renders, is_item, is_list, item_nodes,
    item_renders, item_text, line_texts, list_nodes, list_renders, nested_nodes, opens_with_nested,
    renderable, start_of, transparent_nodes, ContView,
};
use crate::runs::markdown_of;
use crate::styles::{declared, declared_level, OdfLevel, StylesView};
use crate::text::{joined, nonempty, tidy_lines};
use crate::xml::{attr_of, XmlView};

verus! {

// ---------------------------------------------------------------- what a list says

/// Whether a node is an item of a list: an item proper, or the header of a list.
pub open spec fn entry(n: XmlView) -> bool {
    n.is_element && (n.name == "list-item"@ || n.name == "list-header"@)
}

/// Whether a node is an item of a list that has text of its own.
pub open spec fn text_entry(n: XmlView, styles: StylesView) -> bool {
    entry(n) && item_text(n, styles).len() > 0
}

/// Whether any item of a list has text of its own.
pub open spec fn has_text_entry(list: XmlView, styles: StylesView) -> bool {
    exists|i: int|
        0 <= i < list.children.len() && text_entry(#[trigger] list.children[i], styles)
}

/// What the style that a list names declares for a level.
pub open spec fn says(styles: StylesView, list: XmlView, level: int) -> Option<OdfLevel> {
    if attr_of(list, "style-name"@) is Some && declared(
        styles.lists,
        attr_of(list, "style-name"@)->0,
    ) is Some {
        declared_level(declared(styles.lists, attr_of(list, "style-name"@)->0)->0, level)
    } else {
        None
    }
}

/// Whether the items of a list have numbers at a level: as its style declares, and as `outer` says
/// where it declares nothing.
pub open spec fn has_numbers(styles: StylesView, list: XmlView, level: int, outer: bool) -> bool {
    if says(styles, list, level) is Some {
        says(styles, list, level)->0.numbered
    } else {
        outer
    }
}

/// The number of a list's first item at a level: as its style declares, and one where it declares
/// nothing.
pub open spec fn first_number(styles: StylesView, list: XmlView, level: int) -> int {
    if says(styles, list, level) is Some {
        says(styles, list, level)->0.start as int
    } else {
        1
    }
}

/// How many of the given nodes are items with text of their own.
pub open spec fn entries_in(nodes: Seq<XmlView>, styles: StylesView) -> int
    decreases nodes.len(),
{
    if nodes.len() == 0 {
        0
    } else {
        entries_in(nodes.drop_last(), styles) + (if text_entry(nodes.last(), styles) {
            1int
        } else {
            0int
        })
    }
}

/// The block of an item: without a number where its list has none, or where the number is not
/// above zero.
pub open spec fn entry_block(text: Seq<char>, depth: int, numbers: bool, number: int) -> NodeView {
    NodeView::ListItem {
        ordered: numbers,
        number: if numbers && number > 0 {
            number
        } else {
            0
        },
        first_in_list: false,
        text,
        depth,
    }
}

/// The blocks of the lists directly among the given nodes, one after another.
pub open spec fn lists_among(
    nodes: Seq<XmlView>,
    styles: StylesView,
    depth: int,
    level: int,
    outer: bool,
) -> Seq<NodeView>
    decreases nodes.len(),
{
    if nodes.len() == 0 {
        Seq::empty()
    } else {
        lists_among(nodes.drop_last(), styles, depth, level, outer) + (if nodes.last().is_element
            && nodes.last().name == "list"@ {
            list_nodes(nodes.last(), styles, depth, level, outer, None).0
        } else {
            Seq::empty()
        })
    }
}

/// Whether a list opens with an item that has no text of its own, but a list in it that becomes
/// something.
pub open spec fn opens_empty(list: XmlView, styles: StylesView) -> bool {
    exists|f: int, j: int|
        {
            &&& 0 <= f < list.children.len()
            &&& entry(#[trigger] list.children[f])
            &&& item_text(list.children[f], styles).len() == 0
            &&& forall|e: int| 0 <= e < f ==> !entry(#[trigger] list.children[e])
            &&& 0 <= j < list.children[f].children.len()
            &&& (#[trigger] list.children[f].children[j]).is_element
            &&& list.children[f].children[j].name == "list"@
            &&& list_nodes(list.children[f].children[j], styles, 0, 1, false, None).0.len() > 0
        }
}

// ---------------------------------------------------------------- proofs

proof fn lemma_has_text(list: XmlView, styles: StylesView)
    ensures
        has_text_entry(list, styles) == has_direct_text(list, styles),
        has_text_entry(list, styles) ==> renderable(list, styles),
{
    if has_text_entry(list, styles) {
        let i = choose|i: int|
            0 <= i < list.children.len() && text_entry(#[trigger] list.children[i], styles);
        assert(is_item(list.children[i]));
        assert(item_renders(list.children[i], styles));
    }
    if has_direct_text(list, styles) {
        let i = choose|i: int|
            0 <= i < list.children.len() && is_item(#[trigger] list.children[i]) && item_text(
                list.children[i],
                styles,
            ).len() > 0;
        assert(text_entry(list.children[i], styles));
    }
}

proof fn lemma_says(styles: StylesView, list: XmlView, level: int, outer: bool)
    ensures
        has_numbers(styles, list, level, outer) == enumerated(styles, list, level, outer),
        first_number(styles, list, level) == start_of(styles, list, level),
{
}

proof fn lemma_entries(nodes: Seq<XmlView>, styles: StylesView)
    ensures
        entries_in(nodes, styles) == text_items(nodes, styles),
    decreases nodes.len(),
{
    if nodes.len() > 0 {
        lemma_entries(nodes.drop_last(), styles);
    }
}

proof fn lemma_lists_among(
    nodes: Seq<XmlView>,
    styles: StylesView,
    depth: int,
    level: int,
    outer: bool,
)
    ensures
        lists_among(nodes, styles, depth, level, outer) == nested_nodes(
            nodes,
            styles,
            depth,
            level,
            outer,
        ),
    decreases nodes.len(),
{
    if nodes.len() > 0 {
        lemma_lists_among(nodes.drop_last(), styles, depth, level, outer);
        assert(lists_among(nodes, styles, depth, level, outer) =~= nested_nodes(
            nodes,
            styles,
            depth,
            level,
            outer,
        ));
    }
}

proof fn lemma_first_item(nodes: Seq<XmlView>, f: int)
    requires
        0 <= f < nodes.len(),
        entry(nodes[f]),
        forall|e: int| 0 <= e < f ==> !entry(#[trigger] nodes[e]),
    ensures
        first_item(nodes) == Some(nodes[f]),
    decreases nodes.len(),
{
    if f > 0 {
        assert(!entry(nodes[0]));
        assert forall|e: int| 0 <= e < f - 1 implies !entry(#[trigger] nodes.skip(1)[e]) by {
            assert(!entry(nodes[e + 1]));
        }
        lemma_first_item(nodes.skip(1), f - 1);
    }
}

proof fn lemma_opens_empty(list: XmlView, styles: StylesView)
    requires
        opens_empty(list, styles),
    ensures
        opens_with_nested(list, styles),
        renderable(list, styles),
{
    let (f, j) = choose|f: int, j: int|
        {
            &&& 0 <= f < list.children.len()
            &&& entry(#[trigger] list.children[f])
            &&& item_text(list.children[f], styles).len() == 0
            &&& forall|e: int| 0 <= e < f ==> !entry(#[trigger] list.children[e])
            &&& 0 <= j < list.children[f].children.len()
            &&& (#[trigger] list.children[f].children[j]).is_element
            &&& list.children[f].children[j].name == "list"@
            &&& list_nodes(list.children[f].children[j], styles, 0, 1, false, None).0.len() > 0
        };
    lemma_first_item(list.children, f);
    let item = list.children[f];
    law_lists_with_text_are_shown(item.children[j], styles, 0, 1, false, None);
    assert(list_renders(item.children[j], styles));
    assert(inner_renders(item, styles));
    assert(item_renders(list.children[f], styles));
}

proof fn lemma_first_item_is(nodes: Seq<XmlView>) -> (f: int)
    requires
        first_item(nodes) is Some,
    ensures
        0 <= f < nodes.len(),
        entry(nodes[f]),
        nodes[f] == first_item(nodes)->0,
        forall|e: int| 0 <= e < f ==> !entry(#[trigger] nodes[e]),
    decreases nodes.len(),
{
    if entry(nodes[0]) {
        0
    } else {
        let f = lemma_first_item_is(nodes.skip(1));
        assert forall|e: int| 0 <= e < f + 1 implies !entry(#[trigger] nodes[e]) by {
            if e > 0 {
                assert(nodes[e] == nodes.skip(1)[e - 1]);
            }
        }
        f + 1
    }
}

proof fn lemma_opens_with_nested(list: XmlView, styles: StylesView)
    requires
        opens_with_nested(list, styles),
    ensures
        opens_empty(list, styles),
{
    let f = lemma_first_item_is(list.children);
    let item = list.children[f];
    let j = choose|j: int|
        0 <= j < item.children.len() && list_renders(#[trigger] item.children[j], styles);
    law_lists_with_text_are_shown(item.children[j], styles, 0, 1, false, None);
    assert(entry(list.children[f]) && list.children[f].children[j].is_element);
}

proof fn lemma_nested_has(
    nodes: Seq<XmlView>,
    j: int,
    styles: StylesView,
    depth: int,
    level: int,
    outer: bool,
    block: NodeView,
)
    requires
        0 <= j < nodes.len(),
        is_list(nodes[j]),
        list_nodes(nodes[j], styles, depth, level, outer, None).0.contains(block),
    ensures
        nested_nodes(nodes, styles, depth, level, outer).contains(block),
    decreases nodes.len(),
{
    let all = nested_nodes(nodes, styles, depth, level, outer);
    let before = nested_nodes(nodes.drop_last(), styles, depth, level, outer);
    if j < nodes.len() - 1 {
        lemma_nested_has(nodes.drop_last(), j, styles, depth, level, outer, block);
        let k = choose|k: int| 0 <= k < before.len() && before[k] == block;
        assert(all[k] == block);
    } else {
        let more = list_nodes(nodes[j], styles, depth, level, outer, None).0;
        let k = choose|k: int| 0 <= k < more.len() && more[k] == block;
        assert(all[before.len() + k] == block);
    }
}

proof fn lemma_transparent_has(
    nodes: Seq<XmlView>,
    i: int,
    styles: StylesView,
    depth: int,
    level: int,
    outer: bool,
    block: NodeView,
)
    requires
        0 <= i < nodes.len(),
        is_item(nodes[i]),
        nested_nodes(nodes[i].children, styles, depth, level, outer).contains(block),
    ensures
        transparent_nodes(nodes, styles, depth, level, outer).contains(block),
    decreases nodes.len(),
{
    let all = transparent_nodes(nodes, styles, depth, level, outer);
    let before = transparent_nodes(nodes.drop_last(), styles, depth, level, outer);
    if i < nodes.len() - 1 {
        lemma_transparent_has(nodes.drop_last(), i, styles, depth, level, outer, block);
        let k = choose|k: int| 0 <= k < before.len() && before[k] == block;
        assert(all[k] == block);
    } else {
        let more = nested_nodes(nodes[i].children, styles, depth, level, outer);
        let k = choose|k: int| 0 <= k < more.len() && more[k] == block;
        assert(all[before.len() + k] == block);
    }
}

proof fn lemma_items_have(
    nodes: Seq<XmlView>,
    i: int,
    styles: StylesView,
    depth: int,
    level: int,
    numbered: bool,
    style_enum: bool,
    counter: int,
    has_last: bool,
    block: NodeView,
)
    requires
        0 <= i < nodes.len(),
        is_item(nodes[i]),
        nested_nodes(nodes[i].children, styles, depth + 1, level + 1, style_enum).contains(block),
    ensures
        item_nodes(
            nodes,
            styles,
            depth,
            level,
            numbered,
            style_enum,
            counter,
            has_last,
        ).nodes.contains(block),
    decreases nodes.len(),
{
    let all = item_nodes(
        nodes,
        styles,
        depth,
        level,
        numbered,
        style_enum,
        counter,
        has_last,
    ).nodes;
    let before = item_nodes(
        nodes.drop_last(),
        styles,
        depth,
        level,
        numbered,
        style_enum,
        counter,
        has_last,
    ).nodes;
    if i < nodes.len() - 1 {
        lemma_items_have(
            nodes.drop_last(),
            i,
            styles,
            depth,
            level,
            numbered,
            style_enum,
            counter,
            has_last,
            block,
        );
        let k = choose|k: int| 0 <= k < before.len() && before[k] == block;
        assert(all[k] == block);
    } else {
        let more = nested_nodes(nodes[i].children, styles, depth + 1, level + 1, style_enum);
        let k = choose|k: int| 0 <= k < more.len() && more[k] == block;
        if item_text(nodes[i], styles).len() == 0 {
            assert(all[before.len() + k] == block);
        } else {
            assert(all[before.len() + 1 + k] == block);
        }
    }
}

// ---------------------------------------------------------------- items

/// An item with text is in the list's blocks, at the list's depth, with the marks that the list's
/// own style declares for its level, and with the list's first number and one more for each item
/// with text before it.
pub proof fn law_items_have_their_numbers(
    list: XmlView,
    styles: StylesView,
    depth: int,
    level: int,
    outer: bool,
    i: int,
)
    requires
        0 <= i < list.children.len(),
        text_entry(list.children[i], styles),
    ensures
        list_nodes(list, styles, depth, level, outer, None).0.contains(
            entry_block(
                item_text(list.children[i], styles),
                depth,
                has_numbers(styles, list, level, outer),
                first_number(styles, list, level) + entries_in(list.children.take(i), styles),
            ),
        ),
{
    law_items_count_up(list, styles, depth, level, outer, i);
    lemma_entries(list.children.take(i), styles);
    lemma_says(styles, list, level, outer);
}

/// In a list with text of its own, the items with text of a list inside one of its items are one
/// deeper, with the marks that the inner list's style declares for the next level, and with those
/// of the outer list where it declares none. Where the outer list goes on with another one, the
/// same holds.
pub proof fn law_inner_lists_are_a_level_further(
    list: XmlView,
    styles: StylesView,
    depth: int,
    level: int,
    outer: bool,
    continued: Option<ContView>,
    i: int,
    j: int,
    k: int,
)
    requires
        has_text_entry(list, styles) || (continued is Some && continued->0.has_last && opens_empty(
            list,
            styles,
        )),
        0 <= i < list.children.len(),
        entry(list.children[i]),
        0 <= j < list.children[i].children.len(),
        list.children[i].children[j].is_element,
        list.children[i].children[j].name == "list"@,
        0 <= k < list.children[i].children[j].children.len(),
        text_entry(list.children[i].children[j].children[k], styles),
    ensures
        ({
            let inner = list.children[i].children[j];
            list_nodes(list, styles, depth, level, outer, continued).0.contains(
                entry_block(
                    item_text(inner.children[k], styles),
                    depth + 1,
                    has_numbers(
                        styles,
                        inner,
                        level + 1,
                        has_numbers(styles, list, level, outer),
                    ),
                    first_number(styles, inner, level + 1) + entries_in(
                        inner.children.take(k),
                        styles,
                    ),
                ),
            )
        }),
{
    let inner = list.children[i].children[j];
    let marks = has_numbers(styles, list, level, outer);
    law_items_have_their_numbers(inner, styles, depth + 1, level + 1, marks, k);
    let block = entry_block(
        item_text(inner.children[k], styles),
        depth + 1,
        has_numbers(styles, inner, level + 1, marks),
        first_number(styles, inner, level + 1) + entries_in(inner.children.take(k), styles),
    );
    lemma_says(styles, list, level, outer);
    lemma_has_text(list, styles);
    lemma_nested_has(
        list.children[i].children,
        j,
        styles,
        depth + 1,
        level + 1,
        marks,
        block,
    );
    if continued is Some && continued->0.has_last && opens_empty(list, styles) {
        lemma_opens_empty(list, styles);
    }
    let goes_on = continued matches Some(c) && c.has_last && opens_with_nested(list, styles);
    let numbered = if goes_on {
        continued->0.enumerated
    } else {
        marks
    };
    let counter = if goes_on {
        continued->0.counter
    } else {
        start_of(styles, list, level) - 1
    };
    lemma_items_have(
        list.children,
        i,
        styles,
        depth,
        level,
        numbered,
        marks,
        counter,
        goes_on,
        block,
    );
}

/// In a list without text of its own, the items with text of a list inside one of its items are at
/// the outer list's depth, with the marks that the inner list's style declares for the next level,
/// and with those of the outer list where it declares none.
pub proof fn law_lists_without_text_add_no_depth(
    list: XmlView,
    styles: StylesView,
    depth: int,
    level: int,
    outer: bool,
    i: int,
    j: int,
    k: int,
)
    requires
        !has_text_entry(list, styles),
        0 <= i < list.children.len(),
        entry(list.children[i]),
        0 <= j < list.children[i].children.len(),
        list.children[i].children[j].is_element,
        list.children[i].children[j].name == "list"@,
        0 <= k < list.children[i].children[j].children.len(),
        text_entry(list.children[i].children[j].children[k], styles),
    ensures
        ({
            let inner = list.children[i].children[j];
            list_nodes(list, styles, depth, level, outer, None).0.contains(
                entry_block(
                    item_text(inner.children[k], styles),
                    depth,
                    has_numbers(
                        styles,
                        inner,
                        level + 1,
                        has_numbers(styles, list, level, outer),
                    ),
                    first_number(styles, inner, level + 1) + entries_in(
                        inner.children.take(k),
                        styles,
                    ),
                ),
            )
        }),
{
    let inner = list.children[i].children[j];
    let marks = has_numbers(styles, list, level, outer);
    law_items_have_their_numbers(inner, styles, depth, level + 1, marks, k);
    let block = entry_block(
        item_text(inner.children[k], styles),
        depth,
        has_numbers(styles, inner, level + 1, marks),
        first_number(styles, inner, level + 1) + entries_in(inner.children.take(k), styles),
    );
    lemma_says(styles, list, level, outer);
    lemma_has_text(list, styles);
    lemma_nested_has(list.children[i].children, j, styles, depth, level + 1, marks, block);
    lemma_transparent_has(list.children, i, styles, depth, level + 1, marks, block);
    law_lists_without_text_are_transparent(list, styles, depth, level, outer);
}

// ---------------------------------------------------------------- one more node

/// A further node at the end of a list with text of its own adds, where it is an item, the item's
/// block where the item has text, with the next number, and behind it the blocks of the lists
/// inside it, one deeper and at the next level. Any other node adds nothing.
pub proof fn law_a_further_item_follows(
    list: XmlView,
    n: XmlView,
    styles: StylesView,
    depth: int,
    level: int,
    outer: bool,
)
    requires
        has_text_entry(list, styles),
    ensures
        ({
            let more = XmlView { children: list.children.push(n), ..list };
            let numbers = has_numbers(styles, list, level, outer);
            let number = first_number(styles, list, level) + entries_in(list.children, styles);
            let own = if text_entry(n, styles) {
                seq![entry_block(item_text(n, styles), depth, numbers, number)]
            } else {
                Seq::empty()
            };
            let inner = if entry(n) {
                lists_among(n.children, styles, depth + 1, level + 1, numbers)
            } else {
                Seq::empty()
            };
            list_nodes(more, styles, depth, level, outer, None).0 == list_nodes(
                list,
                styles,
                depth,
                level,
                outer,
                None,
            ).0 + own + inner
        }),
{
    let more = XmlView { children: list.children.push(n), ..list };
    let numbers = has_numbers(styles, list, level, outer);
    assert(more.children.drop_last() =~= list.children);
    let i = choose|i: int|
        0 <= i < list.children.len() && text_entry(#[trigger] list.children[i], styles);
    assert(more.children[i] == list.children[i]);
    assert(has_text_entry(more, styles));
    lemma_has_text(list, styles);
    lemma_has_text(more, styles);
    lemma_says(styles, list, level, outer);
    lemma_says(styles, more, level, outer);
    assert(says(styles, more, level) == says(styles, list, level));
    lemma_entries(list.children, styles);
    lemma_lists_among(n.children, styles, depth + 1, level + 1, numbers);
    lemma_counter(
        list.children,
        styles,
        depth,
        level,
        numbers,
        numbers,
        first_number(styles, list, level) - 1,
        false,
    );
    let before = list_nodes(list, styles, depth, level, outer, None).0;
    let after = list_nodes(more, styles, depth, level, outer, None).0;
    let own = if text_entry(n, styles) {
        seq![
            entry_block(
                item_text(n, styles),
                depth,
                numbers,
                first_number(styles, list, level) + entries_in(list.children, styles),
            ),
        ]
    } else {
        Seq::empty()
    };
    let inner = if entry(n) {
        lists_among(n.children, styles, depth + 1, level + 1, numbers)
    } else {
        Seq::empty()
    };
    assert(after =~= before + own + inner);
}

/// A further node without text of its own at the end of a list that has none either adds, where it
/// is an item, the blocks of the lists inside it, at the list's depth and at the next level. Any
/// other node adds nothing. A list without children becomes nothing.
pub proof fn law_a_further_item_without_text_follows(
    list: XmlView,
    n: XmlView,
    styles: StylesView,
    depth: int,
    level: int,
    outer: bool,
)
    requires
        !has_text_entry(list, styles),
        !text_entry(n, styles),
    ensures
        ({
            let more = XmlView { children: list.children.push(n), ..list };
            let numbers = has_numbers(styles, list, level, outer);
            &&& list.children.len() == 0 ==> list_nodes(
                list,
                styles,
                depth,
                level,
                outer,
                None,
            ).0.len() == 0
            &&& list_nodes(more, styles, depth, level, outer, None).0 == list_nodes(
                list,
                styles,
                depth,
                level,
                outer,
                None,
            ).0 + (if entry(n) {
                lists_among(n.children, styles, depth, level + 1, numbers)
            } else {
                Seq::empty()
            })
        }),
{
    let more = XmlView { children: list.children.push(n), ..list };
    let numbers = has_numbers(styles, list, level, outer);
    assert(more.children.drop_last() =~= list.children);
    if has_text_entry(more, styles) {
        let i = choose|i: int|
            0 <= i < more.children.len() && text_entry(#[trigger] more.children[i], styles);
        assert(i < list.children.len());
        assert(text_entry(list.children[i], styles));
    }
    lemma_has_text(list, styles);
    lemma_has_text(more, styles);
    lemma_says(styles, list, level, outer);
    lemma_says(styles, more, level, outer);
    lemma_lists_among(n.children, styles, depth, level + 1, numbers);
    law_lists_without_text_are_transparent(list, styles, depth, level, outer);
    law_lists_without_text_are_transparent(more, styles, depth, level, outer);
    assert(list_nodes(more, styles, depth, level, outer, None).0 =~= list_nodes(
        list,
        styles,
        depth,
        level,
        outer,
        None,
    ).0 + (if entry(n) {
        lists_among(n.children, styles, depth, level + 1, numbers)
    } else {
        Seq::empty()
    }));
}

// ---------------------------------------------------------------- going on

/// A list that has text of its own says where it stopped: with its own marks, its first number and
/// one more for each item but the first. A list without text says nothing.
pub proof fn law_lists_say_where_they_stop(
    list: XmlView,
    styles: StylesView,
    depth: int,
    level: int,
    outer: bool,
)
    ensures
        list_nodes(list, styles, depth, level, outer, None).1 == (if has_text_entry(list, styles) {
            Some(
                ContView {
                    enumerated: has_numbers(styles, list, level, outer),
                    counter: first_number(styles, list, level) + entries_in(list.children, styles)
                        - 1,
                    has_last: true,
                },
            )
        } else {
            None
        }),
{
    lemma_has_text(list, styles);
    lemma_says(styles, list, level, outer);
    lemma_entries(list.children, styles);
    let numbers = has_numbers(styles, list, level, outer);
    lemma_counter(
        list.children,
        styles,
        depth,
        level,
        numbers,
        numbers,
        first_number(styles, list, level) - 1,
        false,
    );
    if has_text_entry(list, styles) {
        let i = choose|i: int|
            0 <= i < list.children.len() && text_entry(#[trigger] list.children[i], styles);
        lemma_some_entry(list.children, i, styles);
    } else {
        law_lists_without_text_are_transparent(list, styles, depth, level, outer);
    }
}

proof fn lemma_some_entry(nodes: Seq<XmlView>, i: int, styles: StylesView)
    requires
        0 <= i < nodes.len(),
        text_entry(nodes[i], styles),
    ensures
        entries_in(nodes, styles) > 0,
    decreases nodes.len(),
{
    lemma_no_fewer(nodes.drop_last(), styles);
    if i < nodes.len() - 1 {
        lemma_some_entry(nodes.drop_last(), i, styles);
    }
}

proof fn lemma_no_fewer(nodes: Seq<XmlView>, styles: StylesView)
    ensures
        entries_in(nodes, styles) >= 0,
    decreases nodes.len(),
{
    if nodes.len() > 0 {
        lemma_no_fewer(nodes.drop_last(), styles);
    }
}

/// A list that opens with an item without text around a list, right behind a list with items, goes
/// on: each of its items with text has the number of the last item before it and one more for each
/// item of this list up to it, and the marks of the list before.
pub proof fn law_lists_that_open_empty_go_on(
    list: XmlView,
    styles: StylesView,
    depth: int,
    level: int,
    outer: bool,
    stopped: ContView,
    i: int,
)
    requires
        stopped.has_last,
        opens_empty(list, styles),
        0 <= i < list.children.len(),
        text_entry(list.children[i], styles),
    ensures
        ({
            let (nodes, stops) = list_nodes(list, styles, depth, level, outer, Some(stopped));
            &&& nodes.contains(
                entry_block(
                    item_text(list.children[i], styles),
                    depth,
                    stopped.enumerated,
                    stopped.counter + 1 + entries_in(list.children.take(i), styles),
                ),
            )
            &&& stops == Some(
                ContView {
                    enumerated: stopped.enumerated,
                    counter: stopped.counter + entries_in(list.children, styles),
                    has_last: true,
                },
            )
        }),
{
    lemma_opens_empty(list, styles);
    law_numbers_go_on(list, styles, depth, level, outer, stopped, i);
    lemma_entries(list.children.take(i), styles);
    lemma_entries(list.children, styles);
}

/// A list that does not open so starts anew, whatever stands before it; so does any list behind one
/// without items.
pub proof fn law_other_lists_start_anew(
    list: XmlView,
    styles: StylesView,
    depth: int,
    level: int,
    outer: bool,
    stopped: ContView,
)
    requires
        !stopped.has_last || !opens_empty(list, styles),
    ensures
        list_nodes(list, styles, depth, level, outer, Some(stopped)) == list_nodes(
            list,
            styles,
            depth,
            level,
            outer,
            None,
        ),
{
    if opens_with_nested(list, styles) {
        lemma_opens_with_nested(list, styles);
    }
}

// ---------------------------------------------------------------- the text of an item

proof fn lemma_kept_nonempty(parts: Seq<Seq<char>>)
    ensures
        forall|k: int| 0 <= k < nonempty(parts).len() ==> (#[trigger] nonempty(parts)[k]).len() > 0,
    decreases parts.len(),
{
    if parts.len() > 0 {
        lemma_kept_nonempty(parts.drop_last());
        let before = nonempty(parts.drop_last());
        assert forall|k: int| 0 <= k < nonempty(parts).len() implies (
        #[trigger] nonempty(parts)[k]).len() > 0 by {
            if k < before.len() {
                assert(nonempty(parts)[k] == before[k]);
            }
        }
    }
}

/// An item without children has no text. A further child that is a paragraph or a heading with
/// text adds that text on the same line, behind a space where there is text before it. Any other
/// child adds nothing, and a list among the children adds none either.
pub proof fn law_item_text_is_its_paragraphs(item: XmlView, child: XmlView, styles: StylesView)
    ensures
        item.children.len() == 0 ==> item_text(item, styles).len() == 0,
        ({
            let more = XmlView { children: item.children.push(child), ..item };
            let line = joined(tidy_lines(markdown_of(child, styles)), " "@);
            item_text(more, styles) == (if child.is_element && (child.name == "p"@ || child.name
                == "h"@) && line.len() > 0 {
                if item_text(item, styles).len() == 0 {
                    line
                } else {
                    item_text(item, styles).push(' ') + line
                }
            } else {
                item_text(item, styles)
            })
        }),
{
    let more = XmlView { children: item.children.push(child), ..item };
    let line = joined(tidy_lines(markdown_of(child, styles)), " "@);
    assert(more.children.drop_last() =~= item.children);
    let lines = line_texts(item.children, styles);
    let before = nonempty(lines);
    assert(lines.push(line).drop_last() =~= lines);
    lemma_kept_nonempty(lines);
    reveal_strlit(" ");
    assert(" "@ =~= seq![' ']);
    if before.len() > 0 {
        assert(before[before.len() - 1].len() > 0);
        assert(joined(before, " "@).len() > 0);
    }
    assert(before.push(line).drop_last() =~= before);
    assert(joined(before, " "@) + " "@ + line =~= joined(before, " "@).push(' ') + line);
}

} // verus!
