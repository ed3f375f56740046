//! Laws of lists: what every list shows, how deep and under which numbers.

use vstd::prelude::*;

use crate::blocks::{block_nodes, sibling_nodes};
use crate::document::NodeView;
use crate::lists::{
    all_hold, enumerated, has_direct_text, is_item, item_block, item_nodes, item_renders,
    item_text, lemma_list_shows, lemma_nothing_inside, list_nodes, nested_nodes,
    opens_with_nested, renderable, start_of, transparent_nodes, ContView,
};
use crate::styles::StylesView;
use crate::xml::XmlView;

verus! {

// ---------------------------------------------------------------- depth

/// The property that a block is a list item at `depth` or deeper.
pub open spec fn at_least(depth: int) -> spec_fn(NodeView) -> bool {
    |n: NodeView| n matches NodeView::ListItem { depth: d, .. } && d >= depth
}

proof fn lemma_deep_add(a: Seq<NodeView>, b: Seq<NodeView>, depth: int)
    requires
        all_hold(a, at_least(depth)),
        all_hold(b, at_least(depth)),
    ensures
        all_hold(a + b, at_least(depth)),
{
    assert forall|k: int| 0 <= k < (a + b).len() implies at_least(depth)(#[trigger] (a + b)[k]) by {
        if k < a.len() {
            assert(at_least(depth)(a[k]));
        } else {
            assert(at_least(depth)(b[k - a.len()]));
        }
    }
}

proof fn lemma_deeper_is_deep(nodes: Seq<NodeView>, depth: int)
    requires
        all_hold(nodes, at_least(depth + 1)),
    ensures
        all_hold(nodes, at_least(depth)),
{
    assert forall|k: int| 0 <= k < nodes.len() implies at_least(depth)(#[trigger] nodes[k]) by {
        assert(at_least(depth + 1)(nodes[k]));
    }
}

proof fn lemma_nested_depth(
    nodes: Seq<XmlView>,
    styles: StylesView,
    depth: int,
    level: int,
    fallback: bool,
)
    ensures
        all_hold(nested_nodes(nodes, styles, depth, level, fallback), at_least(depth)),
    decreases nodes, 0nat,
{
    if nodes.len() > 0 {
        lemma_nested_depth(nodes.drop_last(), styles, depth, level, fallback);
        law_items_are_as_deep(nodes.last(), styles, depth, level, fallback, None);
        lemma_deep_add(
            nested_nodes(nodes.drop_last(), styles, depth, level, fallback),
            list_nodes(nodes.last(), styles, depth, level, fallback, None).0,
            depth,
        );
    }
}

proof fn lemma_transparent_depth(
    nodes: Seq<XmlView>,
    styles: StylesView,
    depth: int,
    level: int,
    fallback: bool,
)
    ensures
        all_hold(transparent_nodes(nodes, styles, depth, level, fallback), at_least(depth)),
    decreases nodes, 0nat,
{
    if nodes.len() > 0 {
        lemma_transparent_depth(nodes.drop_last(), styles, depth, level, fallback);
        lemma_nested_depth(nodes.last().children, styles, depth, level, fallback);
        lemma_deep_add(
            transparent_nodes(nodes.drop_last(), styles, depth, level, fallback),
            nested_nodes(nodes.last().children, styles, depth, level, fallback),
            depth,
        );
    }
}

proof fn lemma_items_depth(
    nodes: Seq<XmlView>,
    styles: StylesView,
    depth: int,
    level: int,
    numbered: bool,
    style_enum: bool,
    counter: int,
    has_last: bool,
)
    ensures
        all_hold(
            item_nodes(
                nodes,
                styles,
                depth,
                level,
                numbered,
                style_enum,
                counter,
                has_last,
            ).nodes,
            at_least(depth),
        ),
    decreases nodes, 0nat,
{
    if nodes.len() > 0 {
        lemma_items_depth(
            nodes.drop_last(),
            styles,
            depth,
            level,
            numbered,
            style_enum,
            counter,
            has_last,
        );
        let before = item_nodes(
            nodes.drop_last(),
            styles,
            depth,
            level,
            numbered,
            style_enum,
            counter,
            has_last,
        );
        let item = nodes.last();
        let inner = nested_nodes(item.children, styles, depth + 1, level + 1, style_enum);
        lemma_nested_depth(item.children, styles, depth + 1, level + 1, style_enum);
        lemma_deeper_is_deep(inner, depth);
        lemma_deep_add(before.nodes, inner, depth);
        let block = item_block(item_text(item, styles), depth, numbered, before.counter + 1);
        let one = seq![block];
        assert(all_hold(one, at_least(depth))) by {
            assert(at_least(depth)(block));
        }
        lemma_deep_add(before.nodes, one, depth);
        assert(before.nodes + one =~= before.nodes.push(block));
        lemma_deep_add(before.nodes.push(block), inner, depth);
    }
}

/// Everything that a list becomes is a list item, at the list's depth or deeper.
pub proof fn law_items_are_as_deep(
    list: XmlView,
    styles: StylesView,
    depth: int,
    level: int,
    fallback: bool,
    continued: Option<ContView>,
)
    ensures
        all_hold(
            list_nodes(list, styles, depth, level, fallback, continued).0,
            at_least(depth),
        ),
    decreases list, 1nat,
{
    let style_enum = enumerated(styles, list, level, fallback);
    lemma_transparent_depth(list.children, styles, depth, level + 1, style_enum);
    let goes_on = continued matches Some(c) && c.has_last && opens_with_nested(list, styles);
    let numbered = if goes_on {
        continued->0.enumerated
    } else {
        style_enum
    };
    let counter = if goes_on {
        continued->0.counter
    } else {
        start_of(styles, list, level) - 1
    };
    lemma_items_depth(
        list.children,
        styles,
        depth,
        level,
        numbered,
        style_enum,
        counter,
        goes_on,
    );
}

// ---------------------------------------------------------------- what is shown

/// A list becomes something exactly where an item in it, at any depth, has text.
pub proof fn law_lists_with_text_are_shown(
    list: XmlView,
    styles: StylesView,
    depth: int,
    level: int,
    fallback: bool,
    continued: Option<ContView>,
)
    ensures
        list_nodes(list, styles, depth, level, fallback, continued).0.len() > 0 <==> renderable(
            list,
            styles,
        ),
{
    if renderable(list, styles) {
        lemma_list_shows(list, styles, depth, level, fallback, continued);
    }
}

// ---------------------------------------------------------------- numbers

/// How many of the given nodes are items with text of their own.
pub open spec fn text_items(nodes: Seq<XmlView>, styles: StylesView) -> int
    decreases nodes.len(),
{
    if nodes.len() == 0 {
        0
    } else if is_item(nodes.last()) && item_text(nodes.last(), styles).len() > 0 {
        text_items(nodes.drop_last(), styles) + 1
    } else {
        text_items(nodes.drop_last(), styles)
    }
}

pub proof fn lemma_counter(
    nodes: Seq<XmlView>,
    styles: StylesView,
    depth: int,
    level: int,
    numbered: bool,
    style_enum: bool,
    counter: int,
    has_last: bool,
)
    ensures
        ({
            let items = item_nodes(
                nodes,
                styles,
                depth,
                level,
                numbered,
                style_enum,
                counter,
                has_last,
            );
            &&& items.counter == counter + text_items(nodes, styles)
            &&& items.has_last == (has_last || text_items(nodes, styles) > 0)
            &&& text_items(nodes, styles) >= 0
        }),
    decreases nodes.len(),
{
    if nodes.len() > 0 {
        lemma_counter(
            nodes.drop_last(),
            styles,
            depth,
            level,
            numbered,
            style_enum,
            counter,
            has_last,
        );
    }
}

proof fn lemma_item_place(
    nodes: Seq<XmlView>,
    n: int,
    i: int,
    styles: StylesView,
    depth: int,
    level: int,
    numbered: bool,
    style_enum: bool,
    counter: int,
    has_last: bool,
)
    requires
        0 <= i < n <= nodes.len(),
        is_item(nodes[i]),
        item_text(nodes[i], styles).len() > 0,
    ensures
        ({
            let before = item_nodes(
                nodes.take(i),
                styles,
                depth,
                level,
                numbered,
                style_enum,
                counter,
                has_last,
            );
            let after = item_nodes(
                nodes.take(n),
                styles,
                depth,
                level,
                numbered,
                style_enum,
                counter,
                has_last,
            );
            &&& before.nodes.len() < after.nodes.len()
            &&& after.nodes[before.nodes.len() as int] == item_block(
                item_text(nodes[i], styles),
                depth,
                numbered,
                before.counter + 1,
            )
        }),
    decreases n,
{
    assert(nodes.take(n).drop_last() =~= nodes.take(n - 1));
    assert(nodes.take(n).last() == nodes[n - 1]);
    if i < n - 1 {
        lemma_item_place(
            nodes,
            n - 1,
            i,
            styles,
            depth,
            level,
            numbered,
            style_enum,
            counter,
            has_last,
        );
    }
}

/// The items of a list that have text are numbered one after another: the one at `i` has as its
/// number the list's first number and one more for each item with text before it. The list's own
/// style says where it starts, and whether its numbers are shown.
pub proof fn law_items_count_up(
    list: XmlView,
    styles: StylesView,
    depth: int,
    level: int,
    fallback: bool,
    i: int,
)
    requires
        0 <= i < list.children.len(),
        is_item(list.children[i]),
        item_text(list.children[i], styles).len() > 0,
    ensures
        ({
            let nodes = list_nodes(list, styles, depth, level, fallback, None).0;
            let number = start_of(styles, list, level) + text_items(list.children.take(i), styles);
            exists|k: int|
                0 <= k < nodes.len() && #[trigger] nodes[k] == item_block(
                    item_text(list.children[i], styles),
                    depth,
                    enumerated(styles, list, level, fallback),
                    number,
                )
        }),
{
    let style_enum = enumerated(styles, list, level, fallback);
    let counter = start_of(styles, list, level) - 1;
    let all = list.children;
    lemma_item_place(
        all,
        all.len() as int,
        i,
        styles,
        depth,
        level,
        style_enum,
        style_enum,
        counter,
        false,
    );
    lemma_counter(
        all.take(i),
        styles,
        depth,
        level,
        style_enum,
        style_enum,
        counter,
        false,
    );
    assert(all.take(all.len() as int) =~= all);
    assert(has_direct_text(list, styles));
    assert(item_renders(list.children[i], styles));
    let before = item_nodes(
        all.take(i),
        styles,
        depth,
        level,
        style_enum,
        style_enum,
        counter,
        false,
    );
    let nodes = list_nodes(list, styles, depth, level, fallback, None).0;
    assert(nodes[before.nodes.len() as int] == item_block(
        item_text(list.children[i], styles),
        depth,
        style_enum,
        start_of(styles, list, level) + text_items(all.take(i), styles),
    ));
}

/// A list that opens with an item around a list, right behind a list with items, goes on counting
/// where that one stopped, and with its kind of marks.
pub proof fn law_numbers_go_on(
    list: XmlView,
    styles: StylesView,
    depth: int,
    level: int,
    fallback: bool,
    stopped: ContView,
    i: int,
)
    requires
        stopped.has_last,
        opens_with_nested(list, styles),
        renderable(list, styles),
        0 <= i < list.children.len(),
        is_item(list.children[i]),
        item_text(list.children[i], styles).len() > 0,
    ensures
        ({
            let (nodes, cont) = list_nodes(list, styles, depth, level, fallback, Some(stopped));
            let number = stopped.counter + 1 + text_items(list.children.take(i), styles);
            &&& exists|k: int|
                0 <= k < nodes.len() && #[trigger] nodes[k] == item_block(
                    item_text(list.children[i], styles),
                    depth,
                    stopped.enumerated,
                    number,
                )
            &&& cont == Some(
                ContView {
                    enumerated: stopped.enumerated,
                    counter: stopped.counter + text_items(list.children, styles),
                    has_last: true,
                },
            )
        }),
{
    let style_enum = enumerated(styles, list, level, fallback);
    let all = list.children;
    lemma_item_place(
        all,
        all.len() as int,
        i,
        styles,
        depth,
        level,
        stopped.enumerated,
        style_enum,
        stopped.counter,
        true,
    );
    lemma_counter(
        all.take(i),
        styles,
        depth,
        level,
        stopped.enumerated,
        style_enum,
        stopped.counter,
        true,
    );
    lemma_counter(
        all,
        styles,
        depth,
        level,
        stopped.enumerated,
        style_enum,
        stopped.counter,
        true,
    );
    assert(all.take(all.len() as int) =~= all);
    let before = item_nodes(
        all.take(i),
        styles,
        depth,
        level,
        stopped.enumerated,
        style_enum,
        stopped.counter,
        true,
    );
    let nodes = list_nodes(list, styles, depth, level, fallback, Some(stopped)).0;
    assert(nodes[before.nodes.len() as int] == item_block(
        item_text(list.children[i], styles),
        depth,
        stopped.enumerated,
        stopped.counter + 1 + text_items(all.take(i), styles),
    ));
}

/// A list without text of its own that does not go on with another one is transparent: the lists
/// in its items take its place, at its depth.
pub proof fn law_lists_without_text_are_transparent(
    list: XmlView,
    styles: StylesView,
    depth: int,
    level: int,
    fallback: bool,
)
    requires
        !has_direct_text(list, styles),
    ensures
        list_nodes(list, styles, depth, level, fallback, None) == (
            transparent_nodes(
                list.children,
                styles,
                depth,
                level + 1,
                enumerated(styles, list, level, fallback),
            ),
            None::<ContView>,
        ),
{
    let style_enum = enumerated(styles, list, level, fallback);
    if !renderable(list, styles) {
        lemma_nothing_transparent(
            list,
            list.children.len() as int,
            styles,
            depth,
            level + 1,
            style_enum,
        );
        assert(list.children.take(list.children.len() as int) =~= list.children);
    }
}

proof fn lemma_nothing_transparent(
    list: XmlView,
    k: int,
    styles: StylesView,
    depth: int,
    level: int,
    fallback: bool,
)
    requires
        !renderable(list, styles),
        0 <= k <= list.children.len(),
    ensures
        transparent_nodes(list.children.take(k), styles, depth, level, fallback) == Seq::<
            NodeView,
        >::empty(),
    decreases k,
{
    if k > 0 {
        lemma_nothing_transparent(list, k - 1, styles, depth, level, fallback);
        let head = list.children.take(k);
        assert(head.drop_last() =~= list.children.take(k - 1));
        let item = list.children[k - 1];
        assert(head.last() == item);
        assert(!item_renders(list.children[k - 1], styles));
        if is_item(item) {
            lemma_nothing_inside(
                item,
                item.children.len() as int,
                styles,
                depth,
                level,
                fallback,
            );
            assert(item.children.take(item.children.len() as int) =~= item.children);
        }
        assert(transparent_nodes(head, styles, depth, level, fallback) =~= Seq::<
            NodeView,
        >::empty());
    }
}

// ---------------------------------------------------------------- lists among other blocks

/// Behind an element that is no list, a list starts anew.
pub proof fn law_other_blocks_end_a_list(
    nodes: Seq<XmlView>,
    el: XmlView,
    list: XmlView,
    styles: StylesView,
)
    requires
        el.is_element,
        el.name != "list"@,
        list.is_element,
        list.name == "list"@,
    ensures
        sibling_nodes(nodes.push(el).push(list), styles).0 == sibling_nodes(nodes, styles).0
            + block_nodes(el, styles, 0) + list_nodes(list, styles, 0, 1, false, None).0,
{
    assert(nodes.push(el).push(list).drop_last() =~= nodes.push(el));
    assert(nodes.push(el).drop_last() =~= nodes);
    assert(sibling_nodes(nodes.push(el), styles).1 is None);
}

/// What is no element, such as the space between two lists, changes nothing.
pub proof fn law_space_between_blocks_is_nothing(
    nodes: Seq<XmlView>,
    space: XmlView,
    styles: StylesView,
)
    requires
        !space.is_element,
    ensures
        sibling_nodes(nodes.push(space), styles) == sibling_nodes(nodes, styles),
{
    assert(nodes.push(space).drop_last() =~= nodes);
}

} // verus!
