//! Laws of trees: which attribute and which element is found, and in which order nodes come.

use vstd::prelude::*;

use crate::xml::{all_nodes, all_nodes_of, attr_in, attr_of, first_tag, forest, ItemView, XmlView};

verus! {

/// The value of an attribute is that of the first attribute with the name, and an element without
/// such an attribute has none.
pub proof fn law_the_first_attribute_counts(n: XmlView, name: Seq<char>, at: int)
    requires
        0 <= at <= n.attrs.len(),
        forall|k: int| 0 <= k < at ==> (#[trigger] n.attrs[k]).0 != name,
        at < n.attrs.len() ==> n.attrs[at].0 == name,
    ensures
        attr_of(n, name) == (if at < n.attrs.len() {
            Some(n.attrs[at].1)
        } else {
            None
        }),
{
    lemma_attr_at(n.attrs, name, at);
}

proof fn lemma_attr_at(attrs: Seq<(Seq<char>, Seq<char>)>, name: Seq<char>, at: int)
    requires
        0 <= at <= attrs.len(),
        forall|k: int| 0 <= k < at ==> (#[trigger] attrs[k]).0 != name,
        at < attrs.len() ==> attrs[at].0 == name,
    ensures
        attr_in(attrs, name) == (if at < attrs.len() {
            Some(attrs[at].1)
        } else {
            None
        }),
    decreases at,
{
    if at > 0 {
        assert forall|k: int| 0 <= k < at - 1 implies (#[trigger] attrs.skip(1)[k]).0 != name by {
            assert(attrs[k + 1].0 != name);
        }
        assert(attrs[0].0 != name);
        lemma_attr_at(attrs.skip(1), name, at - 1);
    }
}

/// The first element with a name is found: at the index `at` where no node before it is one, and
/// nowhere where no node is one.
pub proof fn law_the_first_element_counts(nodes: Seq<XmlView>, name: Seq<char>, at: int)
    requires
        0 <= at <= nodes.len(),
        forall|k: int|
            0 <= k < at ==> !((#[trigger] nodes[k]).is_element && nodes[k].name == name),
        at < nodes.len() ==> nodes[at].is_element && nodes[at].name == name,
    ensures
        first_tag(nodes, name) == (if at < nodes.len() {
            Some(nodes[at])
        } else {
            None
        }),
    decreases at,
{
    if at > 0 {
        assert forall|k: int| 0 <= k < at - 1 implies !((#[trigger] nodes.skip(1)[k]).is_element
            && nodes.skip(1)[k].name == name) by {
            assert(!(nodes[k + 1].is_element && nodes[k + 1].name == name));
        }
        assert(!(nodes[0].is_element && nodes[0].name == name));
        law_the_first_element_counts(nodes.skip(1), name, at - 1);
    }
}

/// Everything from a node on down is the node and then everything below its children, one child
/// after the other.
pub proof fn law_nodes_come_in_document_order(n: XmlView, more: XmlView)
    ensures
        all_nodes_of(Seq::empty()).len() == 0,
        all_nodes(n)[0] == n,
        all_nodes(n).skip(1) == all_nodes_of(n.children),
        all_nodes_of(n.children.push(more)) == all_nodes_of(n.children) + all_nodes(more),
{
    assert(n.children.push(more).drop_last() =~= n.children);
    assert(all_nodes(n).skip(1) =~= all_nodes_of(n.children));
}

proof fn lemma_below_siblings(nodes: Seq<XmlView>, i: int, n: XmlView)
    requires
        0 <= i < nodes.len(),
        all_nodes(nodes[i]).contains(n),
    ensures
        all_nodes_of(nodes).contains(n),
    decreases nodes.len(),
{
    let all = all_nodes_of(nodes);
    let before = all_nodes_of(nodes.drop_last());
    if i < nodes.len() - 1 {
        lemma_below_siblings(nodes.drop_last(), i, n);
        let k = choose|k: int| 0 <= k < before.len() && before[k] == n;
        assert(all[k] == n);
    } else {
        let k = choose|k: int| 0 <= k < all_nodes(nodes[i]).len() && all_nodes(nodes[i])[k] == n;
        assert(all[before.len() + k] == n);
    }
}

/// A node is below itself, and what is below a child is below its parent.
pub proof fn law_children_are_below_their_parents(n: XmlView, i: int, deep: XmlView)
    ensures
        all_nodes(n).contains(n),
        0 <= i < n.children.len() && all_nodes(n.children[i]).contains(deep) ==> all_nodes(
            n,
        ).contains(deep),
        0 <= i < n.children.len() && all_nodes(n.children[i]).contains(deep) ==> all_nodes_of(
            n.children,
        ).contains(deep),
{
    assert(all_nodes(n)[0] == n);
    if 0 <= i < n.children.len() && all_nodes(n.children[i]).contains(deep) {
        lemma_below_siblings(n.children, i, deep);
        let below = all_nodes_of(n.children);
        let k = choose|k: int| 0 <= k < below.len() && below[k] == deep;
        assert(all_nodes(n)[k + 1] == deep);
    }
}

/// A listed node stands for itself with the nodes below it, which are listed right behind it, and
/// what is listed behind those stands beside it.
pub proof fn law_listed_nodes_hold_what_is_below_them(
    item: ItemView,
    below: Seq<ItemView>,
    after: Seq<ItemView>,
)
    requires
        item.size == 1 + below.len(),
    ensures
        forest(Seq::empty()).len() == 0,
        ({
            let trees = forest(seq![item] + below + after);
            &&& trees.len() == 1 + forest(after).len()
            &&& trees.skip(1) == forest(after)
            &&& trees[0].children == forest(below)
            &&& trees[0].is_element == item.is_element
            &&& trees[0].is_text == item.is_text
            &&& trees[0].name == item.name
            &&& trees[0].attrs == item.attrs
            &&& trees[0].text == item.text
        }),
{
    let all = seq![item] + below + after;
    assert(all[0] == item);
    assert(all.subrange(1, item.size) =~= below);
    assert(all.skip(item.size) =~= after);
    assert(forest(all).skip(1) =~= forest(after));
}

} // verus!
