//! XML trees: elements, text and the rest, with local names and attribute values.

use vstd::prelude::*;

use crate::text::{same_text, str_of, text_of};

verus! {

/// One attribute: its local name and its value.
pub struct Attr {
    pub name: String,
    pub value: String,
}

/// A node of an XML tree.
///
/// Names are local names: the namespace prefix is gone. A node that is neither an element nor
/// text is a comment, a processing instruction or the root of a document. An element has as its
/// text the text node that it begins with.
pub struct XmlNode {
    pub is_element: bool,
    pub is_text: bool,
    pub name: String,
    pub attrs: Vec<Attr>,
    pub text: Option<String>,
    pub children: Vec<XmlNode>,
}

/// A parsed document: its top-level nodes.
pub struct XmlDocument {
    pub nodes: Vec<XmlNode>,
}

/// One node of a document listed in document order, with the number of nodes in the tree from it on
/// down, itself counted, in place of its children.
pub struct XmlItem {
    pub size: usize,
    pub is_element: bool,
    pub is_text: bool,
    pub name: String,
    pub attrs: Vec<Attr>,
    pub text: Option<String>,
}

/// The mathematical form of [`XmlNode`].
#[verifier::ext_equal]
pub struct XmlView {
    pub is_element: bool,
    pub is_text: bool,
    pub name: Seq<char>,
    pub attrs: Seq<(Seq<char>, Seq<char>)>,
    pub text: Option<Seq<char>>,
    pub children: Seq<XmlView>,
}

/// The mathematical form of [`XmlItem`].
#[verifier::ext_equal]
pub struct ItemView {
    pub size: int,
    pub is_element: bool,
    pub is_text: bool,
    pub name: Seq<char>,
    pub attrs: Seq<(Seq<char>, Seq<char>)>,
    pub text: Option<Seq<char>>,
}

/// The contents of a list of attributes: names with values.
pub open spec fn attrs_view(attrs: Seq<Attr>) -> Seq<(Seq<char>, Seq<char>)> {
    attrs.map_values(|a: Attr| (a.name@, a.value@))
}

impl View for XmlNode {
    type V = XmlView;

    open spec fn view(&self) -> XmlView
        decreases self,
    {
        XmlView {
            is_element: self.is_element,
            is_text: self.is_text,
            name: self.name@,
            attrs: attrs_view(self.attrs@),
            text: text_of(self.text),
            children: Seq::new(
                self.children@.len(),
                |i: int|
                    if 0 <= i < self.children@.len() {
                        self.children@[i].view()
                    } else {
                        arbitrary()
                    },
            ),
        }
    }
}

impl View for XmlItem {
    type V = ItemView;

    open spec fn view(&self) -> ItemView {
        ItemView {
            size: self.size as int,
            is_element: self.is_element,
            is_text: self.is_text,
            name: self.name@,
            attrs: attrs_view(self.attrs@),
            text: text_of(self.text),
        }
    }
}

/// The mathematical forms of a list of nodes.
pub open spec fn nodes_view(nodes: Seq<XmlNode>) -> Seq<XmlView> {
    nodes.map_values(|n: XmlNode| n@)
}

/// The mathematical forms of a list of references to nodes.
pub open spec fn refs_view(nodes: Seq<&XmlNode>) -> Seq<XmlView> {
    nodes.map_values(|n: &XmlNode| n@)
}

/// The mathematical forms of a list of items.
pub open spec fn items_view(items: Seq<XmlItem>) -> Seq<ItemView> {
    items.map_values(|i: XmlItem| i@)
}

impl View for XmlDocument {
    type V = Seq<XmlView>;

    open spec fn view(&self) -> Seq<XmlView> {
        nodes_view(self.nodes@)
    }
}

/// The children of a node in their mathematical form.
pub broadcast proof fn lemma_children_view(n: &XmlNode)
    ensures
        #[trigger] n@.children == nodes_view(n.children@),
{
    reveal_with_fuel(<XmlNode as View>::view, 2);
    assert(n@.children =~= nodes_view(n.children@));
}

/// Whether a node is an element with the given local name.
pub open spec fn is_tag(n: XmlView, name: Seq<char>) -> bool {
    n.is_element && n.name == name
}

/// The value of the first attribute with the given local name.
pub open spec fn attr_in(attrs: Seq<(Seq<char>, Seq<char>)>, name: Seq<char>) -> Option<Seq<char>>
    decreases attrs.len(),
{
    if attrs.len() == 0 {
        None
    } else if attrs[0].0 == name {
        Some(attrs[0].1)
    } else {
        attr_in(attrs.skip(1), name)
    }
}

/// The value of a node's first attribute with the given local name.
pub open spec fn attr_of(n: XmlView, name: Seq<char>) -> Option<Seq<char>> {
    attr_in(n.attrs, name)
}

/// A node and everything below it, in document order.
pub open spec fn all_nodes(n: XmlView) -> Seq<XmlView>
    decreases n,
{
    seq![n] + all_nodes_of(n.children)
}

/// The given siblings and everything below them, in document order.
pub open spec fn all_nodes_of(nodes: Seq<XmlView>) -> Seq<XmlView>
    decreases nodes,
{
    if nodes.len() == 0 {
        Seq::empty()
    } else {
        all_nodes_of(nodes.drop_last()) + all_nodes(nodes.last())
    }
}

/// The first node of a list that is an element with the given local name.
pub open spec fn first_tag(nodes: Seq<XmlView>, name: Seq<char>) -> Option<XmlView>
    decreases nodes.len(),
{
    if nodes.len() == 0 {
        None
    } else if is_tag(nodes[0], name) {
        Some(nodes[0])
    } else {
        first_tag(nodes.skip(1), name)
    }
}

/// The node that an item stands for, with the given children.
pub open spec fn node_of(item: ItemView, children: Seq<XmlView>) -> XmlView {
    XmlView {
        is_element: item.is_element,
        is_text: item.is_text,
        name: item.name,
        attrs: item.attrs,
        text: item.text,
        children,
    }
}

/// Whether a listing in document order is one of trees: the nodes below a node stand right behind
/// it, and its size counts them.
pub open spec fn well_sized(items: Seq<ItemView>) -> bool
    decreases items.len(),
{
    items.len() > 0 ==> {
        &&& 1 <= items[0].size <= items.len()
        &&& well_sized(items.subrange(1, items[0].size))
        &&& well_sized(items.skip(items[0].size))
    }
}

/// The trees that a listing in document order stands for: a node's size tells how many of the items
/// right behind it are below it.
pub open spec fn forest(items: Seq<ItemView>) -> Seq<XmlView>
    decreases items.len(),
{
    if items.len() == 0 || !(1 <= items[0].size <= items.len()) {
        Seq::empty()
    } else {
        let size = items[0].size;
        seq![node_of(items[0], forest(items.subrange(1, size)))] + forest(items.skip(size))
    }
}

impl XmlNode {
    /// Whether the node is an element with the given local name.
    pub fn has_tag_name(&self, name: &str) -> (yes: bool)
        ensures
            yes == is_tag(self@, name@),
    {
        self.is_element && same_text(self.name.as_str(), name)
    }

    /// The node and everything below it, in document order.
    pub fn descendants(&self) -> (nodes: Vec<&XmlNode>)
        ensures
            refs_view(nodes@) == all_nodes(self@),
    {
        let mut out: Vec<&XmlNode> = Vec::new();
        out.push(self);
        assert(refs_view(out@) =~= seq![self@]);
        push_descendants(&self.children, &mut out);
        proof {
            lemma_children_view(self);
        }
        out
    }
}

impl XmlDocument {
    /// Every node of the document, in document order.
    pub fn descendants(&self) -> (nodes: Vec<&XmlNode>)
        ensures
            refs_view(nodes@) == all_nodes_of(self@),
    {
        let mut out: Vec<&XmlNode> = Vec::new();
        push_descendants(&self.nodes, &mut out);
        assert(refs_view(Seq::empty()) =~= Seq::<XmlView>::empty());
        assert(Seq::<XmlView>::empty() + all_nodes_of(self@) =~= all_nodes_of(self@));
        out
    }
}

/// The nodes of a list with the last one first.
spec fn from_the_end(nodes: Seq<XmlView>) -> Seq<XmlView> {
    Seq::new(nodes.len(), |i: int| nodes[nodes.len() - 1 - i])
}

proof fn lemma_from_the_end(nodes: Seq<XmlView>)
    requires
        nodes.len() > 0,
    ensures
        from_the_end(nodes) == seq![nodes.last()] + from_the_end(nodes.drop_last()),
{
    assert(from_the_end(nodes) =~= seq![nodes.last()] + from_the_end(nodes.drop_last()));
}

/// The nodes of two lists of siblings are those of the one and then those of the other.
proof fn lemma_all_nodes_add(a: Seq<XmlView>, b: Seq<XmlView>)
    ensures
        all_nodes_of(a + b) == all_nodes_of(a) + all_nodes_of(b),
    decreases b.len(),
{
    if b.len() == 0 {
        assert(a + b =~= a);
        assert(all_nodes_of(a) + all_nodes_of(b) =~= all_nodes_of(a));
    } else {
        assert((a + b).drop_last() =~= a + b.drop_last());
        lemma_all_nodes_add(a, b.drop_last());
        assert(all_nodes_of(a + b) =~= all_nodes_of(a) + all_nodes_of(b));
    }
}

proof fn lemma_all_nodes_one(n: XmlView)
    ensures
        all_nodes_of(seq![n]) == seq![n] + all_nodes_of(n.children),
{
    assert(seq![n].drop_last() =~= Seq::<XmlView>::empty());
    assert(all_nodes_of(Seq::<XmlView>::empty()) =~= Seq::<XmlView>::empty());
    assert(all_nodes_of(seq![n]) =~= all_nodes(n));
}

proof fn lemma_all_nodes_head(n: XmlView, rest: Seq<XmlView>)
    ensures
        all_nodes_of(seq![n] + rest) == seq![n] + all_nodes_of(n.children) + all_nodes_of(rest),
{
    lemma_all_nodes_add(seq![n], rest);
    lemma_all_nodes_one(n);
}

/// Puts nodes on a stack so that the first of them is on top.
fn stack_up<'a>(nodes: &'a Vec<XmlNode>, stack: &mut Vec<&'a XmlNode>)
    ensures
        from_the_end(refs_view(final(stack)@)) == nodes_view(nodes@) + from_the_end(
            refs_view(old(stack)@),
        ),
{
    let ghost views = nodes_view(nodes@);
    let ghost under = from_the_end(refs_view(stack@));
    let mut i = nodes.len();
    assert(views.skip(i as int) + under =~= under);
    while i > 0
        invariant
            i <= nodes@.len(),
            views == nodes_view(nodes@),
            from_the_end(refs_view(stack@)) == views.skip(i as int) + under,
        decreases i,
    {
        i -= 1;
        let ghost before = refs_view(stack@);
        stack.push(&nodes[i]);
        assert(refs_view(stack@) =~= before.push(views[i as int]));
        proof {
            lemma_from_the_end(refs_view(stack@));
            assert(refs_view(stack@).drop_last() =~= before);
            assert(seq![views[i as int]] + (views.skip(i + 1) + under) =~= views.skip(i as int)
                + under);
        }
    }
    assert(views.skip(0) =~= views);
}

/// Appends the given siblings and everything below them, in document order.
fn push_descendants<'a>(nodes: &'a Vec<XmlNode>, out: &mut Vec<&'a XmlNode>)
    ensures
        refs_view(final(out)@) == refs_view(old(out)@) + all_nodes_of(nodes_view(nodes@)),
{
    broadcast use lemma_children_view;

    let ghost whole = refs_view(out@) + all_nodes_of(nodes_view(nodes@));
    let mut stack: Vec<&'a XmlNode> = Vec::new();
    assert(from_the_end(refs_view(stack@)) =~= Seq::empty());
    stack_up(nodes, &mut stack);
    assert(from_the_end(refs_view(stack@)) =~= nodes_view(nodes@));
    while stack.len() > 0
        invariant
            whole == refs_view(out@) + all_nodes_of(from_the_end(refs_view(stack@))),
        decreases all_nodes_of(from_the_end(refs_view(stack@))).len(),
    {
        broadcast use lemma_children_view;

        let ghost listed = refs_view(out@);
        let ghost waiting = refs_view(stack@);
        let ghost rest = from_the_end(waiting.drop_last());
        if let Some(n) = stack.pop() {
            proof {
                lemma_from_the_end(waiting);
                lemma_all_nodes_head(n@, rest);
                assert(refs_view(stack@) =~= waiting.drop_last());
            }
            out.push(n);
            assert(refs_view(out@) =~= listed.push(n@));
            stack_up(&n.children, &mut stack);
            proof {
                lemma_all_nodes_add(n@.children, rest);
                assert(whole =~= refs_view(out@) + all_nodes_of(n@.children + rest));
            }
        }
    }
    assert(from_the_end(refs_view(stack@)) =~= Seq::empty());
    assert(whole =~= refs_view(out@));
}

/// The value of the node's first attribute with the given local name.
pub fn attr<'a>(node: &'a XmlNode, name: &str) -> (value: Option<&'a str>)
    ensures
        str_of(value) == attr_of(node@, name@),
{
    let ghost all = attrs_view(node.attrs@);
    let mut i: usize = 0;
    assert(all.skip(0) =~= all);
    while i < node.attrs.len()
        invariant
            i <= node.attrs@.len(),
            all == attrs_view(node.attrs@),
            all == node@.attrs,
            attr_in(all.skip(i as int), name@) == attr_in(all, name@),
        decreases node.attrs@.len() - i,
    {
        let a = &node.attrs[i];
        assert(all.skip(i as int)[0] == (a.name@, a.value@));
        if same_text(a.name.as_str(), name) {
            return Some(a.value.as_str());
        }
        assert(all.skip(i as int).skip(1) =~= all.skip(i as int + 1));
        i += 1;
    }
    None
}

/// The first node of a list that is an element with the given local name.
pub fn find_tag<'a>(nodes: &Vec<&'a XmlNode>, name: &str) -> (found: Option<&'a XmlNode>)
    ensures
        match found {
            Some(n) => first_tag(refs_view(nodes@), name@) == Some(n@),
            None => first_tag(refs_view(nodes@), name@) is None,
        },
{
    let ghost all = refs_view(nodes@);
    let mut i: usize = 0;
    assert(all.skip(0) =~= all);
    while i < nodes.len()
        invariant
            i <= nodes@.len(),
            all == refs_view(nodes@),
            first_tag(all.skip(i as int), name@) == first_tag(all, name@),
        decreases nodes@.len() - i,
    {
        let n = nodes[i];
        assert(all.skip(i as int)[0] == n@);
        if n.has_tag_name(name) {
            return Some(n);
        }
        assert(all.skip(i as int).skip(1) =~= all.skip(i as int + 1));
        i += 1;
    }
    None
}

// ---------------------------------------------------------------- building a tree

proof fn lemma_well_sized_add(a: Seq<ItemView>, b: Seq<ItemView>)
    requires
        well_sized(a),
        well_sized(b),
    ensures
        well_sized(a + b),
        forest(a + b) == forest(a) + forest(b),
    decreases a.len(),
{
    if a.len() == 0 {
        assert(a + b =~= b);
        assert(forest(a) + forest(b) =~= forest(b));
    } else {
        let size = a[0].size;
        let all = a + b;
        assert(all[0] == a[0]);
        assert(all.subrange(1, size) =~= a.subrange(1, size));
        assert(all.skip(size) =~= a.skip(size) + b);
        lemma_well_sized_add(a.skip(size), b);
        assert(forest(all) =~= forest(a) + forest(b));
    }
}

proof fn lemma_well_sized_suffix(items: Seq<ItemView>, i: int)
    requires
        well_sized(items),
        0 <= i <= items.len(),
    ensures
        well_sized(items.skip(i)),
    decreases items.len(),
{
    if i == 0 {
        assert(items.skip(i) =~= items);
    } else {
        let size = items[0].size;
        let inner = items.subrange(1, size);
        let rest = items.skip(size);
        if i >= size {
            lemma_well_sized_suffix(rest, i - size);
            assert(rest.skip(i - size) =~= items.skip(i));
        } else {
            lemma_well_sized_suffix(inner, i - 1);
            lemma_well_sized_add(inner.skip(i - 1), rest);
            assert(inner.skip(i - 1) + rest =~= items.skip(i));
        }
    }
}

/// The trees of a listing have as many nodes as it has items.
proof fn lemma_forest_size(items: Seq<ItemView>)
    requires
        well_sized(items),
    ensures
        all_nodes_of(forest(items)).len() == items.len(),
    decreases items.len(),
{
    if items.len() > 0 {
        let size = items[0].size;
        lemma_forest_size(items.subrange(1, size));
        lemma_forest_size(items.skip(size));
        lemma_all_nodes_head(
            node_of(items[0], forest(items.subrange(1, size))),
            forest(items.skip(size)),
        );
    }
}

/// The views of trees that stand on a stack.
spec fn trees_view(trees: Seq<(usize, XmlNode)>) -> Seq<XmlView> {
    trees.map_values(|t: (usize, XmlNode)| t.1@)
}

/// Whether each tree on a stack stands with the number of its nodes.
spec fn sizes_are_right(trees: Seq<(usize, XmlNode)>) -> bool {
    forall|k: int|
        0 <= k < trees.len() ==> (#[trigger] trees[k]).0 == all_nodes_of(seq![trees[k].1@]).len()
}

/// Takes trees with `count` nodes together from the top of a stack.
fn take_trees(
    trees: &mut Vec<(usize, XmlNode)>,
    count: usize,
    Ghost(inner): Ghost<Seq<XmlView>>,
    Ghost(rest): Ghost<Seq<XmlView>>,
) -> (taken: Vec<XmlNode>)
    requires
        sizes_are_right(old(trees)@),
        from_the_end(trees_view(old(trees)@)) == inner + rest,
        all_nodes_of(inner).len() == count,
    ensures
        sizes_are_right(final(trees)@),
        nodes_view(taken@) == inner,
        from_the_end(trees_view(final(trees)@)) == rest,
{
    let mut taken: Vec<XmlNode> = Vec::new();
    let mut total: usize = 0;
    assert(nodes_view(taken@) =~= inner.take(0));
    assert(inner.skip(0) =~= inner);
    while total < count
        invariant
            sizes_are_right(trees@),
            taken@.len() <= inner.len(),
            nodes_view(taken@) == inner.take(taken@.len() as int),
            from_the_end(trees_view(trees@)) == inner.skip(taken@.len() as int) + rest,
            total == all_nodes_of(inner.take(taken@.len() as int)).len(),
            all_nodes_of(inner).len() == count,
            total <= count,
        decreases count - total,
    {
        let ghost p = taken@.len() as int;
        let ghost waiting = trees_view(trees@);
        proof {
            if p == inner.len() {
                assert(inner.take(p) =~= inner);
            }
            assert(from_the_end(waiting).len() > 0);
            lemma_from_the_end(waiting);
            assert(from_the_end(waiting)[0] == inner[p]);
            assert(trees@[trees@.len() - 1].1@ == inner[p]);
        }
        let ghost before = nodes_view(taken@);
        let ghost stacked = trees@;
        if let Some((size, node)) = trees.pop() {
            proof {
                assert((size, node) == stacked[stacked.len() - 1]);
                assert(size == all_nodes_of(seq![node@]).len());
                assert(trees_view(trees@) =~= waiting.drop_last());
                assert forall|k: int| 0 <= k < trees@.len() implies (#[trigger] trees@[k]).0
                    == all_nodes_of(seq![trees@[k].1@]).len() by {
                    assert(stacked[k].0 == all_nodes_of(seq![stacked[k].1@]).len());
                }
                lemma_all_nodes_one(node@);
                let more = inner.take(p + 1);
                assert(more =~= inner.take(p) + seq![node@]);
                lemma_all_nodes_add(inner.take(p), seq![node@]);
                assert(inner =~= more + inner.skip(p + 1));
                lemma_all_nodes_add(more, inner.skip(p + 1));
                assert(from_the_end(trees_view(trees@)) =~= inner.skip(p + 1) + rest) by {
                    let all = from_the_end(waiting);
                    assert(all.skip(1) =~= from_the_end(waiting.drop_last()));
                    assert(all.skip(1) =~= inner.skip(p + 1) + rest);
                }
            }
            total += size;
            taken.push(node);
            assert(nodes_view(taken@) =~= before.push(node@));
            assert(nodes_view(taken@) =~= inner.take(p + 1));
        }
    }
    proof {
        let p = taken@.len() as int;
        if p < inner.len() {
            let tail = inner.skip(p);
            assert(inner =~= inner.take(p) + tail);
            lemma_all_nodes_add(inner.take(p), tail);
            assert(tail =~= seq![tail[0]] + tail.skip(1));
            lemma_all_nodes_head(tail[0], tail.skip(1));
        }
        assert(inner.take(p) =~= inner);
        assert(inner.skip(p) + rest =~= rest);
    }
    taken
}

/// The document that a listing of its nodes in document order stands for.
pub fn build_document(items: Vec<XmlItem>) -> (doc: XmlDocument)
    requires
        well_sized(items_view(items@)),
    ensures
        doc@ == forest(items_view(items@)),
{
    let ghost all = items_view(items@);
    let count = items.len();
    let mut items = items;
    let mut trees: Vec<(usize, XmlNode)> = Vec::new();
    assert(all.take(all.len() as int) =~= all);
    assert(forest(all.skip(all.len() as int)) =~= Seq::empty());
    assert(from_the_end(trees_view(trees@)) =~= Seq::empty());
    while items.len() > 0
        invariant
            well_sized(all),
            items@.len() <= all.len(),
            items_view(items@) == all.take(items@.len() as int),
            sizes_are_right(trees@),
            from_the_end(trees_view(trees@)) == forest(all.skip(items@.len() as int)),
        decreases items@.len(),
    {
        let ghost listed = items_view(items@);
        let ghost k = items@.len() - 1;
        if let Some(item) = items.pop() {
            let ghost tail = all.skip(k);
            let ghost inner = tail.subrange(1, item.size as int);
            let ghost rest = tail.skip(item.size as int);
            proof {
                assert(listed[k] == item@);
                assert(tail[0] == item@);
                lemma_well_sized_suffix(all, k);
                lemma_well_sized_add(inner, rest);
                assert(inner + rest =~= all.skip(k + 1));
                lemma_forest_size(inner);
                assert(items_view(items@) =~= all.take(k));
            }
            let children = take_trees(
                &mut trees,
                item.size - 1,
                Ghost(forest(inner)),
                Ghost(forest(rest)),
            );
            let node = XmlNode {
                is_element: item.is_element,
                is_text: item.is_text,
                name: item.name,
                attrs: item.attrs,
                text: item.text,
                children,
            };
            let ghost before = trees_view(trees@);
            let ghost stacked = trees@;
            proof {
                lemma_children_view(&node);
                lemma_all_nodes_one(node@);
                assert(node@ =~= node_of(item@, forest(inner)));
            }
            trees.push((item.size, node));
            proof {
                assert(trees_view(trees@) =~= before.push(node@));
                lemma_from_the_end(trees_view(trees@));
                assert(trees_view(trees@).drop_last() =~= before);
                assert forall|j: int| 0 <= j < trees@.len() implies (#[trigger] trees@[j]).0
                    == all_nodes_of(seq![trees@[j].1@]).len() by {
                    if j < stacked.len() {
                        assert(trees@[j] == stacked[j]);
                    }
                }
            }
        }
    }
    proof {
        assert(all.skip(0) =~= all);
        lemma_forest_size(all);
        assert(forest(all) + Seq::<XmlView>::empty() =~= forest(all));
    }
    let nodes = take_trees(&mut trees, count, Ghost(forest(all)), Ghost(Seq::empty()));
    XmlDocument { nodes }
}

impl XmlDocument {
    /// Takes the tree apart, node by node: one that is merely dropped is left to a recursion as
    /// deep as it is.
    pub fn take_apart(self) {
        broadcast use lemma_children_view;

        let mut stack = self.nodes;
        while stack.len() > 0
            decreases all_nodes_of(nodes_view(stack@)).len(),
        {
            broadcast use lemma_children_view;

            let ghost waiting = nodes_view(stack@);
            if let Some(node) = stack.pop() {
                let mut children = node.children;
                proof {
                    let rest = waiting.drop_last();
                    assert(waiting =~= rest + seq![node@]);
                    lemma_all_nodes_add(rest, seq![node@]);
                    lemma_all_nodes_one(node@);
                    lemma_all_nodes_add(rest, node@.children);
                    assert(nodes_view(stack@) =~= rest);
                    assert(nodes_view(stack@ + children@) =~= rest + node@.children);
                }
                stack.append(&mut children);
            }
        }
    }
}

// ---------------------------------------------------------------- laws

/// Nodes and everything below them as a listing in document order.
pub open spec fn listing(nodes: Seq<XmlView>) -> Seq<ItemView>
    decreases nodes,
{
    if nodes.len() == 0 {
        Seq::empty()
    } else {
        listing(nodes.drop_last()) + listing_of(nodes.last())
    }
}

/// A node and everything below it as a listing in document order.
pub open spec fn listing_of(n: XmlView) -> Seq<ItemView>
    decreases n,
{
    let below = listing(n.children);
    seq![
        ItemView {
            size: below.len() + 1int,
            is_element: n.is_element,
            is_text: n.is_text,
            name: n.name,
            attrs: n.attrs,
            text: n.text,
        },
    ] + below
}

proof fn lemma_listing_head(first: XmlView, rest: Seq<XmlView>)
    ensures
        listing(seq![first] + rest) == listing_of(first) + listing(rest),
    decreases rest.len(),
{
    let all = seq![first] + rest;
    if rest.len() == 0 {
        assert(all.drop_last() =~= Seq::<XmlView>::empty());
        assert(listing(all.drop_last()) =~= Seq::<ItemView>::empty());
        assert(listing(all) =~= listing_of(first) + listing(rest));
    } else {
        assert(all.drop_last() =~= seq![first] + rest.drop_last());
        lemma_listing_head(first, rest.drop_last());
        assert(listing(all) =~= listing_of(first) + listing(rest));
    }
}

/// The trees that a listing stands for are listed as it lists them: no node is lost or moved.
pub proof fn law_trees_keep_their_listing(items: Seq<ItemView>)
    requires
        well_sized(items),
    ensures
        listing(forest(items)) == items,
    decreases items.len(),
{
    if items.len() > 0 {
        let size = items[0].size;
        let inner = items.subrange(1, size);
        let rest = items.skip(size);
        law_trees_keep_their_listing(inner);
        law_trees_keep_their_listing(rest);
        let node = node_of(items[0], forest(inner));
        lemma_listing_head(node, forest(rest));
        assert(listing_of(node) =~= seq![items[0]] + inner);
        assert(items =~= seq![items[0]] + inner + rest);
    }
}

} // verus!
