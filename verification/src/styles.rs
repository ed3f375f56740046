//! Text, paragraph and list styles, and the formatting that a style name stands for.

use vstd::prelude::*;

use crate::text::{
    in_range, parse_i64, same_text, signed_value, starts_with, str_of, text_of, texts,
};
use crate::xml::{
    all_nodes_of, attr, attr_of, first_tag, is_tag, lemma_children_view, nodes_view, refs_view,
    XmlDocument, XmlNode, XmlView,
};

verus! {

/// The formatting of a run of text.
#[derive(Clone, Copy, PartialEq, Eq, Structural, Debug)]
pub struct Fmt {
    pub bold: bool,
    pub italic: bool,
    pub strike: bool,
    pub underline: bool,
    /// 0 for none, 1 for subscript, 2 for superscript.
    pub script: u8,
}

/// Text without any formatting.
pub open spec fn plain() -> Fmt {
    Fmt { bold: false, italic: false, strike: false, underline: false, script: 0 }
}

impl Default for Fmt {
    fn default() -> (fmt: Fmt)
        ensures
            fmt == plain(),
    {
        Fmt { bold: false, italic: false, strike: false, underline: false, script: 0 }
    }
}

/// What one style declares: what it derives from, how it is shown, and the formatting that it
/// sets.
pub struct StyleInfo {
    pub parent: Option<String>,
    pub display_name: Option<String>,
    pub bold: Option<bool>,
    pub italic: Option<bool>,
    pub strike: Option<bool>,
    pub underline: Option<bool>,
    pub script: Option<u8>,
}

/// The mathematical form of [`StyleInfo`].
#[verifier::ext_equal]
pub struct StyleView {
    pub parent: Option<Seq<char>>,
    pub display_name: Option<Seq<char>>,
    pub bold: Option<bool>,
    pub italic: Option<bool>,
    pub strike: Option<bool>,
    pub underline: Option<bool>,
    pub script: Option<u8>,
}

impl View for StyleInfo {
    type V = StyleView;

    open spec fn view(&self) -> StyleView {
        StyleView {
            parent: text_of(self.parent),
            display_name: text_of(self.display_name),
            bold: self.bold,
            italic: self.italic,
            strike: self.strike,
            underline: self.underline,
            script: self.script,
        }
    }
}

/// How one level of a list is rendered: with bullets or numbers, and the first number.
#[derive(Clone, Copy, PartialEq, Eq, Structural, Debug)]
pub struct OdfLevel {
    pub numbered: bool,
    pub start: i64,
}

/// The styles of a document, each under its name, in the order in which they are declared.
///
/// A name or a level that is declared more than once means its last declaration.
pub struct Styles {
    pub map: Vec<(String, StyleInfo)>,
    pub lists: Vec<(String, Vec<(i64, OdfLevel)>)>,
}

/// The declared levels of one list style.
pub type Levels = Seq<(i64, OdfLevel)>;

/// The mathematical form of [`Styles`].
#[verifier::ext_equal]
pub struct StylesView {
    pub map: Seq<(Seq<char>, StyleView)>,
    pub lists: Seq<(Seq<char>, Levels)>,
}

/// The declared styles: names with what they declare.
pub open spec fn map_view(map: Seq<(String, StyleInfo)>) -> Seq<(Seq<char>, StyleView)> {
    map.map_values(|e: (String, StyleInfo)| (e.0@, e.1@))
}

/// The declared list styles: names with their levels.
pub open spec fn lists_view(lists: Seq<(String, Vec<(i64, OdfLevel)>)>) -> Seq<
    (Seq<char>, Levels),
> {
    lists.map_values(|e: (String, Vec<(i64, OdfLevel)>)| (e.0@, e.1@))
}

impl View for Styles {
    type V = StylesView;

    open spec fn view(&self) -> StylesView {
        StylesView { map: map_view(self.map@), lists: lists_view(self.lists@) }
    }
}

/// Every level starts at one or above.
pub open spec fn levels_wf(levels: Levels) -> bool {
    forall|j: int| 0 <= j < levels.len() ==> (#[trigger] levels[j]).1.start >= 1
}

/// Every level of every list style starts at one or above.
pub open spec fn lists_wf(lists: Seq<(Seq<char>, Levels)>) -> bool {
    forall|i: int| 0 <= i < lists.len() ==> levels_wf((#[trigger] lists[i]).1)
}

impl StylesView {
    /// Every list level starts at one or above.
    pub open spec fn wf(self) -> bool {
        lists_wf(self.lists)
    }
}

/// What the last declaration under a name says.
pub open spec fn declared<T>(entries: Seq<(Seq<char>, T)>, name: Seq<char>) -> Option<T>
    decreases entries.len(),
{
    if entries.len() == 0 {
        None
    } else if entries.last().0 == name {
        Some(entries.last().1)
    } else {
        declared(entries.drop_last(), name)
    }
}

/// What the last declaration of a level says.
pub open spec fn declared_level(levels: Levels, level: int) -> Option<OdfLevel>
    decreases levels.len(),
{
    if levels.len() == 0 {
        None
    } else if levels.last().0 == level {
        Some(levels.last().1)
    } else {
        declared_level(levels.drop_last(), level)
    }
}

// ---------------------------------------------------------------- declarations

/// Whether a font weight is a bold one: the word, or a number from 600 on.
pub open spec fn bold_weight(v: Seq<char>) -> bool {
    ||| v == "bold"@
    ||| in_range(signed_value(v), i32::MIN as int, i32::MAX as int) matches Some(n) && n >= 600
}

/// The position of text that a `text-position` value names.
pub open spec fn script_of(v: Seq<char>) -> u8 {
    if "super"@.is_prefix_of(v) {
        2
    } else if "sub"@.is_prefix_of(v) {
        1
    } else {
        0
    }
}

/// What a style element declares.
pub open spec fn style_of(s: XmlView) -> StyleView {
    let parent = attr_of(s, "parent-style-name"@);
    let display_name = attr_of(s, "display-name"@);
    match first_tag(s.children, "text-properties"@) {
        None => StyleView {
            parent,
            display_name,
            bold: None,
            italic: None,
            strike: None,
            underline: None,
            script: None,
        },
        Some(tp) => StyleView {
            parent,
            display_name,
            bold: match attr_of(tp, "font-weight"@) {
                Some(v) => Some(bold_weight(v)),
                None => None,
            },
            italic: match attr_of(tp, "font-style"@) {
                Some(v) => Some(v == "italic"@ || v == "oblique"@),
                None => None,
            },
            strike: match attr_of(tp, "text-line-through-style"@) {
                Some(v) => Some(v != "none"@),
                None => None,
            },
            underline: match attr_of(tp, "text-underline-style"@) {
                Some(v) => Some(v != "none"@),
                None => None,
            },
            script: match attr_of(tp, "text-position"@) {
                Some(v) => Some(script_of(v)),
                None => None,
            },
        },
    }
}

/// The number that an attribute spells, where it is one that `i64` can hold.
pub open spec fn int_attr(n: XmlView, name: Seq<char>) -> Option<int> {
    match attr_of(n, name) {
        Some(v) => in_range(signed_value(v), i64::MIN as int, i64::MAX as int),
        None => None,
    }
}

/// The level that one element of a list style declares.
pub open spec fn level_of(lv: XmlView) -> (i64, OdfLevel) {
    let level = match int_attr(lv, "level"@) {
        Some(n) => n,
        None => 1,
    };
    let start = match int_attr(lv, "start-value"@) {
        Some(n) => if n < 1 {
            1
        } else {
            n
        },
        None => 1,
    };
    (
        level as i64,
        OdfLevel { numbered: lv.name == "list-level-style-number"@, start: start as i64 },
    )
}

/// The levels that the elements among the given nodes declare.
pub open spec fn levels_of(nodes: Seq<XmlView>) -> Levels
    decreases nodes.len(),
{
    if nodes.len() == 0 {
        Seq::empty()
    } else if nodes.last().is_element {
        levels_of(nodes.drop_last()).push(level_of(nodes.last()))
    } else {
        levels_of(nodes.drop_last())
    }
}

/// The named styles among the given nodes.
pub open spec fn style_entries(nodes: Seq<XmlView>) -> Seq<(Seq<char>, StyleView)>
    decreases nodes.len(),
{
    if nodes.len() == 0 {
        Seq::empty()
    } else {
        let before = style_entries(nodes.drop_last());
        let n = nodes.last();
        match attr_of(n, "name"@) {
            Some(name) => if is_tag(n, "style"@) {
                before.push((name, style_of(n)))
            } else {
                before
            },
            None => before,
        }
    }
}

/// The named list styles among the given nodes.
pub open spec fn list_entries(nodes: Seq<XmlView>) -> Seq<(Seq<char>, Levels)>
    decreases nodes.len(),
{
    if nodes.len() == 0 {
        Seq::empty()
    } else {
        let before = list_entries(nodes.drop_last());
        let n = nodes.last();
        match attr_of(n, "name"@) {
            Some(name) => if is_tag(n, "list-style"@) {
                before.push((name, levels_of(n.children)))
            } else {
                before
            },
            None => before,
        }
    }
}

/// The styles that a document declares, and behind them those of its style sheet.
pub open spec fn styles_of(content: Seq<XmlView>, sheet: Option<Seq<XmlView>>) -> StylesView {
    let own = all_nodes_of(content);
    let shared = match sheet {
        Some(s) => all_nodes_of(s),
        None => Seq::empty(),
    };
    StylesView {
        map: style_entries(own) + style_entries(shared),
        lists: list_entries(own) + list_entries(shared),
    }
}

/// Whether a font weight is a bold one.
pub fn is_bold(v: &str) -> (bold: bool)
    ensures
        bold == bold_weight(v@),
{
    if same_text(v, "bold") {
        return true;
    }
    match parse_i64(v) {
        Some(n) => 600 <= n && n <= 0x7fff_ffff,
        None => false,
    }
}

/// The first child that is an element with the given local name.
fn find_child<'a>(node: &'a XmlNode, name: &str) -> (found: Option<&'a XmlNode>)
    ensures
        match found {
            Some(n) => first_tag(node@.children, name@) == Some(n@),
            None => first_tag(node@.children, name@) is None,
        },
{
    proof {
        lemma_children_view(node);
    }
    let ghost all = nodes_view(node.children@);
    let mut i: usize = 0;
    assert(all.skip(0) =~= all);
    while i < node.children.len()
        invariant
            i <= node.children@.len(),
            all == nodes_view(node.children@),
            all == node@.children,
            first_tag(all.skip(i as int), name@) == first_tag(all, name@),
        decreases node.children@.len() - i,
    {
        let n = &node.children[i];
        assert(all.skip(i as int)[0] == n@);
        if n.has_tag_name(name) {
            return Some(n);
        }
        assert(all.skip(i as int).skip(1) =~= all.skip(i as int + 1));
        i += 1;
    }
    None
}

/// A copy of an optional string slice.
fn owned(text: Option<&str>) -> (copy: Option<String>)
    ensures
        text_of(copy) == str_of(text),
{
    match text {
        Some(t) => Some(t.to_owned()),
        None => None,
    }
}

/// What a style element declares.
pub fn style_info(s: &XmlNode) -> (info: StyleInfo)
    ensures
        info@ == style_of(s@),
{
    let parent = owned(attr(s, "parent-style-name"));
    let display_name = owned(attr(s, "display-name"));
    match find_child(s, "text-properties") {
        None => StyleInfo {
            parent,
            display_name,
            bold: None,
            italic: None,
            strike: None,
            underline: None,
            script: None,
        },
        Some(tp) => {
            let bold = match attr(tp, "font-weight") {
                Some(v) => Some(is_bold(v)),
                None => None,
            };
            let italic = match attr(tp, "font-style") {
                Some(v) => Some(same_text(v, "italic") || same_text(v, "oblique")),
                None => None,
            };
            let strike = match attr(tp, "text-line-through-style") {
                Some(v) => Some(!same_text(v, "none")),
                None => None,
            };
            let underline = match attr(tp, "text-underline-style") {
                Some(v) => Some(!same_text(v, "none")),
                None => None,
            };
            let script: Option<u8> = match attr(tp, "text-position") {
                Some(v) => {
                    let position: u8 = if starts_with(v, "super") {
                        2
                    } else if starts_with(v, "sub") {
                        1
                    } else {
                        0
                    };
                    Some(position)
                },
                None => None,
            };
            StyleInfo { parent, display_name, bold, italic, strike, underline, script }
        },
    }
}

/// The number that an attribute spells, where it is one that `i64` can hold.
pub fn i64_attr(node: &XmlNode, name: &str) -> (n: Option<i64>)
    ensures
        n == (match int_attr(node@, name@) {
            Some(v) => Some(v as i64),
            None => None,
        }),
{
    match attr(node, name) {
        Some(v) => parse_i64(v),
        None => None,
    }
}

/// The levels that a list style declares.
fn list_levels(s: &XmlNode) -> (levels: Vec<(i64, OdfLevel)>)
    ensures
        levels@ == levels_of(s@.children),
{
    proof {
        lemma_children_view(s);
    }
    let ghost all = nodes_view(s.children@);
    let mut out: Vec<(i64, OdfLevel)> = Vec::new();
    let mut i: usize = 0;
    while i < s.children.len()
        invariant
            i <= s.children@.len(),
            all == nodes_view(s.children@),
            out@ == levels_of(all.take(i as int)),
        decreases s.children@.len() - i,
    {
        let lv = &s.children[i];
        assert(all.take(i as int + 1).drop_last() =~= all.take(i as int));
        assert(all.take(i as int + 1).last() == lv@);
        if lv.is_element {
            let level: i64 = match i64_attr(lv, "level") {
                Some(n) => n,
                None => 1,
            };
            let numbered = same_text(lv.name.as_str(), "list-level-style-number");
            let start: i64 = match i64_attr(lv, "start-value") {
                Some(n) => if n < 1 {
                    1
                } else {
                    n
                },
                None => 1,
            };
            out.push((level, OdfLevel { numbered, start }));
        }
        i += 1;
    }
    assert(all.take(i as int) =~= all);
    out
}

proof fn lemma_levels_start(nodes: Seq<XmlView>)
    ensures
        levels_wf(levels_of(nodes)),
    decreases nodes.len(),
{
    if nodes.len() > 0 {
        lemma_levels_start(nodes.drop_last());
        let before = levels_of(nodes.drop_last());
        assert forall|j: int| 0 <= j < levels_of(nodes).len() implies (#[trigger] levels_of(
            nodes,
        )[j]).1.start >= 1 by {
            if j < before.len() {
                assert(levels_of(nodes)[j] == before[j]);
            }
        }
    }
}

proof fn lemma_list_entries_start(nodes: Seq<XmlView>)
    ensures
        lists_wf(list_entries(nodes)),
    decreases nodes.len(),
{
    if nodes.len() > 0 {
        lemma_list_entries_start(nodes.drop_last());
        lemma_levels_start(nodes.last().children);
        let before = list_entries(nodes.drop_last());
        assert forall|i: int| 0 <= i < list_entries(nodes).len() implies levels_wf(
            (#[trigger] list_entries(nodes)[i]).1,
        ) by {
            if i < before.len() {
                assert(list_entries(nodes)[i] == before[i]);
            }
        }
    }
}

/// Collected styles always have list levels that start at one or above.
pub proof fn lemma_styles_of_wf(content: Seq<XmlView>, sheet: Option<Seq<XmlView>>)
    ensures
        styles_of(content, sheet).wf(),
{
    lemma_list_entries_start(all_nodes_of(content));
    match sheet {
        Some(s) => lemma_list_entries_start(all_nodes_of(s)),
        None => lemma_list_entries_start(Seq::empty()),
    }
}

/// Adds the styles that one document declares.
fn add_styles(doc: &XmlDocument, styles: &mut Styles)
    ensures
        final(styles)@.map == old(styles)@.map + style_entries(all_nodes_of(doc@)),
        final(styles)@.lists == old(styles)@.lists + list_entries(all_nodes_of(doc@)),
{
    let nodes = doc.descendants();
    let ghost all = refs_view(nodes@);
    let mut i: usize = 0;
    while i < nodes.len()
        invariant
            i <= nodes@.len(),
            all == refs_view(nodes@),
            styles@.map =~= old(styles)@.map + style_entries(all.take(i as int)),
            styles@.lists =~= old(styles)@.lists + list_entries(all.take(i as int)),
        decreases nodes@.len() - i,
    {
        let s = nodes[i];
        assert(all.take(i as int + 1).drop_last() =~= all.take(i as int));
        assert(all.take(i as int + 1).last() == s@);
        let ghost map = map_view(styles.map@);
        let ghost lists = lists_view(styles.lists@);
        proof {
            reveal_strlit("style");
            reveal_strlit("list-style");
            assert("style"@.len() != "list-style"@.len());
        }
        if let Some(name) = attr(s, "name") {
            if s.has_tag_name("style") {
                let info = style_info(s);
                styles.map.push((name.to_owned(), info));
                assert(map_view(styles.map@) =~= map.push((name@, info@)));
            } else if s.has_tag_name("list-style") {
                let levels = list_levels(s);
                styles.lists.push((name.to_owned(), levels));
                assert(lists_view(styles.lists@) =~= lists.push((name@, levels@)));
            }
        }
        i += 1;
    }
    assert(all.take(i as int) =~= all);
}

/// The styles that a document declares, and behind them those of its style sheet.
pub fn parse_styles(content: &XmlDocument, sheet: Option<&XmlDocument>) -> (styles: Styles)
    ensures
        styles@ == styles_of(
            content@,
            match sheet {
                Some(s) => Some(s@),
                None => None,
            },
        ),
        styles@.wf(),
{
    let mut styles = Styles { map: Vec::new(), lists: Vec::new() };
    assert(map_view(styles.map@) =~= Seq::empty());
    assert(lists_view(styles.lists@) =~= Seq::empty());
    add_styles(content, &mut styles);
    assert(styles@.map =~= style_entries(all_nodes_of(content@)));
    assert(styles@.lists =~= list_entries(all_nodes_of(content@)));
    match sheet {
        Some(s) => {
            add_styles(s, &mut styles);
            proof {
                lemma_styles_of_wf(content@, Some(s@));
            }
        },
        None => {
            proof {
                lemma_styles_of_wf(content@, None);
                assert(style_entries(Seq::empty()) =~= Seq::empty());
                assert(list_entries(Seq::empty()) =~= Seq::empty());
                assert(styles@.map =~= styles_of(content@, None).map);
                assert(styles@.lists =~= styles_of(content@, None).lists);
            }
        },
    }
    styles
}

// ---------------------------------------------------------------- formatting

/// The declared names.
pub open spec fn names_of(entries: Seq<(Seq<char>, StyleView)>) -> Set<Seq<char>> {
    entries.map_values(|e: (Seq<char>, StyleView)| e.0).to_set()
}

/// A declared name is one of the finitely many names, and marking it as seen leaves fewer.
pub proof fn lemma_declared_name(
    entries: Seq<(Seq<char>, StyleView)>,
    name: Seq<char>,
    seen: Set<Seq<char>>,
)
    requires
        declared(entries, name) is Some,
        !seen.contains(name),
    ensures
        names_of(entries).difference(seen.insert(name)).len() < names_of(entries).difference(
            seen,
        ).len(),
{
    lemma_declared_is_named(entries, name);
    let names = entries.map_values(|e: (Seq<char>, StyleView)| e.0);
    vstd::seq_lib::seq_to_set_is_finite(names);
    let left = names_of(entries).difference(seen);
    assert(left.finite());
    assert(left.contains(name));
    assert(names_of(entries).difference(seen.insert(name)) =~= left.remove(name));
}

proof fn lemma_declared_is_named(entries: Seq<(Seq<char>, StyleView)>, name: Seq<char>)
    requires
        declared(entries, name) is Some,
    ensures
        names_of(entries).contains(name),
    decreases entries.len(),
{
    let names = entries.map_values(|e: (Seq<char>, StyleView)| e.0);
    if entries.last().0 == name {
        assert(names[entries.len() - 1] == name);
    } else {
        lemma_declared_is_named(entries.drop_last(), name);
        let fewer = entries.drop_last().map_values(|e: (Seq<char>, StyleView)| e.0);
        let i = choose|i: int| 0 <= i < fewer.len() && fewer[i] == name;
        assert(names[i] == name);
    }
}

/// A style and what it derives from, the most derived first: the chain ends at a name that is
/// not declared or has been seen before.
pub open spec fn style_chain(
    entries: Seq<(Seq<char>, StyleView)>,
    name: Option<Seq<char>>,
    seen: Set<Seq<char>>,
) -> Seq<StyleView>
    decreases names_of(entries).difference(seen).len(),
{
    match name {
        None => Seq::empty(),
        Some(n) => if seen.contains(n) {
            Seq::empty()
        } else {
            match declared(entries, n) {
                None => Seq::empty(),
                Some(info) => {
                    proof {
                        lemma_declared_name(entries, n, seen);
                    }
                    seq![info] + style_chain(entries, info.parent, seen.insert(n))
                },
            }
        },
    }
}

/// What a style sets over the formatting that it is applied to.
pub open spec fn styled(info: StyleView, base: Fmt) -> Fmt {
    Fmt {
        bold: match info.bold {
            Some(b) => b,
            None => base.bold,
        },
        italic: match info.italic {
            Some(i) => i,
            None => base.italic,
        },
        strike: match info.strike {
            Some(s) => s,
            None => base.strike,
        },
        underline: match info.underline {
            Some(u) => u,
            None => base.underline,
        },
        script: match info.script {
            Some(s) => s,
            None => base.script,
        },
    }
}

/// A chain of styles applied to `base`, the last of them first.
pub open spec fn apply_chain(chain: Seq<StyleView>, base: Fmt) -> Fmt
    decreases chain.len(),
{
    if chain.len() == 0 {
        base
    } else {
        styled(chain[0], apply_chain(chain.skip(1), base))
    }
}

/// The formatting that a style name stands for, on top of `base`.
pub open spec fn resolved(styles: StylesView, name: Option<Seq<char>>, base: Fmt) -> Fmt {
    apply_chain(style_chain(styles.map, name, Set::empty()), base)
}

/// The names under which a paragraph style is known: its own, its parent's and its display name.
pub open spec fn known_names(styles: StylesView, name: Option<Seq<char>>) -> Seq<Seq<char>> {
    match name {
        None => Seq::empty(),
        Some(n) => match declared(styles.map, n) {
            None => seq![n],
            Some(info) => seq![n] + (match info.parent {
                Some(p) => seq![p],
                None => Seq::empty(),
            }) + (match info.display_name {
                Some(d) => seq![d],
                None => Seq::empty(),
            }),
        },
    }
}

/// The last declaration under a name.
fn find_style<'a>(map: &'a Vec<(String, StyleInfo)>, name: &str) -> (found: Option<&'a StyleInfo>)
    ensures
        match found {
            Some(info) => declared(map_view(map@), name@) == Some(info@),
            None => declared(map_view(map@), name@) is None,
        },
{
    let ghost all = map_view(map@);
    let mut i = map.len();
    assert(all.take(i as int) =~= all);
    while i > 0
        invariant
            i <= map@.len(),
            all == map_view(map@),
            declared(all.take(i as int), name@) == declared(all, name@),
        decreases i,
    {
        let e = &map[i - 1];
        assert(all.take(i as int).last() == (e.0@, e.1@));
        if same_text(e.0.as_str(), name) {
            return Some(&e.1);
        }
        assert(all.take(i as int).drop_last() =~= all.take(i as int - 1));
        i -= 1;
    }
    None
}

/// Whether a string is in a list.
pub fn has_text(list: &Vec<String>, text: &str) -> (yes: bool)
    ensures
        yes == texts(list@).contains(text@),
{
    let ghost all = texts(list@);
    let mut i: usize = 0;
    while i < list.len()
        invariant
            i <= list@.len(),
            all == texts(list@),
            forall|k: int| 0 <= k < i ==> all[k] != text@,
        decreases list@.len() - i,
    {
        if same_text(list[i].as_str(), text) {
            assert(all[i as int] == text@);
            return true;
        }
        i += 1;
    }
    false
}

/// The formatting that a text or paragraph style stands for, on top of `base`: a style's own
/// settings win over those of its parents.
pub fn resolve_fmt(styles: &Styles, name: Option<&str>, base: Fmt) -> (fmt: Fmt)
    ensures
        fmt == resolved(styles@, str_of(name), base),
{
    let ghost entries = styles@.map;
    let ghost whole = style_chain(entries, str_of(name), Set::empty());
    let mut chain: Vec<&StyleInfo> = Vec::new();
    let mut cur = owned(name);
    let mut seen: Vec<String> = Vec::new();
    let ghost infos = |c: Seq<&StyleInfo>| c.map_values(|i: &StyleInfo| i@);
    let ghost mut marked: Set<Seq<char>> = Set::empty();
    assert(infos(chain@) =~= Seq::empty());
    assert(Seq::<StyleView>::empty() + whole =~= whole);
    loop
        invariant
            entries == map_view(styles.map@),
            infos == (|c: Seq<&StyleInfo>| c.map_values(|i: &StyleInfo| i@)),
            forall|n: Seq<char>| #[trigger] marked.contains(n) <==> texts(seen@).contains(n),
            infos(chain@) + style_chain(entries, text_of(cur), marked) =~= whole,
        ensures
            infos(chain@) =~= whole,
        decreases names_of(entries).difference(marked).len(),
    {
        let n = match cur {
            None => {
                break;
            },
            Some(n) => n,
        };
        if has_text(&seen, n.as_str()) {
            break;
        }
        match find_style(&styles.map, n.as_str()) {
            None => {
                break;
            },
            Some(info) => {
                let ghost before = infos(chain@);
                let ghost known = texts(seen@);
                proof {
                    lemma_declared_name(entries, n@, marked);
                }
                chain.push(info);
                assert(infos(chain@) =~= before.push(info@));
                cur = match &info.parent {
                    Some(p) => Some(p.clone()),
                    None => None,
                };
                seen.push(n);
                proof {
                    assert(texts(seen@) =~= known.push(n@));
                    let now = marked.insert(n@);
                    assert forall|m: Seq<char>| #[trigger] now.contains(m) <==> texts(
                        seen@,
                    ).contains(m) by {
                        if known.contains(m) {
                            let k = choose|k: int| 0 <= k < known.len() && known[k] == m;
                            assert(texts(seen@)[k] == m);
                        }
                        assert(texts(seen@)[known.len() as int] == n@);
                        if texts(seen@).contains(m) && m != n@ {
                            let k = choose|k: int|
                                0 <= k < texts(seen@).len() && texts(seen@)[k] == m;
                            assert(known[k] == m);
                        }
                    }
                    marked = now;
                }
            },
        }
    }
    let mut fmt = base;
    let mut i = chain.len();
    assert(whole.skip(i as int) =~= Seq::empty());
    while i > 0
        invariant
            i <= chain@.len(),
            infos == (|c: Seq<&StyleInfo>| c.map_values(|i: &StyleInfo| i@)),
            infos(chain@) =~= whole,
            fmt == apply_chain(whole.skip(i as int), base),
        decreases i,
    {
        let info = chain[i - 1];
        assert(whole.skip(i as int - 1)[0] == info@);
        assert(whole.skip(i as int - 1).skip(1) =~= whole.skip(i as int));
        if let Some(b) = info.bold {
            fmt.bold = b;
        }
        if let Some(b) = info.italic {
            fmt.italic = b;
        }
        if let Some(b) = info.strike {
            fmt.strike = b;
        }
        if let Some(b) = info.underline {
            fmt.underline = b;
        }
        if let Some(s) = info.script {
            fmt.script = s;
        }
        i -= 1;
    }
    assert(whole.skip(0) =~= whole);
    fmt
}

/// The names under which a paragraph style is known: its own, its parent's and its display name.
pub fn paragraph_style_names(styles: &Styles, name: Option<&str>) -> (names: Vec<String>)
    ensures
        texts(names@) == known_names(styles@, str_of(name)),
{
    let mut out: Vec<String> = Vec::new();
    if let Some(n) = name {
        out.push(n.to_owned());
        assert(texts(out@) =~= seq![n@]);
        if let Some(info) = find_style(&styles.map, n) {
            if let Some(p) = &info.parent {
                let ghost before = texts(out@);
                out.push(p.clone());
                assert(texts(out@) =~= before.push(p@));
            }
            if let Some(d) = &info.display_name {
                let ghost before = texts(out@);
                out.push(d.clone());
                assert(texts(out@) =~= before.push(d@));
            }
        }
    }
    assert(texts(out@) =~= known_names(styles@, str_of(name)));
    out
}

/// The most derived style that sets a property decides it, and where none does, the base stays.
pub proof fn law_most_derived_style_wins(chain: Seq<StyleView>, base: Fmt)
    ensures
        forall|k: int|
            0 <= k < chain.len() && (#[trigger] chain[k]).bold is Some && (forall|j: int|
                0 <= j < k ==> (#[trigger] chain[j]).bold is None) ==> apply_chain(chain, base).bold
                == chain[k].bold->0,
        forall|k: int|
            0 <= k < chain.len() && (#[trigger] chain[k]).italic is Some && (forall|j: int|
                0 <= j < k ==> (#[trigger] chain[j]).italic is None) ==> apply_chain(
                chain,
                base,
            ).italic == chain[k].italic->0,
        forall|k: int|
            0 <= k < chain.len() && (#[trigger] chain[k]).strike is Some && (forall|j: int|
                0 <= j < k ==> (#[trigger] chain[j]).strike is None) ==> apply_chain(
                chain,
                base,
            ).strike == chain[k].strike->0,
        forall|k: int|
            0 <= k < chain.len() && (#[trigger] chain[k]).underline is Some && (forall|j: int|
                0 <= j < k ==> (#[trigger] chain[j]).underline is None) ==> apply_chain(
                chain,
                base,
            ).underline == chain[k].underline->0,
        forall|k: int|
            0 <= k < chain.len() && (#[trigger] chain[k]).script is Some && (forall|j: int|
                0 <= j < k ==> (#[trigger] chain[j]).script is None) ==> apply_chain(
                chain,
                base,
            ).script == chain[k].script->0,
        (forall|k: int| 0 <= k < chain.len() ==> (#[trigger] chain[k]).bold is None)
            ==> apply_chain(chain, base).bold == base.bold,
        (forall|k: int| 0 <= k < chain.len() ==> (#[trigger] chain[k]).italic is None)
            ==> apply_chain(chain, base).italic == base.italic,
        (forall|k: int| 0 <= k < chain.len() ==> (#[trigger] chain[k]).strike is None)
            ==> apply_chain(chain, base).strike == base.strike,
        (forall|k: int| 0 <= k < chain.len() ==> (#[trigger] chain[k]).underline is None)
            ==> apply_chain(chain, base).underline == base.underline,
        (forall|k: int| 0 <= k < chain.len() ==> (#[trigger] chain[k]).script is None)
            ==> apply_chain(chain, base).script == base.script,
{
    lemma_bold_is_decided(chain, base);
    lemma_italic_is_decided(chain, base);
    lemma_strike_is_decided(chain, base);
    lemma_underline_is_decided(chain, base);
    lemma_script_is_decided(chain, base);
}

proof fn lemma_bold_is_decided(chain: Seq<StyleView>, base: Fmt)
    ensures
        forall|k: int|
            0 <= k < chain.len() && (#[trigger] chain[k]).bold is Some && (forall|j: int|
                0 <= j < k ==> (#[trigger] chain[j]).bold is None) ==> apply_chain(
                chain,
                base,
            ).bold == chain[k].bold->0,
        (forall|k: int| 0 <= k < chain.len() ==> (#[trigger] chain[k]).bold is None)
            ==> apply_chain(chain, base).bold == base.bold,
    decreases chain.len(),
{
    if chain.len() > 0 {
        let rest = chain.skip(1);
        lemma_bold_is_decided(rest, base);
        assert forall|k: int|
            0 <= k < chain.len() && (#[trigger] chain[k]).bold is Some && (forall|j: int|
                0 <= j < k ==> (#[trigger] chain[j]).bold is None) implies apply_chain(
            chain,
            base,
        ).bold == chain[k].bold->0 by {
            if k > 0 {
                assert(chain[0].bold is None);
                assert(rest[k - 1] == chain[k]);
                assert forall|j: int| 0 <= j < k - 1 implies (#[trigger] rest[j]).bold is None by {
                    assert(chain[j + 1].bold is None);
                }
            }
        }
        if forall|k: int| 0 <= k < chain.len() ==> (#[trigger] chain[k]).bold is None {
            assert(chain[0].bold is None);
            assert forall|j: int| 0 <= j < rest.len() implies (#[trigger] rest[j]).bold is None by {
                assert(chain[j + 1].bold is None);
            }
        }
    }
}

proof fn lemma_italic_is_decided(chain: Seq<StyleView>, base: Fmt)
    ensures
        forall|k: int|
            0 <= k < chain.len() && (#[trigger] chain[k]).italic is Some && (forall|j: int|
                0 <= j < k ==> (#[trigger] chain[j]).italic is None) ==> apply_chain(
                chain,
                base,
            ).italic == chain[k].italic->0,
        (forall|k: int| 0 <= k < chain.len() ==> (#[trigger] chain[k]).italic is None)
            ==> apply_chain(chain, base).italic == base.italic,
    decreases chain.len(),
{
    if chain.len() > 0 {
        let rest = chain.skip(1);
        lemma_italic_is_decided(rest, base);
        assert forall|k: int|
            0 <= k < chain.len() && (#[trigger] chain[k]).italic is Some && (forall|j: int|
                0 <= j < k ==> (#[trigger] chain[j]).italic is None) implies apply_chain(
            chain,
            base,
        ).italic == chain[k].italic->0 by {
            if k > 0 {
                assert(chain[0].italic is None);
                assert(rest[k - 1] == chain[k]);
                assert forall|j: int| 0 <= j < k - 1 implies (#[trigger] rest[j]).italic is None by {
                    assert(chain[j + 1].italic is None);
                }
            }
        }
        if forall|k: int| 0 <= k < chain.len() ==> (#[trigger] chain[k]).italic is None {
            assert(chain[0].italic is None);
            assert forall|j: int| 0 <= j < rest.len() implies (#[trigger] rest[j]).italic is None by {
                assert(chain[j + 1].italic is None);
            }
        }
    }
}

proof fn lemma_strike_is_decided(chain: Seq<StyleView>, base: Fmt)
    ensures
        forall|k: int|
            0 <= k < chain.len() && (#[trigger] chain[k]).strike is Some && (forall|j: int|
                0 <= j < k ==> (#[trigger] chain[j]).strike is None) ==> apply_chain(
                chain,
                base,
            ).strike == chain[k].strike->0,
        (forall|k: int| 0 <= k < chain.len() ==> (#[trigger] chain[k]).strike is None)
            ==> apply_chain(chain, base).strike == base.strike,
    decreases chain.len(),
{
    if chain.len() > 0 {
        let rest = chain.skip(1);
        lemma_strike_is_decided(rest, base);
        assert forall|k: int|
            0 <= k < chain.len() && (#[trigger] chain[k]).strike is Some && (forall|j: int|
                0 <= j < k ==> (#[trigger] chain[j]).strike is None) implies apply_chain(
            chain,
            base,
        ).strike == chain[k].strike->0 by {
            if k > 0 {
                assert(chain[0].strike is None);
                assert(rest[k - 1] == chain[k]);
                assert forall|j: int| 0 <= j < k - 1 implies (#[trigger] rest[j]).strike is None by {
                    assert(chain[j + 1].strike is None);
                }
            }
        }
        if forall|k: int| 0 <= k < chain.len() ==> (#[trigger] chain[k]).strike is None {
            assert(chain[0].strike is None);
            assert forall|j: int| 0 <= j < rest.len() implies (#[trigger] rest[j]).strike is None by {
                assert(chain[j + 1].strike is None);
            }
        }
    }
}

proof fn lemma_underline_is_decided(chain: Seq<StyleView>, base: Fmt)
    ensures
        forall|k: int|
            0 <= k < chain.len() && (#[trigger] chain[k]).underline is Some && (forall|j: int|
                0 <= j < k ==> (#[trigger] chain[j]).underline is None) ==> apply_chain(
                chain,
                base,
            ).underline == chain[k].underline->0,
        (forall|k: int| 0 <= k < chain.len() ==> (#[trigger] chain[k]).underline is None)
            ==> apply_chain(chain, base).underline == base.underline,
    decreases chain.len(),
{
    if chain.len() > 0 {
        let rest = chain.skip(1);
        lemma_underline_is_decided(rest, base);
        assert forall|k: int|
            0 <= k < chain.len() && (#[trigger] chain[k]).underline is Some && (forall|j: int|
                0 <= j < k ==> (#[trigger] chain[j]).underline is None) implies apply_chain(
            chain,
            base,
        ).underline == chain[k].underline->0 by {
            if k > 0 {
                assert(chain[0].underline is None);
                assert(rest[k - 1] == chain[k]);
                assert forall|j: int| 0 <= j < k - 1 implies (#[trigger] rest[j]).underline is None by {
                    assert(chain[j + 1].underline is None);
                }
            }
        }
        if forall|k: int| 0 <= k < chain.len() ==> (#[trigger] chain[k]).underline is None {
            assert(chain[0].underline is None);
            assert forall|j: int| 0 <= j < rest.len() implies (#[trigger] rest[j]).underline is None by {
                assert(chain[j + 1].underline is None);
            }
        }
    }
}

proof fn lemma_script_is_decided(chain: Seq<StyleView>, base: Fmt)
    ensures
        forall|k: int|
            0 <= k < chain.len() && (#[trigger] chain[k]).script is Some && (forall|j: int|
                0 <= j < k ==> (#[trigger] chain[j]).script is None) ==> apply_chain(
                chain,
                base,
            ).script == chain[k].script->0,
        (forall|k: int| 0 <= k < chain.len() ==> (#[trigger] chain[k]).script is None)
            ==> apply_chain(chain, base).script == base.script,
    decreases chain.len(),
{
    if chain.len() > 0 {
        let rest = chain.skip(1);
        lemma_script_is_decided(rest, base);
        assert forall|k: int|
            0 <= k < chain.len() && (#[trigger] chain[k]).script is Some && (forall|j: int|
                0 <= j < k ==> (#[trigger] chain[j]).script is None) implies apply_chain(
            chain,
            base,
        ).script == chain[k].script->0 by {
            if k > 0 {
                assert(chain[0].script is None);
                assert(rest[k - 1] == chain[k]);
                assert forall|j: int| 0 <= j < k - 1 implies (#[trigger] rest[j]).script is None by {
                    assert(chain[j + 1].script is None);
                }
            }
        }
        if forall|k: int| 0 <= k < chain.len() ==> (#[trigger] chain[k]).script is None {
            assert(chain[0].script is None);
            assert forall|j: int| 0 <= j < rest.len() implies (#[trigger] rest[j]).script is None by {
                assert(chain[j + 1].script is None);
            }
        }
    }
}

/// No style, and a style that is not declared, leave the formatting as it is.
pub proof fn law_unknown_style_changes_nothing(
    styles: StylesView,
    name: Option<Seq<char>>,
    base: Fmt,
)
    requires
        name matches Some(n) ==> declared(styles.map, n) is None,
    ensures
        resolved(styles, name, base) == base,
{
}

/// What a style itself sets wins over what it derives from and over the formatting around it.
pub proof fn law_own_settings_win(styles: StylesView, name: Seq<char>, base: Fmt)
    requires
        declared(styles.map, name) is Some,
    ensures
        ({
            let info = declared(styles.map, name)->0;
            let fmt = resolved(styles, Some(name), base);
            &&& info.bold matches Some(b) ==> fmt.bold == b
            &&& info.italic matches Some(i) ==> fmt.italic == i
            &&& info.strike matches Some(s) ==> fmt.strike == s
            &&& info.underline matches Some(u) ==> fmt.underline == u
            &&& info.script matches Some(s) ==> fmt.script == s
        }),
{
    let info = declared(styles.map, name)->0;
    let chain = style_chain(styles.map, Some(name), Set::empty());
    assert(chain[0] == info);
}

} // verus!
