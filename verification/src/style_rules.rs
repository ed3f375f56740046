//! Laws of styles: which declaration counts, what it sets, and what it leaves as it is.

use vstd::prelude::*;

use crate::styles::{
    bold_weight, declared, declared_level, known_names, law_most_derived_style_wins,
    lemma_declared_name, levels_of, list_entries, names_of, resolved, script_of, style_chain,
    style_entries, style_of, styles_of, Fmt, Levels, OdfLevel, StyleView, StylesView,
};
use crate::text::signed_value;
use crate::xml::{all_nodes_of, attr_of, XmlView};
use crate::xml_rules::law_the_first_element_counts;

verus! {

// ---------------------------------------------------------------- declarations

/// Of several declarations under one name the last counts.
pub proof fn law_the_last_declaration_counts<T>(
    entries: Seq<(Seq<char>, T)>,
    name: Seq<char>,
    value: T,
    asked: Seq<char>,
)
    ensures
        declared(Seq::<(Seq<char>, T)>::empty(), asked) is None,
        asked == name ==> declared(entries.push((name, value)), asked) == Some(value),
        asked != name ==> declared(entries.push((name, value)), asked) == declared(entries, asked),
{
    assert(entries.push((name, value)).drop_last() =~= entries);
}

/// Of several declarations of one level the last counts.
pub proof fn law_the_last_level_counts(levels: Levels, level: i64, value: OdfLevel, asked: int)
    ensures
        declared_level(Seq::empty(), asked) is None,
        asked == level ==> declared_level(levels.push((level, value)), asked) == Some(value),
        asked != level ==> declared_level(levels.push((level, value)), asked) == declared_level(
            levels,
            asked,
        ),
{
    assert(levels.push((level, value)).drop_last() =~= levels);
}

/// A further node of a document declares a style where it is a style element with a name, and a
/// list style where it is a list style element with a name.
pub proof fn law_styles_are_declared_by_name(nodes: Seq<XmlView>, n: XmlView)
    ensures
        style_entries(Seq::empty()).len() == 0,
        list_entries(Seq::empty()).len() == 0,
        style_entries(nodes.push(n)) == (if n.is_element && n.name == "style"@ && attr_of(
            n,
            "name"@,
        ) is Some {
            style_entries(nodes).push((attr_of(n, "name"@)->0, style_of(n)))
        } else {
            style_entries(nodes)
        }),
        list_entries(nodes.push(n)) == (if n.is_element && n.name == "list-style"@ && attr_of(
            n,
            "name"@,
        ) is Some {
            list_entries(nodes).push((attr_of(n, "name"@)->0, levels_of(n.children)))
        } else {
            list_entries(nodes)
        }),
{
    assert(nodes.push(n).drop_last() =~= nodes);
}

proof fn lemma_declared_behind<T>(
    a: Seq<(Seq<char>, T)>,
    b: Seq<(Seq<char>, T)>,
    name: Seq<char>,
)
    ensures
        declared(a + b, name) == (if declared(b, name) is Some {
            declared(b, name)
        } else {
            declared(a, name)
        }),
    decreases b.len(),
{
    if b.len() == 0 {
        assert(a + b =~= a);
    } else {
        assert((a + b).drop_last() =~= a + b.drop_last());
        lemma_declared_behind(a, b.drop_last(), name);
    }
}

/// What the style sheet declares wins over what the document declares under the same name, and
/// what only one of them declares stands. Without a style sheet the document alone decides.
pub proof fn law_the_style_sheet_wins(content: Seq<XmlView>, sheet: Seq<XmlView>, name: Seq<char>)
    ensures
        ({
            let both = styles_of(content, Some(sheet));
            let own = style_entries(all_nodes_of(content));
            let shared = style_entries(all_nodes_of(sheet));
            let own_lists = list_entries(all_nodes_of(content));
            let shared_lists = list_entries(all_nodes_of(sheet));
            &&& declared(shared, name) is Some ==> declared(both.map, name) == declared(shared, name)
            &&& declared(shared, name) is None ==> declared(both.map, name) == declared(own, name)
            &&& declared(shared_lists, name) is Some ==> declared(both.lists, name) == declared(
                shared_lists,
                name,
            )
            &&& declared(shared_lists, name) is None ==> declared(both.lists, name) == declared(
                own_lists,
                name,
            )
            &&& styles_of(content, None).map == own
            &&& styles_of(content, None).lists == own_lists
        }),
{
    let own = style_entries(all_nodes_of(content));
    let own_lists = list_entries(all_nodes_of(content));
    lemma_declared_behind(own, style_entries(all_nodes_of(sheet)), name);
    lemma_declared_behind(own_lists, list_entries(all_nodes_of(sheet)), name);
    assert(style_entries(Seq::empty()).len() == 0);
    assert(list_entries(Seq::empty()).len() == 0);
    assert(styles_of(content, None).map =~= own);
    assert(styles_of(content, None).lists =~= own_lists);
}

/// A style says what its own attributes say of its parent and its display name, and of the
/// formatting what the attributes of its text properties say. Without text properties it sets
/// nothing.
pub proof fn law_what_a_style_sets(s: XmlView, at: int)
    requires
        0 <= at <= s.children.len(),
        forall|k: int|
            0 <= k < at ==> !((#[trigger] s.children[k]).is_element && s.children[k].name
                == "text-properties"@),
        at < s.children.len() ==> s.children[at].is_element && s.children[at].name
            == "text-properties"@,
    ensures
        style_of(s).parent == attr_of(s, "parent-style-name"@),
        style_of(s).display_name == attr_of(s, "display-name"@),
        at == s.children.len() ==> style_of(s).bold is None && style_of(s).italic is None
            && style_of(s).strike is None && style_of(s).underline is None && style_of(
            s,
        ).script is None,
        at < s.children.len() ==> ({
            let weight = attr_of(s.children[at], "font-weight"@);
            let slant = attr_of(s.children[at], "font-style"@);
            let through = attr_of(s.children[at], "text-line-through-style"@);
            let under = attr_of(s.children[at], "text-underline-style"@);
            let position = attr_of(s.children[at], "text-position"@);
            &&& style_of(s).bold is Some <==> weight is Some
            &&& style_of(s).italic is Some <==> slant is Some
            &&& style_of(s).strike is Some <==> through is Some
            &&& style_of(s).underline is Some <==> under is Some
            &&& style_of(s).script is Some <==> position is Some
            &&& weight is Some ==> style_of(s).bold == Some(bold_weight(weight->0))
            &&& slant is Some ==> style_of(s).italic == Some(
                slant->0 == "italic"@ || slant->0 == "oblique"@,
            )
            &&& through is Some ==> style_of(s).strike == Some(through->0 != "none"@)
            &&& under is Some ==> style_of(s).underline == Some(under->0 != "none"@)
            &&& position is Some ==> style_of(s).script == Some(script_of(position->0))
        }),
{
    law_the_first_element_counts(s.children, "text-properties"@, at);
}

/// A font weight is bold where it is the word bold, or a number from 600 on that is not above the
/// largest one of 32 bits; any other number and any other word is not.
pub proof fn law_bold_weights(v: Seq<char>)
    ensures
        bold_weight("bold"@),
        v != "bold"@ && signed_value(v) is None ==> !bold_weight(v),
        v != "bold"@ && signed_value(v) is Some ==> (bold_weight(v) <==> 600 <= signed_value(v)->0
            <= 0x7fff_ffff),
{
}

/// A text position that begins with `super` is a superscript, one that begins with `sub` a
/// subscript, and any other one neither.
pub proof fn law_text_positions(rest: Seq<char>, v: Seq<char>)
    ensures
        script_of(seq!['s', 'u', 'p', 'e', 'r'] + rest) == 2,
        script_of(seq!['s', 'u', 'b'] + rest) == 1,
        v.len() < 3 || v[0] != 's' || v[1] != 'u' || (v[2] != 'b' && (v.len() < 5 || v[2] != 'p'
            || v[3] != 'e' || v[4] != 'r')) ==> script_of(v) == 0,
{
    reveal_strlit("super");
    reveal_strlit("sub");
    let a = seq!['s', 'u', 'p', 'e', 'r'] + rest;
    assert("super"@ =~= a.take(5));
    assert("super"@.is_prefix_of(a)) by {
        assert("super"@ =~= a.subrange(0, 5));
    }
    let b = seq!['s', 'u', 'b'] + rest;
    assert("sub"@.is_prefix_of(b)) by {
        assert("sub"@ =~= b.subrange(0, 3));
    }
    if "super"@.is_prefix_of(b) {
        assert("super"@[2] == b[2]);
    }
    if "super"@.is_prefix_of(v) {
        assert("super"@[0] == v[0]);
        assert("super"@[1] == v[1]);
        assert("super"@[2] == v[2]);
        assert("super"@[3] == v[3]);
        assert("super"@[4] == v[4]);
    }
    if "sub"@.is_prefix_of(v) {
        assert("sub"@[0] == v[0]);
        assert("sub"@[1] == v[1]);
        assert("sub"@[2] == v[2]);
    }
}

/// The number that an attribute spells, or `other` where it spells none that 64 bits hold.
pub open spec fn spelled(n: XmlView, name: Seq<char>, other: int) -> int {
    if attr_of(n, name) is Some && signed_value(attr_of(n, name)->0) is Some && -0x8000_0000_0000_0000
        <= signed_value(attr_of(n, name)->0)->0 <= 0x7fff_ffff_ffff_ffff {
        signed_value(attr_of(n, name)->0)->0
    } else {
        other
    }
}

/// Every element in a list style declares the level that it names, or level one; it is numbered
/// where the element is the one for numbers, and it starts at the value that the element names, at
/// one or above. What is no element declares nothing.
pub proof fn law_what_a_list_style_says(nodes: Seq<XmlView>, n: XmlView)
    ensures
        levels_of(Seq::empty()).len() == 0,
        !n.is_element ==> levels_of(nodes.push(n)) == levels_of(nodes),
        n.is_element ==> ({
            let all = levels_of(nodes.push(n));
            let last = all.last();
            &&& all.len() == levels_of(nodes).len() + 1
            &&& all.drop_last() == levels_of(nodes)
            &&& last.0 == spelled(n, "level"@, 1)
            &&& last.1.numbered == (n.name == "list-level-style-number"@)
            &&& last.1.start == (if spelled(n, "start-value"@, 1) < 1 {
                1
            } else {
                spelled(n, "start-value"@, 1)
            })
        }),
{
    assert(nodes.push(n).drop_last() =~= nodes);
    if n.is_element {
        assert(levels_of(nodes.push(n)).drop_last() =~= levels_of(nodes));
    }
}

/// A paragraph style is known under its own name, under that of its parent and under its display
/// name, and under no other; a paragraph without a style is known under none.
pub proof fn law_names_of_a_style(styles: StylesView, name: Seq<char>, asked: Seq<char>)
    ensures
        !known_names(styles, None).contains(asked),
        known_names(styles, Some(name)).contains(asked) <==> {
            ||| asked == name
            ||| declared(styles.map, name) is Some && declared(styles.map, name)->0.parent == Some(
                asked,
            )
            ||| declared(styles.map, name) is Some && declared(styles.map, name)->0.display_name
                == Some(asked)
        },
{
    let names = known_names(styles, Some(name));
    assert(names[0] == name);
    match declared(styles.map, name) {
        None => {},
        Some(info) => {
            match (info.parent, info.display_name) {
                (Some(p), Some(d)) => {
                    assert(names =~= seq![name, p, d]);
                    assert(names[1] == p);
                    assert(names[2] == d);
                },
                (Some(p), None) => {
                    assert(names =~= seq![name, p]);
                    assert(names[1] == p);
                },
                (None, Some(d)) => {
                    assert(names =~= seq![name, d]);
                    assert(names[1] == d);
                },
                (None, None) => {
                    assert(names =~= seq![name]);
                },
            }
        },
    }
}

// ---------------------------------------------------------------- formatting

/// What is declared under a name.
pub open spec fn meant(styles: StylesView, name: Seq<char>) -> StyleView {
    declared(styles.map, name)->0
}

/// Whether the given names are those of a style and what it derives from in turn, each declared
/// and each once.
pub open spec fn lineage(styles: StylesView, names: Seq<Seq<char>>) -> bool {
    &&& names.len() > 0
    &&& forall|i: int, j: int| 0 <= i < j < names.len() ==> #[trigger] names[i] != #[trigger] names[j]
    &&& forall|i: int| 0 <= i < names.len() ==> declared(styles.map, #[trigger] names[i]) is Some
    &&& forall|i: int|
        0 < i < names.len() ==> meant(styles, names[i - 1]).parent == Some(#[trigger] names[i])
}

/// Whether a lineage goes on no further: the last style derives from none, from one that is not
/// declared, or from one that is in the lineage.
pub open spec fn complete(styles: StylesView, names: Seq<Seq<char>>) -> bool {
    let parent = meant(styles, names.last()).parent;
    parent is None || declared(styles.map, parent->0) is None || names.contains(parent->0)
}

proof fn lemma_lineage(
    styles: StylesView,
    names: Seq<Seq<char>>,
    from: int,
    seen: Set<Seq<char>>,
)
    requires
        lineage(styles, names),
        0 <= from < names.len(),
        forall|k: int| 0 <= k < from ==> seen.contains(#[trigger] names[k]),
        forall|k: int| from <= k < names.len() ==> !seen.contains(#[trigger] names[k]),
    ensures
        ({
            let chain = style_chain(styles.map, Some(names[from]), seen);
            &&& chain.len() >= names.len() - from
            &&& complete(styles, names) ==> chain.len() == names.len() - from
            &&& forall|k: int|
                from <= k < names.len() ==> chain[k - from] == meant(styles, #[trigger] names[k])
        }),
    decreases names.len() - from,
{
    let chain = style_chain(styles.map, Some(names[from]), seen);
    let info = meant(styles, names[from]);
    let now = seen.insert(names[from]);
    let rest = style_chain(styles.map, info.parent, now);
    lemma_declared_name(styles.map, names[from], seen);
    assert(chain =~= seq![info] + rest);
    if from + 1 < names.len() {
        assert(info.parent == Some(names[from + 1]));
        assert forall|k: int| from + 1 <= k < names.len() implies !now.contains(
            #[trigger] names[k],
        ) by {
            assert(names[from] != names[k]);
        }
        lemma_lineage(styles, names, from + 1, now);
        assert forall|k: int| from <= k < names.len() implies chain[k - from] == meant(
            styles,
            #[trigger] names[k],
        ) by {
            if k > from {
                assert(chain[k - from] == rest[k - (from + 1)]);
            }
        }
    } else if complete(styles, names) {
        if info.parent is Some && declared(styles.map, info.parent->0) is Some {
            let k = choose|k: int| 0 <= k < names.len() && names[k] == info.parent->0;
            assert(now.contains(names[k]));
        }
        assert(rest.len() == 0);
    }
}

/// The nearest style of a lineage that sets a property decides it.
pub proof fn law_the_nearest_style_decides(
    styles: StylesView,
    names: Seq<Seq<char>>,
    base: Fmt,
    k: int,
)
    requires
        lineage(styles, names),
        0 <= k < names.len(),
    ensures
        ({
            let fmt = resolved(styles, Some(names[0]), base);
            let set = meant(styles, names[k]);
            &&& set.bold is Some && (forall|j: int|
                0 <= j < k ==> meant(styles, #[trigger] names[j]).bold is None) ==> fmt.bold
                == set.bold->0
            &&& set.italic is Some && (forall|j: int|
                0 <= j < k ==> meant(styles, #[trigger] names[j]).italic is None) ==> fmt.italic
                == set.italic->0
            &&& set.strike is Some && (forall|j: int|
                0 <= j < k ==> meant(styles, #[trigger] names[j]).strike is None) ==> fmt.strike
                == set.strike->0
            &&& set.underline is Some && (forall|j: int|
                0 <= j < k ==> meant(styles, #[trigger] names[j]).underline is None)
                ==> fmt.underline == set.underline->0
            &&& set.script is Some && (forall|j: int|
                0 <= j < k ==> meant(styles, #[trigger] names[j]).script is None) ==> fmt.script
                == set.script->0
        }),
{
    let chain = style_chain(styles.map, Some(names[0]), Set::empty());
    lemma_lineage(styles, names, 0, Set::empty());
    law_most_derived_style_wins(chain, base);
    assert forall|j: int| 0 <= j <= k implies #[trigger] chain[j] == meant(styles, names[j]) by {
        assert(chain[j - 0] == meant(styles, names[j]));
    }
    assert(chain[k] == meant(styles, names[k]));
}

/// A property that no style of a complete lineage sets stays as it is around them.
pub proof fn law_what_no_style_sets_stays(styles: StylesView, names: Seq<Seq<char>>, base: Fmt)
    requires
        lineage(styles, names),
        complete(styles, names),
    ensures
        ({
            let fmt = resolved(styles, Some(names[0]), base);
            &&& (forall|j: int|
                0 <= j < names.len() ==> meant(styles, #[trigger] names[j]).bold is None)
                ==> fmt.bold == base.bold
            &&& (forall|j: int|
                0 <= j < names.len() ==> meant(styles, #[trigger] names[j]).italic is None)
                ==> fmt.italic == base.italic
            &&& (forall|j: int|
                0 <= j < names.len() ==> meant(styles, #[trigger] names[j]).strike is None)
                ==> fmt.strike == base.strike
            &&& (forall|j: int|
                0 <= j < names.len() ==> meant(styles, #[trigger] names[j]).underline is None)
                ==> fmt.underline == base.underline
            &&& (forall|j: int|
                0 <= j < names.len() ==> meant(styles, #[trigger] names[j]).script is None)
                ==> fmt.script == base.script
        }),
{
    let chain = style_chain(styles.map, Some(names[0]), Set::empty());
    lemma_lineage(styles, names, 0, Set::empty());
    law_most_derived_style_wins(chain, base);
    assert forall|j: int| 0 <= j < chain.len() implies #[trigger] chain[j] == meant(
        styles,
        names[j],
    ) by {
        assert(chain[j - 0] == meant(styles, names[j]));
    }
}

/// Every declared style has a complete lineage.
pub proof fn law_every_style_has_a_lineage(styles: StylesView, name: Seq<char>) -> (names: Seq<
    Seq<char>,
>)
    requires
        declared(styles.map, name) is Some,
    ensures
        lineage(styles, names),
        complete(styles, names),
        names[0] == name,
{
    let one = seq![name];
    let seen = Set::<Seq<char>>::empty().insert(name);
    assert(one[0] == name);
    assert forall|n: Seq<char>| #[trigger] seen.contains(n) <==> one.contains(n) by {
        if one.contains(n) {
            let k = choose|k: int| 0 <= k < one.len() && one[k] == n;
            assert(k == 0);
        }
    }
    lemma_grow(styles, one, seen)
}

proof fn lemma_grow(styles: StylesView, names: Seq<Seq<char>>, seen: Set<Seq<char>>) -> (all: Seq<
    Seq<char>,
>)
    requires
        lineage(styles, names),
        forall|n: Seq<char>| #[trigger] seen.contains(n) <==> names.contains(n),
    ensures
        lineage(styles, all),
        complete(styles, all),
        all[0] == names[0],
    decreases names_of(styles.map).difference(seen).len(),
{
    if complete(styles, names) {
        names
    } else {
        let next = meant(styles, names.last()).parent->0;
        lemma_declared_name(styles.map, next, seen);
        let more = names.push(next);
        let now = seen.insert(next);
        assert forall|i: int, j: int| 0 <= i < j < more.len() implies #[trigger] more[i]
            != #[trigger] more[j] by {
            if j == names.len() {
                assert(names.contains(names[i]));
            }
        }
        assert forall|i: int| 0 < i < more.len() implies meant(styles, more[i - 1]).parent == Some(
            #[trigger] more[i],
        ) by {
            if i < names.len() {
                assert(meant(styles, names[i - 1]).parent == Some(names[i]));
            }
        }
        assert forall|n: Seq<char>| #[trigger] now.contains(n) <==> more.contains(n) by {
            if names.contains(n) {
                let k = choose|k: int| 0 <= k < names.len() && names[k] == n;
                assert(more[k] == n);
            }
            assert(more[names.len() as int] == next);
            if more.contains(n) && n != next {
                let k = choose|k: int| 0 <= k < more.len() && more[k] == n;
                assert(names[k] == n);
            }
        }
        lemma_grow(styles, more, now)
    }
}

} // verus!
