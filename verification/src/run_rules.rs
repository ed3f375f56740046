//! Laws of runs: which text a paragraph holds, in which formatting, and how it is written.

use vstd::prelude::*;

use crate::runs::{
    count_attr, escaped, inner_runs, markdown_of, merged, node_runs, run_markdown, run_texts,
    runs_markdown, RunView,
};
use crate::style_rules::{
    complete, law_the_nearest_style_decides, law_what_no_style_sets_stays, lineage, meant,
};
use crate::styles::{declared, law_unknown_style_changes_nothing, resolved, Fmt, StylesView};
use crate::text::{joined, nonempty, trim_end, unsigned_value};
use crate::xml::{attr_of, XmlView};

verus! {

// ---------------------------------------------------------------- collecting

proof fn lemma_inner_add(a: Seq<XmlView>, b: Seq<XmlView>, styles: StylesView, base: Fmt)
    ensures
        inner_runs(a + b, styles, base) == inner_runs(a, styles, base) + inner_runs(
            b,
            styles,
            base,
        ),
    decreases b.len(),
{
    if b.len() == 0 {
        assert(a + b =~= a);
        assert(inner_runs(a, styles, base) + inner_runs(b, styles, base) =~= inner_runs(
            a,
            styles,
            base,
        ));
    } else {
        assert((a + b).drop_last() =~= a + b.drop_last());
        lemma_inner_add(a, b.drop_last(), styles, base);
        assert(inner_runs(a + b, styles, base) =~= inner_runs(a, styles, base) + inner_runs(
            b,
            styles,
            base,
        ));
    }
}

proof fn lemma_inner_one(n: XmlView, styles: StylesView, base: Fmt)
    ensures
        inner_runs(seq![n], styles, base) == node_runs(n, styles, base),
{
    reveal_with_fuel(inner_runs, 2);
    assert(seq![n].drop_last() =~= Seq::<XmlView>::empty());
    assert(inner_runs(seq![n].drop_last(), styles, base) =~= Seq::empty());
    assert(inner_runs(seq![n], styles, base) =~= node_runs(n, styles, base));
}

/// The runs of siblings come one after another.
pub proof fn law_runs_follow_each_other(
    nodes: Seq<XmlView>,
    n: XmlView,
    styles: StylesView,
    base: Fmt,
)
    ensures
        inner_runs(Seq::empty(), styles, base).len() == 0,
        inner_runs(nodes.push(n), styles, base) == inner_runs(nodes, styles, base) + node_runs(
            n,
            styles,
            base,
        ),
{
    assert(nodes.push(n).drop_last() =~= nodes);
}

/// A text node is one run with its text, in the formatting around it.
pub proof fn law_text_is_a_run(n: XmlView, text: Seq<char>, styles: StylesView, base: Fmt)
    requires
        n.is_text,
        n.text == Some(text),
    ensures
        node_runs(n, styles, base) == seq![RunView { text, fmt: base }],
{
}

/// The number of spaces that an element stands for: as many as it says, where it says a number
/// that `usize` can hold, and else one.
pub open spec fn spaces(n: XmlView) -> int {
    if attr_of(n, "c"@) is Some && unsigned_value(attr_of(n, "c"@)->0) is Some && 0
        <= unsigned_value(attr_of(n, "c"@)->0)->0 <= usize::MAX {
        unsigned_value(attr_of(n, "c"@)->0)->0
    } else {
        1
    }
}

/// A line break is a line feed, a tab a tab character, and repeated spaces are so many spaces, all
/// in the formatting around them. A link and ruby text are what they hold. Any other element but a
/// span is nothing, and so is what is neither text nor an element.
pub proof fn law_elements_inside_a_paragraph(n: XmlView, styles: StylesView, base: Fmt)
    requires
        !n.is_text,
    ensures
        !n.is_element ==> node_runs(n, styles, base).len() == 0,
        n.is_element && n.name == "line-break"@ ==> node_runs(n, styles, base) == seq![
            RunView { text: seq!['\n'], fmt: base },
        ],
        n.is_element && n.name == "tab"@ ==> node_runs(n, styles, base) == seq![
            RunView { text: seq!['\t'], fmt: base },
        ],
        n.is_element && n.name == "s"@ ==> ({
            let runs = node_runs(n, styles, base);
            &&& runs.len() == 1
            &&& runs[0].fmt == base
            &&& runs[0].text.len() == spaces(n)
            &&& forall|k: int| 0 <= k < spaces(n) ==> #[trigger] runs[0].text[k] == ' '
        }),
        n.is_element && (n.name == "a"@ || n.name == "ruby"@ || n.name == "ruby-base"@)
            ==> node_runs(n, styles, base) == inner_runs(n.children, styles, base),
        n.is_element && n.name != "span"@ && n.name != "line-break"@ && n.name != "tab"@ && n.name
            != "s"@ && n.name != "a"@ && n.name != "ruby"@ && n.name != "ruby-base"@ ==> node_runs(
            n,
            styles,
            base,
        ).len() == 0,
{
    reveal_strlit("\n");
    reveal_strlit("\t");
    reveal_strlit("span");
    reveal_strlit("line-break");
    reveal_strlit("tab");
    reveal_strlit("s");
    reveal_strlit("a");
    reveal_strlit("ruby");
    reveal_strlit("ruby-base");
    assert("\n"@ =~= seq!['\n']);
    assert("\t"@ =~= seq!['\t']);
    assert("s"@[0] != "a"@[0]);
    assert("span"@[0] != "ruby"@[0]);
    assert("ruby-base"@.len() != "line-break"@.len());
    if n.is_element && n.name == "s"@ {
        assert("s"@.len() == 1 && "span"@.len() == 4 && "tab"@.len() == 3);
        assert(spaces(n) == count_attr(n, "c"@));
        assert(node_runs(n, styles, base)[0].text.len() == spaces(n));
    }
}

/// A text in a span has what the span's style sets, and everything that neither the style nor what
/// it derives from sets as it is around the span.
pub proof fn law_spans_change_what_they_set(
    span: XmlView,
    i: int,
    text: Seq<char>,
    styles: StylesView,
    names: Seq<Seq<char>>,
    base: Fmt,
)
    requires
        span.is_element,
        !span.is_text,
        span.name == "span"@,
        0 <= i < span.children.len(),
        span.children[i].is_text,
        span.children[i].text == Some(text),
        lineage(styles, names),
        complete(styles, names),
        attr_of(span, "style-name"@) == Some(names[0]),
    ensures
        exists|f: Fmt|
            {
                &&& #[trigger] node_runs(span, styles, base).contains(RunView { text, fmt: f })
                &&& f.bold == decided(
                    Seq::new(names.len(), |j: int| meant(styles, names[j]).bold),
                    base.bold,
                )
                &&& f.italic == decided(
                    Seq::new(names.len(), |j: int| meant(styles, names[j]).italic),
                    base.italic,
                )
                &&& f.strike == decided(
                    Seq::new(names.len(), |j: int| meant(styles, names[j]).strike),
                    base.strike,
                )
                &&& f.underline == decided(
                    Seq::new(names.len(), |j: int| meant(styles, names[j]).underline),
                    base.underline,
                )
                &&& f.script == decided(
                    Seq::new(names.len(), |j: int| meant(styles, names[j]).script),
                    base.script,
                )
            },
{
    let f = resolved(styles, Some(names[0]), base);
    lemma_text_inside(span.children, i, text, styles, f);
    assert(node_runs(span, styles, base) == inner_runs(span.children, styles, f));
    assert(node_runs(span, styles, base).contains(RunView { text, fmt: f }));
    law_what_no_style_sets_stays(styles, names, base);
    let bold = Seq::new(names.len(), |j: int| meant(styles, names[j]).bold);
    let italic = Seq::new(names.len(), |j: int| meant(styles, names[j]).italic);
    let strike = Seq::new(names.len(), |j: int| meant(styles, names[j]).strike);
    let underline = Seq::new(names.len(), |j: int| meant(styles, names[j]).underline);
    let script = Seq::new(names.len(), |j: int| meant(styles, names[j]).script);
    let k = lemma_decided(bold, base.bold);
    if k < names.len() {
        assert forall|j: int| 0 <= j < k implies meant(styles, #[trigger] names[j]).bold is None by {
            assert(bold[j] is None);
        }
        law_the_nearest_style_decides(styles, names, base, k);
    } else {
        assert forall|j: int| 0 <= j < names.len() implies meant(
            styles,
            #[trigger] names[j],
        ).bold is None by {
            assert(bold[j] is None);
        }
    }
    let k = lemma_decided(italic, base.italic);
    if k < names.len() {
        assert forall|j: int| 0 <= j < k implies meant(
            styles,
            #[trigger] names[j],
        ).italic is None by {
            assert(italic[j] is None);
        }
        law_the_nearest_style_decides(styles, names, base, k);
    } else {
        assert forall|j: int| 0 <= j < names.len() implies meant(
            styles,
            #[trigger] names[j],
        ).italic is None by {
            assert(italic[j] is None);
        }
    }
    let k = lemma_decided(strike, base.strike);
    if k < names.len() {
        assert forall|j: int| 0 <= j < k implies meant(
            styles,
            #[trigger] names[j],
        ).strike is None by {
            assert(strike[j] is None);
        }
        law_the_nearest_style_decides(styles, names, base, k);
    } else {
        assert forall|j: int| 0 <= j < names.len() implies meant(
            styles,
            #[trigger] names[j],
        ).strike is None by {
            assert(strike[j] is None);
        }
    }
    let k = lemma_decided(underline, base.underline);
    if k < names.len() {
        assert forall|j: int| 0 <= j < k implies meant(
            styles,
            #[trigger] names[j],
        ).underline is None by {
            assert(underline[j] is None);
        }
        law_the_nearest_style_decides(styles, names, base, k);
    } else {
        assert forall|j: int| 0 <= j < names.len() implies meant(
            styles,
            #[trigger] names[j],
        ).underline is None by {
            assert(underline[j] is None);
        }
    }
    let k = lemma_decided(script, base.script);
    if k < names.len() {
        assert forall|j: int| 0 <= j < k implies meant(
            styles,
            #[trigger] names[j],
        ).script is None by {
            assert(script[j] is None);
        }
        law_the_nearest_style_decides(styles, names, base, k);
    } else {
        assert forall|j: int| 0 <= j < names.len() implies meant(
            styles,
            #[trigger] names[j],
        ).script is None by {
            assert(script[j] is None);
        }
    }
}

/// The first setting that is there, and `other` where there is none.
pub open spec fn decided<T>(settings: Seq<Option<T>>, other: T) -> T
    decreases settings.len(),
{
    if settings.len() == 0 {
        other
    } else if settings[0] is Some {
        settings[0]->0
    } else {
        decided(settings.skip(1), other)
    }
}

proof fn lemma_decided<T>(settings: Seq<Option<T>>, other: T) -> (k: int)
    ensures
        0 <= k <= settings.len(),
        forall|j: int| 0 <= j < k ==> (#[trigger] settings[j]) is None,
        k < settings.len() ==> settings[k] is Some && decided(settings, other) == settings[k]->0,
        k == settings.len() ==> decided(settings, other) == other,
    decreases settings.len(),
{
    if settings.len() == 0 || settings[0] is Some {
        0
    } else {
        let k = lemma_decided(settings.skip(1), other);
        assert forall|j: int| 0 <= j < k + 1 implies (#[trigger] settings[j]) is None by {
            if j > 0 {
                assert(settings[j] == settings.skip(1)[j - 1]);
            }
        }
        k + 1
    }
}

proof fn lemma_text_inside(
    nodes: Seq<XmlView>,
    i: int,
    text: Seq<char>,
    styles: StylesView,
    base: Fmt,
)
    requires
        0 <= i < nodes.len(),
        nodes[i].is_text,
        nodes[i].text == Some(text),
    ensures
        inner_runs(nodes, styles, base).contains(RunView { text, fmt: base }),
    decreases nodes.len(),
{
    let run = RunView { text, fmt: base };
    let all = inner_runs(nodes, styles, base);
    let before = inner_runs(nodes.drop_last(), styles, base);
    if i < nodes.len() - 1 {
        lemma_text_inside(nodes.drop_last(), i, text, styles, base);
        let k = choose|k: int| 0 <= k < before.len() && before[k] == run;
        assert(all[k] == run);
    } else {
        law_text_is_a_run(nodes[i], text, styles, base);
        assert(all == before + node_runs(nodes.last(), styles, base));
        assert(node_runs(nodes.last(), styles, base)[0] == run);
        assert(all[before.len() as int] == run);
    }
}

/// A span without a style, and one whose style is not declared, is as if its children stood in its
/// place.
pub proof fn law_spans_without_a_style_are_nothing(
    before: Seq<XmlView>,
    span: XmlView,
    after: Seq<XmlView>,
    styles: StylesView,
    base: Fmt,
)
    requires
        span.is_element,
        !span.is_text,
        span.name == "span"@,
        attr_of(span, "style-name"@) is None || declared(
            styles.map,
            attr_of(span, "style-name"@)->0,
        ) is None,
    ensures
        inner_runs(before.push(span) + after, styles, base) == inner_runs(
            before + span.children + after,
            styles,
            base,
        ),
{
    law_unknown_style_changes_nothing(styles, attr_of(span, "style-name"@), base);
    assert(node_runs(span, styles, base) == inner_runs(span.children, styles, base));
    law_runs_follow_each_other(before, span, styles, base);
    lemma_inner_add(before.push(span), after, styles, base);
    lemma_inner_add(before + span.children, after, styles, base);
    lemma_inner_add(before, span.children, styles, base);
}

/// Spans inside spans: the inner one changes what the outer one has made of the formatting.
pub proof fn law_spans_nest(outer: XmlView, inner: XmlView, styles: StylesView, base: Fmt)
    requires
        outer.is_element,
        !outer.is_text,
        outer.name == "span"@,
        outer.children == seq![inner],
        inner.is_element,
        !inner.is_text,
        inner.name == "span"@,
    ensures
        node_runs(outer, styles, base) == inner_runs(
            inner.children,
            styles,
            resolved(
                styles,
                attr_of(inner, "style-name"@),
                resolved(styles, attr_of(outer, "style-name"@), base),
            ),
        ),
{
    let f = resolved(styles, attr_of(outer, "style-name"@), base);
    lemma_inner_one(inner, styles, f);
}

// ---------------------------------------------------------------- writing

/// An underscore gets a backslash, the characters that HTML reserves become entities, and every
/// other character stays as it is.
pub proof fn law_characters_are_escaped(s: Seq<char>, c: char)
    ensures
        escaped(Seq::empty()).len() == 0,
        escaped(s.push(c)) == escaped(s) + (if c == '_' {
            seq!['\\', '_']
        } else if c == '&' {
            seq!['&', 'a', 'm', 'p', ';']
        } else if c == '<' {
            seq!['&', 'l', 't', ';']
        } else if c == '>' {
            seq!['&', 'g', 't', ';']
        } else {
            seq![c]
        }),
{
    assert(s.push(c).drop_last() =~= s);
    reveal_strlit("\\_");
    reveal_strlit("&amp;");
    reveal_strlit("&lt;");
    reveal_strlit("&gt;");
    assert("\\_"@ =~= seq!['\\', '_']);
    assert("&amp;"@ =~= seq!['&', 'a', 'm', 'p', ';']);
    assert("&lt;"@ =~= seq!['&', 'l', 't', ';']);
    assert("&gt;"@ =~= seq!['&', 'g', 't', ';']);
}

/// A run without text is written as nothing. One with text is escaped, and each kind of formatting
/// puts its marks around it: bold innermost, then italic, then what is struck through. Underlines
/// and the position of the text leave no marks.
pub proof fn law_marks_stand_around_a_run(text: Seq<char>, fmt: Fmt)
    ensures
        text.len() == 0 ==> run_markdown(text, fmt).len() == 0,
        text.len() > 0 && !fmt.bold && !fmt.italic && !fmt.strike ==> run_markdown(text, fmt)
            == escaped(text),
        text.len() > 0 && fmt.bold && !fmt.italic && !fmt.strike ==> run_markdown(text, fmt)
            == seq!['*', '*'] + escaped(text) + seq!['*', '*'],
        text.len() > 0 && fmt.italic && !fmt.strike ==> run_markdown(text, fmt) == seq!['*']
            + run_markdown(text, Fmt { italic: false, ..fmt }) + seq!['*'],
        text.len() > 0 && fmt.strike ==> run_markdown(text, fmt) == seq!['~', '~'] + run_markdown(
            text,
            Fmt { strike: false, ..fmt },
        ) + seq!['~', '~'],
{
    reveal_strlit("**");
    reveal_strlit("*");
    reveal_strlit("~~");
    assert("**"@ =~= seq!['*', '*']);
    assert("*"@ =~= seq!['*']);
    assert("~~"@ =~= seq!['~', '~']);
}

proof fn lemma_merged_same(a: Seq<RunView>, b: Seq<RunView>, c: Seq<RunView>)
    requires
        merged(a) == merged(b),
    ensures
        merged(a + c) == merged(b + c),
    decreases c.len(),
{
    if c.len() == 0 {
        assert(a + c =~= a);
        assert(b + c =~= b);
    } else {
        assert((a + c).drop_last() =~= a + c.drop_last());
        assert((b + c).drop_last() =~= b + c.drop_last());
        lemma_merged_same(a, b, c.drop_last());
    }
}

/// Neighbouring runs of one formatting are written as one run with the texts of both.
pub proof fn law_runs_of_one_formatting_are_one(
    before: Seq<RunView>,
    a: RunView,
    b: RunView,
    after: Seq<RunView>,
)
    requires
        a.fmt == b.fmt,
    ensures
        runs_markdown(before.push(a).push(b) + after) == runs_markdown(
            before.push(RunView { text: a.text + b.text, fmt: a.fmt }) + after,
        ),
{
    let both = RunView { text: a.text + b.text, fmt: a.fmt };
    let two = before.push(a).push(b);
    let one = before.push(both);
    assert(two.drop_last() =~= before.push(a));
    assert(before.push(a).drop_last() =~= before);
    assert(one.drop_last() =~= before);
    let m = merged(before);
    if m.len() > 0 && m.last().fmt == a.fmt {
        let joint = RunView { text: m.last().text + a.text, fmt: a.fmt };
        assert(merged(before.push(a)) == m.drop_last().push(joint));
        assert(m.drop_last().push(joint).drop_last() =~= m.drop_last());
        assert(m.last().text + a.text + b.text =~= m.last().text + (a.text + b.text));
    } else {
        assert(merged(before.push(a)) == m.push(a));
        assert(m.push(a).drop_last() =~= m);
    }
    assert(merged(two) =~= merged(one));
    lemma_merged_same(two, one, after);
}

/// Runs whose neighbours differ in their formatting are written one by one, with a space between
/// those that are not empty, and without the white space at the end.
pub proof fn law_runs_of_other_formatting_stand_apart(runs: Seq<RunView>)
    requires
        forall|i: int|
            0 < i < runs.len() ==> runs[i - 1].fmt != (#[trigger] runs[i]).fmt,
    ensures
        runs_markdown(runs) == trim_end(
            joined(
                nonempty(Seq::new(runs.len(), |i: int| run_markdown(runs[i].text, runs[i].fmt))),
                seq![' '],
            ),
        ),
{
    lemma_nothing_merged(runs);
    reveal_strlit(" ");
    assert(" "@ =~= seq![' ']);
    assert(run_texts(runs) =~= Seq::new(
        runs.len(),
        |i: int| run_markdown(runs[i].text, runs[i].fmt),
    ));
}

proof fn lemma_nothing_merged(runs: Seq<RunView>)
    requires
        forall|i: int|
            0 < i < runs.len() ==> runs[i - 1].fmt != (#[trigger] runs[i]).fmt,
    ensures
        merged(runs) == runs,
    decreases runs.len(),
{
    if runs.len() > 0 {
        let fewer = runs.drop_last();
        assert forall|i: int| 0 < i < fewer.len() implies fewer[i - 1].fmt != (
        #[trigger] fewer[i]).fmt by {
            assert(runs[i - 1].fmt != runs[i].fmt);
        }
        lemma_nothing_merged(fewer);
        if fewer.len() > 0 {
            assert(runs[runs.len() - 2].fmt != runs[runs.len() - 1].fmt);
        }
        assert(merged(runs) =~= runs);
    } else {
        assert(merged(runs) =~= runs);
    }
}

/// A paragraph is written as its runs are, in formatting that is plain where no span changes it.
pub proof fn law_paragraphs_start_plain(el: XmlView, styles: StylesView)
    ensures
        markdown_of(el, styles) == runs_markdown(
            inner_runs(
                el.children,
                styles,
                (Fmt { bold: false, italic: false, strike: false, underline: false, script: 0 }),
            ),
        ),
{
}

} // verus!
