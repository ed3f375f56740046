//! Runs of formatted text, and the Markdown that they are written as.

use vstd::prelude::*;

use crate::styles::{plain, resolve_fmt, resolved, Fmt, Styles, StylesView};
use crate::text::{
    in_range, is_space, join, joined, law_trimmed_end, lemma_nonempty_push, nonempty, parse_usize,
    spaces, texts, trim_end, unsigned_value, without_trailing_space,
};
use crate::xml::{attr, attr_of, is_tag, lemma_children_view, nodes_view, XmlNode, XmlView};

verus! {

/// One run of text with its formatting.
pub struct Run {
    pub text: String,
    pub fmt: Fmt,
}

/// The mathematical form of [`Run`].
#[verifier::ext_equal]
pub struct RunView {
    pub text: Seq<char>,
    pub fmt: Fmt,
}

impl View for Run {
    type V = RunView;

    open spec fn view(&self) -> RunView {
        RunView { text: self.text@, fmt: self.fmt }
    }
}

/// The mathematical forms of a list of runs.
pub open spec fn runs_view(runs: Seq<Run>) -> Seq<RunView> {
    runs.map_values(|r: Run| r@)
}

/// The number that an attribute spells, where it is one that `usize` can hold, and else one.
pub open spec fn count_attr(n: XmlView, name: Seq<char>) -> int {
    match attr_of(n, name) {
        Some(v) => match in_range(unsigned_value(v), 0, usize::MAX as int) {
            Some(k) => k,
            None => 1,
        },
        None => 1,
    }
}

/// The number that an attribute spells, where it is one that `usize` can hold, and else one.
pub fn usize_attr(node: &XmlNode, name: &str) -> (n: usize)
    ensures
        n == count_attr(node@, name@),
{
    match attr(node, name) {
        Some(v) => match parse_usize(v) {
            Some(k) => k,
            None => 1,
        },
        None => 1,
    }
}

// ---------------------------------------------------------------- collecting

/// The runs of one node inside a paragraph.
///
/// Spans change the formatting, links and ruby text are looked into, line breaks, tabs and
/// repeated spaces become the characters that they stand for, and other elements are left out.
pub open spec fn node_runs(n: XmlView, styles: StylesView, base: Fmt) -> Seq<RunView>
    decreases n,
{
    if n.is_text {
        match n.text {
            Some(t) => seq![RunView { text: t, fmt: base }],
            None => Seq::empty(),
        }
    } else if is_tag(n, "span"@) {
        inner_runs(n.children, styles, resolved(styles, attr_of(n, "style-name"@), base))
    } else if is_tag(n, "line-break"@) {
        seq![RunView { text: "\n"@, fmt: base }]
    } else if is_tag(n, "tab"@) {
        seq![RunView { text: "\t"@, fmt: base }]
    } else if is_tag(n, "s"@) {
        seq![RunView { text: Seq::new(count_attr(n, "c"@) as nat, |i: int| ' '), fmt: base }]
    } else if is_tag(n, "a"@) || is_tag(n, "ruby"@) || is_tag(n, "ruby-base"@) {
        inner_runs(n.children, styles, base)
    } else {
        Seq::empty()
    }
}

/// The runs of a list of siblings, one after another.
pub open spec fn inner_runs(nodes: Seq<XmlView>, styles: StylesView, base: Fmt) -> Seq<RunView>
    decreases nodes,
{
    if nodes.len() == 0 {
        Seq::empty()
    } else {
        inner_runs(nodes.drop_last(), styles, base) + node_runs(nodes.last(), styles, base)
    }
}

/// Appends the runs of a paragraph or heading.
pub fn collect_runs(el: &XmlNode, styles: &Styles, base: Fmt, out: &mut Vec<Run>)
    ensures
        runs_view(final(out)@) == runs_view(old(out)@) + inner_runs(el@.children, styles@, base),
    decreases el@, 0nat,
{
    proof {
        lemma_children_view(el);
    }
    let ghost all = nodes_view(el.children@);
    let mut i: usize = 0;
    while i < el.children.len()
        invariant
            i <= el.children@.len(),
            all == nodes_view(el.children@),
            all == el@.children,
            runs_view(out@) =~= runs_view(old(out)@) + inner_runs(
                all.take(i as int),
                styles@,
                base,
            ),
        decreases el.children@.len() - i,
    {
        let child = &el.children[i];
        let ghost before = runs_view(out@);
        assert(child@ == all[i as int]);
        assert(all.take(i as int + 1).drop_last() =~= all.take(i as int));
        assert(all.take(i as int + 1).last() == child@);
        assert(decreases_to!(el@ => el@.children));
        assert(decreases_to!(all => all[i as int]));
        collect_node(child, styles, base, out);
        i += 1;
    }
    assert(all.take(i as int) =~= all);
}

/// Appends the runs of one node inside a paragraph.
fn collect_node(child: &XmlNode, styles: &Styles, base: Fmt, out: &mut Vec<Run>)
    ensures
        runs_view(final(out)@) == runs_view(old(out)@) + node_runs(child@, styles@, base),
    decreases child@, 1nat,
{
    let ghost before = runs_view(out@);
    let text: String;
    if child.is_text {
        match &child.text {
            Some(t) => {
                text = t.clone();
            },
            None => {
                assert(before + Seq::<RunView>::empty() =~= before);
                return ;
            },
        }
    } else if child.has_tag_name("span") {
        let fmt = resolve_fmt(styles, attr(child, "style-name"), base);
        collect_runs(child, styles, fmt, out);
        return ;
    } else if child.has_tag_name("line-break") {
        text = "\n".to_owned();
    } else if child.has_tag_name("tab") {
        text = "\t".to_owned();
    } else if child.has_tag_name("s") {
        text = spaces(usize_attr(child, "c"));
    } else if child.has_tag_name("a") || child.has_tag_name("ruby") || child.has_tag_name(
        "ruby-base",
    ) {
        collect_runs(child, styles, base, out);
        return ;
    } else {
        assert(before + Seq::<RunView>::empty() =~= before);
        return ;
    }
    let run = Run { text, fmt: base };
    out.push(run);
    assert(runs_view(out@) =~= before.push(run@));
    assert(before.push(run@) =~= before + seq![run@]);
}

// ---------------------------------------------------------------- writing

/// How one character of text is written in Markdown.
pub open spec fn escape_char(c: char) -> Seq<char> {
    if c == '_' {
        "\\_"@
    } else if c == '&' {
        "&amp;"@
    } else if c == '<' {
        "&lt;"@
    } else if c == '>' {
        "&gt;"@
    } else {
        seq![c]
    }
}

/// How a text is written in Markdown.
pub open spec fn escaped(s: Seq<char>) -> Seq<char>
    decreases s.len(),
{
    if s.len() == 0 {
        Seq::empty()
    } else {
        escaped(s.drop_last()) + escape_char(s.last())
    }
}

/// How a run is written: escaped, and inside the marks of its formatting.
pub open spec fn run_markdown(text: Seq<char>, fmt: Fmt) -> Seq<char> {
    if text.len() == 0 {
        Seq::empty()
    } else {
        let s = escaped(text);
        let s = if fmt.bold {
            "**"@ + s + "**"@
        } else {
            s
        };
        let s = if fmt.italic {
            "*"@ + s + "*"@
        } else {
            s
        };
        if fmt.strike {
            "~~"@ + s + "~~"@
        } else {
            s
        }
    }
}

/// The runs with neighbours of one formatting put together.
pub open spec fn merged(runs: Seq<RunView>) -> Seq<RunView>
    decreases runs.len(),
{
    if runs.len() == 0 {
        Seq::empty()
    } else {
        let before = merged(runs.drop_last());
        let r = runs.last();
        if before.len() > 0 && before.last().fmt == r.fmt {
            before.drop_last().push(RunView { text: before.last().text + r.text, fmt: r.fmt })
        } else {
            before.push(r)
        }
    }
}

/// How each of the runs is written.
pub open spec fn run_texts(runs: Seq<RunView>) -> Seq<Seq<char>> {
    runs.map_values(|r: RunView| run_markdown(r.text, r.fmt))
}

/// The text of a paragraph: its runs, put together and written, with a space between them and
/// none at the end.
pub open spec fn runs_markdown(runs: Seq<RunView>) -> Seq<char> {
    trim_end(joined(nonempty(run_texts(merged(runs))), " "@))
}

/// Escapes a text for Markdown: underscores get a backslash, and the characters that HTML
/// reserves become entities.
pub fn escape_text(text: &str) -> (out: String)
    ensures
        out@ == escaped(text@),
{
    let mut out = String::new();
    for c in it: text.chars()
        invariant
            it.seq() == text@,
            out@ == escaped(text@.take(it.index() as int)),
    {
        let ghost k = it.index() as int;
        assert(text@.take(k + 1).drop_last() =~= text@.take(k));
        assert(text@.take(k + 1).last() == c);
        if c == '_' {
            out.append("\\_");
        } else if c == '&' {
            out.append("&amp;");
        } else if c == '<' {
            out.append("&lt;");
        } else if c == '>' {
            out.append("&gt;");
        } else {
            let ghost before = out@;
            out.push(c);
            assert(before + seq![c] =~= before.push(c));
        }
    }
    assert(text@.take(text@.len() as int) =~= text@);
    out
}

/// The text between two copies of a mark.
fn enclosed(mark: &str, s: &str) -> (out: String)
    ensures
        out@ == mark@ + s@ + mark@,
{
    let mut out = mark.to_owned();
    out.append(s);
    out.append(mark);
    out
}

/// How a run is written: escaped, and inside the marks of its formatting.
pub fn serialize_run(text: &str, fmt: Fmt) -> (out: String)
    ensures
        out@ == run_markdown(text@, fmt),
{
    if text.is_empty() {
        return String::new();
    }
    let mut s = escape_text(text);
    if fmt.bold {
        s = enclosed("**", s.as_str());
    }
    if fmt.italic {
        s = enclosed("*", s.as_str());
    }
    if fmt.strike {
        s = enclosed("~~", s.as_str());
    }
    s
}

/// Puts neighbours of one formatting together.
fn merge_runs(runs: Vec<Run>) -> (out: Vec<Run>)
    ensures
        runs_view(out@) == merged(runs_view(runs@)),
{
    let ghost all = runs_view(runs@);
    let mut out: Vec<Run> = Vec::new();
    let mut i: usize = 0;
    assert(runs_view(out@) =~= Seq::empty());
    while i < runs.len()
        invariant
            i <= runs@.len(),
            all == runs_view(runs@),
            runs_view(out@) == merged(all.take(i as int)),
        decreases runs@.len() - i,
    {
        let ghost before = runs_view(out@);
        assert(all.take(i as int + 1).drop_last() =~= all.take(i as int));
        assert(all.take(i as int + 1).last() == runs@[i as int]@);
        let n = out.len();
        if n > 0 && out[n - 1].fmt == runs[i].fmt {
            let mut text = out[n - 1].text.clone();
            text.append(runs[i].text.as_str());
            let run = Run { text, fmt: runs[i].fmt };
            assert(before.last() == out@[n - 1]@);
            out.pop();
            assert(runs_view(out@) =~= before.drop_last());
            out.push(run);
            assert(runs_view(out@) =~= before.drop_last().push(run@));
        } else {
            if n > 0 {
                assert(before.last() == out@[n - 1]@);
            }
            let run = Run { text: runs[i].text.clone(), fmt: runs[i].fmt };
            out.push(run);
            assert(runs_view(out@) =~= before.push(run@));
        }
        i += 1;
    }
    assert(all.take(i as int) =~= all);
    out
}

/// The text of a paragraph: its runs, put together and written, with a space between them and
/// none at the end.
pub fn runs_to_text(runs: Vec<Run>) -> (out: String)
    ensures
        out@ == runs_markdown(runs_view(runs@)),
{
    let merged_runs = merge_runs(runs);
    let ghost all = run_texts(runs_view(merged_runs@));
    let mut parts: Vec<String> = Vec::new();
    let mut i: usize = 0;
    assert(texts(parts@) =~= Seq::empty());
    while i < merged_runs.len()
        invariant
            i <= merged_runs@.len(),
            all == run_texts(runs_view(merged_runs@)),
            texts(parts@) == nonempty(all.take(i as int)),
        decreases merged_runs@.len() - i,
    {
        let r = &merged_runs[i];
        let s = serialize_run(r.text.as_str(), r.fmt);
        assert(all[i as int] == s@);
        proof {
            lemma_nonempty_push(all.take(i as int), s@);
            assert(all.take(i as int + 1) =~= all.take(i as int).push(s@));
        }
        if !s.as_str().is_empty() {
            let ghost before = texts(parts@);
            parts.push(s);
            assert(texts(parts@) =~= before.push(s@));
        }
        i += 1;
    }
    assert(all.take(i as int) =~= all);
    let text = join(&parts, " ");
    without_trailing_space(text.as_str())
}

/// The text of a paragraph or heading element.
pub open spec fn markdown_of(el: XmlView, styles: StylesView) -> Seq<char> {
    runs_markdown(inner_runs(el.children, styles, plain()))
}

/// The text of a paragraph or heading element.
pub fn paragraph_text(el: &XmlNode, styles: &Styles) -> (out: String)
    ensures
        out@ == markdown_of(el@, styles@),
{
    let mut runs: Vec<Run> = Vec::new();
    collect_runs(el, styles, Fmt::default(), &mut runs);
    assert(runs_view(Seq::empty()) =~= Seq::empty());
    assert(runs_view(runs@) =~= inner_runs(el@.children, styles@, plain()));
    runs_to_text(runs)
}

// ---------------------------------------------------------------- laws

/// The texts of runs, one behind the other.
pub open spec fn plain_runs(runs: Seq<RunView>) -> Seq<char>
    decreases runs.len(),
{
    if runs.len() == 0 {
        Seq::empty()
    } else {
        plain_runs(runs.drop_last()) + runs.last().text
    }
}

/// Putting runs together keeps their text, and leaves no two neighbours of one formatting.
pub proof fn law_merged_runs_alternate(runs: Seq<RunView>)
    ensures
        plain_runs(merged(runs)) == plain_runs(runs),
        forall|i: int, j: int|
            0 <= i < j < merged(runs).len() && j == i + 1 ==> (#[trigger] merged(runs)[i]).fmt != (
            #[trigger] merged(runs)[j]).fmt,
    decreases runs.len(),
{
    if runs.len() > 0 {
        law_merged_runs_alternate(runs.drop_last());
        let before = merged(runs.drop_last());
        let after = merged(runs);
        let r = runs.last();
        if before.len() > 0 && before.last().fmt == r.fmt {
            assert(after.drop_last() =~= before.drop_last());
            assert(plain_runs(after) =~= plain_runs(before.drop_last()) + (before.last().text
                + r.text));
            assert(plain_runs(after) =~= plain_runs(before) + r.text);
            assert forall|i: int, j: int|
                0 <= i < j < after.len() && j == i + 1 implies (#[trigger] after[i]).fmt != (
            #[trigger] after[j]).fmt by {
                assert(before[i].fmt != before[j].fmt);
            }
        } else {
            assert(after.drop_last() =~= before);
            assert forall|i: int, j: int|
                0 <= i < j < after.len() && j == i + 1 implies (#[trigger] after[i]).fmt != (
            #[trigger] after[j]).fmt by {
                if j < before.len() {
                    assert(before[i].fmt != before[j].fmt);
                } else {
                    assert(after[i] == before.last());
                }
            }
        }
    }
}

/// The text of a paragraph does not end in white space.
pub proof fn law_paragraphs_end_in_text(runs: Seq<RunView>)
    ensures
        runs_markdown(runs).len() > 0 ==> !is_space(runs_markdown(runs).last()),
{
    law_trimmed_end(joined(nonempty(run_texts(merged(runs))), " "@));
}

/// Escaped text holds no character that HTML takes for the start or the end of a tag.
pub proof fn law_escaped_text_has_no_tags(text: Seq<char>)
    ensures
        forall|k: int|
            0 <= k < escaped(text).len() ==> #[trigger] escaped(text)[k] != '<' && escaped(text)[k]
                != '>',
    decreases text.len(),
{
    if text.len() > 0 {
        law_escaped_text_has_no_tags(text.drop_last());
        let head = escaped(text.drop_last());
        let tail = escape_char(text.last());
        reveal_strlit("\\_");
        reveal_strlit("&amp;");
        reveal_strlit("&lt;");
        reveal_strlit("&gt;");
        assert forall|k: int| 0 <= k < escaped(text).len() implies #[trigger] escaped(text)[k]
            != '<' && escaped(text)[k] != '>' by {
            if k < head.len() {
                assert(escaped(text)[k] == head[k]);
            } else {
                assert(escaped(text)[k] == tail[k - head.len()]);
            }
        }
    }
}

} // verus!
