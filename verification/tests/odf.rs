use std::io::{Cursor, Write};

use fleischwolf::backend::{
    convert_document, convert_parts, ConversionError, OdfBackend, SourceDocument,
};
use fleischwolf::blocks::{handle_block, walk_blocks, walk_presentation, walk_text};
use fleischwolf::document::{DoclingDocument, Node, Table};
use fleischwolf::lists::{
    add_odf_list, level_is_enumerated, level_start, list_has_direct_text, list_has_renderable,
    list_starts_with_empty_nested, odf_item_text, ListCont,
};
use fleischwolf::parse::parse_xml;
use fleischwolf::runs::{
    collect_runs, escape_text, paragraph_text, runs_to_text, serialize_run, Run,
};
use fleischwolf::sheets::{add_ods_sheet, ods_cell_text, repeat, walk_spreadsheet};
use fleischwolf::styles::{
    is_bold, paragraph_style_names, parse_styles, resolve_fmt, style_info, Fmt, Styles,
};
use fleischwolf::tables::{cell_text, parse_table};
use fleischwolf::xml::{attr, find_tag, XmlDocument, XmlNode};

fn parse(xml: &str) -> XmlDocument {
    match parse_xml(xml) {
        Ok(doc) => doc,
        Err(words) => panic!("{}", words),
    }
}

fn find<'a>(doc: &'a XmlDocument, name: &str) -> &'a XmlNode {
    find_tag(&doc.descendants(), name).unwrap()
}

fn no_styles() -> Styles {
    parse_styles(&parse("<root/>"), None)
}

fn tables(doc: &DoclingDocument) -> Vec<&Table> {
    doc.nodes
        .iter()
        .filter_map(|n| match n {
            Node::Table(t) => Some(t),
            _ => None,
        })
        .collect()
}

fn items(doc: &DoclingDocument) -> Vec<(bool, u64, u8, &str)> {
    doc.nodes
        .iter()
        .filter_map(|n| match n {
            Node::ListItem {
                ordered,
                number,
                level,
                text,
                ..
            } => Some((*ordered, *number, *level, text.as_str())),
            _ => None,
        })
        .collect()
}

fn outline(doc: &DoclingDocument) -> Vec<String> {
    doc.nodes
        .iter()
        .map(|n| match n {
            Node::Heading { level, text } => format!("h{} {}", level, text),
            Node::Paragraph { text } => format!("p {}", text),
            Node::ListItem { number, text, .. } => format!("li {} {}", number, text),
            Node::Table(t) => format!("table {}", t.rows.len()),
        })
        .collect()
}

fn archive(parts: &[(&str, &str)]) -> Vec<u8> {
    let mut writer = zip::ZipWriter::new(Cursor::new(Vec::new()));
    for (name, text) in parts {
        writer
            .start_file(*name, zip::write::SimpleFileOptions::default())
            .unwrap();
        writer.write_all(text.as_bytes()).unwrap();
    }
    writer.finish().unwrap().into_inner()
}

// ---------------------------------------------------------------- styles

#[test]
fn formatting_resolves_through_parent_chain() {
    // P2 → P1 → Strong (bold). T1 adds italic directly.
    let content = r#"<root xmlns:style="s" xmlns:fo="f">
            <style:style style:name="Strong" style:family="text">
              <style:text-properties fo:font-weight="bold"/></style:style>
            <style:style style:name="P1" style:family="text" style:parent-style-name="Strong"/>
            <style:style style:name="P2" style:family="text" style:parent-style-name="P1"/>
            <style:style style:name="T1" style:family="text">
              <style:text-properties fo:font-style="italic"/></style:style>
          </root>"#;
    let dom = parse(content);
    let styles = parse_styles(&dom, None);
    let f = resolve_fmt(&styles, Some("P2"), Fmt::default());
    assert!(f.bold && !f.italic, "bold inherited through P2→P1→Strong");
    let t = resolve_fmt(&styles, Some("T1"), Fmt::default());
    assert!(t.italic && !t.bold);
}

#[test]
fn derived_style_overrides_its_parent() {
    let dom = parse(
        r#"<root xmlns:style="s" xmlns:fo="f">
            <style:style style:name="A"><style:text-properties fo:font-weight="bold"
              style:text-line-through-style="solid" style:text-underline-style="none"
              style:text-position="super 58%"/></style:style>
            <style:style style:name="B" style:parent-style-name="A">
              <style:text-properties fo:font-weight="normal" fo:font-style="oblique"
              style:text-position="sub 58%"/></style:style>
          </root>"#,
    );
    let styles = parse_styles(&dom, None);
    let a = resolve_fmt(&styles, Some("A"), Fmt::default());
    assert!(a.bold && a.strike && !a.underline && !a.italic);
    assert_eq!(a.script, 2);
    let b = resolve_fmt(&styles, Some("B"), Fmt::default());
    assert!(!b.bold && b.strike && b.italic);
    assert_eq!(b.script, 1);
}

#[test]
fn unknown_style_and_cycles_end_the_chain() {
    let dom = parse(
        r#"<root xmlns:style="s" xmlns:fo="f">
            <style:style style:name="A" style:parent-style-name="B">
              <style:text-properties fo:font-weight="700"/></style:style>
            <style:style style:name="B" style:parent-style-name="A">
              <style:text-properties fo:font-style="italic"/></style:style>
          </root>"#,
    );
    let styles = parse_styles(&dom, None);
    let base = Fmt {
        strike: true,
        ..Fmt::default()
    };
    assert!(resolve_fmt(&styles, Some("None"), base) == base);
    assert!(resolve_fmt(&styles, None, base) == base);
    let a = resolve_fmt(&styles, Some("A"), base);
    assert!(a.bold && a.italic && a.strike);
}

#[test]
fn later_declarations_win() {
    let content = parse(
        r#"<root><style name="A"><text-properties font-weight="bold"/></style></root>"#,
    );
    let sheet = parse(
        r#"<root><style name="A"><text-properties font-weight="normal"/></style></root>"#,
    );
    let alone = parse_styles(&content, None);
    assert!(resolve_fmt(&alone, Some("A"), Fmt::default()).bold);
    let both = parse_styles(&content, Some(&sheet));
    assert!(!resolve_fmt(&both, Some("A"), Fmt::default()).bold);
}

#[test]
fn bold_weights() {
    assert!(is_bold("bold"));
    assert!(is_bold("600"));
    assert!(is_bold("+900"));
    assert!(!is_bold("599"));
    assert!(!is_bold("-700"));
    assert!(!is_bold("normal"));
    assert!(!is_bold(""));
    assert!(!is_bold("2147483648"));
    assert!(is_bold("2147483647"));
}

#[test]
fn style_properties_are_read() {
    let dom = parse(
        r#"<style parent-style-name="P" display-name="D"><text-properties
             text-line-through-style="none" text-position="0% 100%"/></style>"#,
    );
    let info = style_info(find(&dom, "style"));
    assert_eq!(info.parent.as_deref(), Some("P"));
    assert_eq!(info.display_name.as_deref(), Some("D"));
    assert_eq!(info.bold, None);
    assert_eq!(info.strike, Some(false));
    assert_eq!(info.script, Some(0));
    assert_eq!(info.underline, None);
    assert_eq!(info.italic, None);
}

#[test]
fn paragraph_styles_have_several_names() {
    let dom = parse(
        r#"<root><style name="P1" parent-style-name="Title" display-name="My Title"/></root>"#,
    );
    let styles = parse_styles(&dom, None);
    assert_eq!(
        paragraph_style_names(&styles, Some("P1")),
        vec!["P1".to_string(), "Title".to_string(), "My Title".to_string()]
    );
    assert_eq!(
        paragraph_style_names(&styles, Some("X")),
        vec!["X".to_string()]
    );
    assert!(paragraph_style_names(&styles, None).is_empty());
}

// ---------------------------------------------------------------- text runs

#[test]
fn runs_are_merged_and_marked() {
    let bold = Fmt {
        bold: true,
        ..Fmt::default()
    };
    let runs = vec![
        Run {
            text: "a ".to_string(),
            fmt: Fmt::default(),
        },
        Run {
            text: "b".to_string(),
            fmt: bold,
        },
        Run {
            text: "c".to_string(),
            fmt: bold,
        },
        Run {
            text: String::new(),
            fmt: Fmt::default(),
        },
        Run {
            text: "d  ".to_string(),
            fmt: Fmt {
                italic: true,
                strike: true,
                ..Fmt::default()
            },
        },
    ];
    assert_eq!(runs_to_text(runs), "a  **bc** ~~*d  *~~");
    assert_eq!(runs_to_text(Vec::new()), "");
}

#[test]
fn underline_and_script_split_runs_without_marks() {
    let runs = vec![
        Run {
            text: "x".to_string(),
            fmt: Fmt::default(),
        },
        Run {
            text: "2".to_string(),
            fmt: Fmt {
                script: 2,
                ..Fmt::default()
            },
        },
        Run {
            text: "y ".to_string(),
            fmt: Fmt {
                underline: true,
                ..Fmt::default()
            },
        },
    ];
    assert_eq!(runs_to_text(runs), "x 2 y");
}

#[test]
fn a_run_is_escaped_inside_its_marks() {
    let all = Fmt {
        bold: true,
        italic: true,
        strike: true,
        ..Fmt::default()
    };
    assert_eq!(serialize_run("a_b", all), "~~***a\\_b***~~");
    assert_eq!(serialize_run("", all), "");
    assert_eq!(serialize_run("x", Fmt::default()), "x");
    assert_eq!(escape_text("a<b>&_"), "a&lt;b&gt;&amp;\\_");
}

#[test]
fn paragraph_elements_become_runs() {
    let dom = parse(
        r#"<root xmlns:style="s" xmlns:fo="f" xmlns:text="t">
          <style:style style:name="B"><style:text-properties fo:font-weight="bold"/></style:style>
          <text:p>one<text:s text:c="3"/>two<text:tab/><text:span text:style-name="B">three<text:a>
four</text:a></text:span><text:line-break/><text:note>gone</text:note>five<text:s/>!</text:p>
        </root>"#,
    );
    let styles = parse_styles(&dom, None);
    let p = find(&dom, "p");
    let mut runs = Vec::new();
    collect_runs(p, &styles, Fmt::default(), &mut runs);
    let texts: Vec<(&str, bool)> = runs.iter().map(|r| (r.text.as_str(), r.fmt.bold)).collect();
    assert_eq!(
        texts,
        vec![
            ("one", false),
            ("   ", false),
            ("two", false),
            ("\t", false),
            ("three", true),
            ("\nfour", true),
            ("\n", false),
            ("five", false),
            (" ", false),
            ("!", false),
        ]
    );
    assert_eq!(
        paragraph_text(p, &styles),
        "one   two\t **three\nfour** \nfive !"
    );
}

// ---------------------------------------------------------------- lists

#[test]
fn list_continues_across_empty_nested_item() {
    // A numbered `<text:list>` followed by a second list that opens with an
    // empty item wrapping a nested list continues the numbering (3.) while the
    // nested bullets collapse under the previous item (level 1).
    let xml = r#"<root xmlns:text="x" xmlns:style="s">
          <style:list-style style:name="L1">
            <text:list-level-style-number text:level="1"/></style:list-style>
          <style:list-style style:name="L2">
            <text:list-level-style-bullet text:level="1"/>
            <text:list-level-style-bullet text:level="2"/></style:list-style>
          <office:body xmlns:office="o"><office:text>
            <text:list text:style-name="L1">
              <text:list-item><text:p>one</text:p></text:list-item>
              <text:list-item><text:p>two</text:p></text:list-item>
            </text:list>
            <text:list text:style-name="L2">
              <text:list-item><text:list>
                <text:list-item><text:p>bullet</text:p></text:list-item>
              </text:list></text:list-item>
              <text:list-item><text:p>three</text:p></text:list-item>
            </text:list>
          </office:text></office:body></root>"#;
    let dom = parse(xml);
    let styles = parse_styles(&dom, None);
    let body = find(&dom, "text");
    let mut doc = DoclingDocument::new("t");
    walk_text(body, &styles, &mut doc);
    let items: Vec<(u64, u8, &str)> = doc
        .nodes
        .iter()
        .filter_map(|n| match n {
            Node::ListItem {
                number, level, text, ..
            } => Some((*number, *level, text.as_str())),
            _ => None,
        })
        .collect();
    assert_eq!(
        items,
        vec![
            (1, 0, "one"),
            (2, 0, "two"),
            (0, 1, "bullet"),
            (3, 0, "three"),
        ]
    );
}

#[test]
fn a_paragraph_ends_a_list() {
    let dom = parse(
        r#"<root><list-style name="L"><list-level-style-number level="1"/></list-style>
          <text>
            <list style-name="L"><list-item><p>one</p></list-item></list>
            <p>between</p>
            <list style-name="L">
              <list-item><list><list-item><p>inner</p></list-item></list></list-item>
              <list-item><p>two</p></list-item></list>
          </text></root>"#,
    );
    let styles = parse_styles(&dom, None);
    let mut doc = DoclingDocument::new("t");
    walk_text(find(&dom, "text"), &styles, &mut doc);
    assert_eq!(
        outline(&doc),
        vec!["li 1 one", "p between", "li 1 inner", "li 1 two"]
    );
    assert_eq!(items(&doc)[1], (true, 1, 1, "inner"));
}

#[test]
fn lists_start_at_their_start_value_and_nest() {
    let dom = parse(
        r#"<root><list-style name="L"><list-level-style-number level="1" start-value="5"/>
            <list-level-style-bullet level="2"/></list-style>
          <list style-name="L">
            <list-header><p>  five
              and </p><h>more</h></list-header>
            <list-item><p>six</p><list><list-item><p>deep</p></list-item></list></list-item>
            <list-item/>
            <list-item><p>seven</p></list-item>
          </list></root>"#,
    );
    let styles = parse_styles(&dom, None);
    let list = find(&dom, "list");
    assert!(list_has_renderable(list, &styles));
    assert!(list_has_direct_text(list, &styles));
    assert!(!list_starts_with_empty_nested(list, &styles));
    assert!(level_is_enumerated(&styles, list, 1, false));
    assert!(!level_is_enumerated(&styles, list, 2, true));
    assert!(level_is_enumerated(&styles, list, 3, true));
    assert_eq!(level_start(&styles, list, 1), 5);
    assert_eq!(level_start(&styles, list, 9), 1);
    assert_eq!(
        odf_item_text(find(&dom, "list-header"), &styles),
        "five and more"
    );
    let mut doc = DoclingDocument::new("t");
    let stopped = add_odf_list(list, &styles, &mut doc, 0, 1, false, None);
    assert_eq!(
        items(&doc),
        vec![
            (true, 5, 0, "five and more"),
            (true, 6, 0, "six"),
            (true, 1, 1, "deep"),
            (true, 7, 0, "seven"),
        ]
    );
    assert_eq!(
        stopped,
        Some(ListCont {
            enumerated: true,
            counter: 7,
            has_last: true
        })
    );
}

#[test]
fn bullets_count_without_showing_it() {
    let dom = parse(
        r#"<list><list-item><p>a</p></list-item><list-item><p>b</p></list-item></list>"#,
    );
    let styles = no_styles();
    let mut doc = DoclingDocument::new("t");
    let stopped = add_odf_list(find(&dom, "list"), &styles, &mut doc, 3, 1, false, None);
    assert_eq!(items(&doc), vec![(false, 0, 3, "a"), (false, 0, 3, "b")]);
    assert_eq!(
        stopped,
        Some(ListCont {
            enumerated: false,
            counter: 2,
            has_last: true
        })
    );
}

#[test]
fn lists_without_text_are_transparent_or_nothing() {
    let dom = parse(
        r#"<root><list><list-item><list><list-item><p>x</p></list-item></list></list-item></list>
          <empty><list><list-item><p> </p></list-item></list></empty></root>"#,
    );
    let styles = no_styles();
    let mut doc = DoclingDocument::new("t");
    let stopped = add_odf_list(find(&dom, "list"), &styles, &mut doc, 0, 1, false, None);
    assert_eq!(items(&doc), vec![(false, 0, 0, "x")]);
    assert_eq!(stopped, None);
    let empty = &find(&dom, "empty").children[0];
    assert!(!list_has_renderable(empty, &styles));
    let stopped = add_odf_list(empty, &styles, &mut doc, 0, 1, false, None);
    assert_eq!(stopped, None);
    assert_eq!(doc.nodes.len(), 1);
}

#[test]
fn continued_lists_keep_the_marks_of_the_first() {
    let dom = parse(
        r#"<list><list-item><list><list-item><p>x</p></list-item></list></list-item>
          <list-item><p>y</p></list-item></list>"#,
    );
    let styles = no_styles();
    let mut doc = DoclingDocument::new("t");
    let past = Some(ListCont {
        enumerated: true,
        counter: 41,
        has_last: true,
    });
    let stopped = add_odf_list(find(&dom, "list"), &styles, &mut doc, 0, 1, false, past);
    assert_eq!(items(&doc), vec![(false, 0, 1, "x"), (true, 42, 0, "y")]);
    assert_eq!(
        stopped,
        Some(ListCont {
            enumerated: true,
            counter: 42,
            has_last: true
        })
    );
}

// ---------------------------------------------------------------- blocks

#[test]
fn headings_and_titles() {
    let dom = parse(
        r#"<root><style name="P1" parent-style-name="Title"/>
          <style name="P2" display-name="Subtitle"/>
          <style name="P4" parent-style-name="Heading"/>
          <text><p style-name="P1">T</p><p style-name="P2">S</p><p style-name="P3">x</p><p/>
            <p style-name="Heading">H</p><p style-name="P4">I</p><p style-name="Heading"/>
            <h>one</h><h outline-level="3">three</h><h outline-level="0">zero</h>
            <h outline-level="-7">minus</h><h outline-level="255">wraps</h><h/>
            <other>gone</other></text></root>"#,
    );
    let styles = parse_styles(&dom, None);
    let mut doc = DoclingDocument::new("t");
    walk_text(find(&dom, "text"), &styles, &mut doc);
    assert_eq!(
        outline(&doc),
        vec![
            "h1 T", "h2 S", "p x", "h3 H", "h3 I", "h2 one", "h4 three", "h2 zero", "h2 minus",
            "h0 wraps"
        ]
    );
}

#[test]
fn one_block_at_a_time() {
    let dom = parse(r#"<root><list><list-item><p>x</p></list-item></list></root>"#);
    let styles = no_styles();
    let mut doc = DoclingDocument::new("t");
    handle_block(find(&dom, "list"), &styles, &mut doc, 4);
    assert_eq!(items(&doc), vec![(false, 0, 4, "x")]);
    walk_blocks(&find(&dom, "root").children, &styles, &mut doc);
    assert_eq!(items(&doc)[1], (false, 0, 0, "x"));
}

#[test]
fn a_paragraph_in_the_style_of_headings_is_one() {
    let dom = parse(r#"<text:p xmlns:text="x" text:style-name="Heading">x</text:p>"#);
    let mut doc = DoclingDocument::new("t");
    handle_block(find(&dom, "p"), &no_styles(), &mut doc, 0);
    assert_eq!(outline(&doc), vec!["h3 x"]);
}

#[test]
fn presentations_show_boxes_before_tables() {
    let dom = parse(
        r#"<presentation><page><frame><table><table-row><table-cell><p>t</p></table-cell>
            </table-row></table><text-box><p>box</p></text-box></frame>
            <group><frame><text-box><h>inner</h></text-box></frame></group></page>
            <notes><frame><text-box><p>no</p></text-box></frame></notes>
            <page><frame><text-box><p>next</p></text-box></frame></page></presentation>"#,
    );
    let styles = no_styles();
    let mut doc = DoclingDocument::new("t");
    walk_presentation(find(&dom, "presentation"), &styles, &mut doc);
    assert_eq!(
        outline(&doc),
        vec!["p box", "table 1", "h2 inner", "p next"]
    );
}

// ---------------------------------------------------------------- tables

#[test]
fn table_cells_repeat_span_and_lose_trailing_blanks() {
    let dom = parse(
        r#"<table><table-row><table-cell number-columns-repeated="2"><p>a_b</p><p/><h>c</h>
            </table-cell><table-cell number-columns-spanned="2"><p>d</p></table-cell>
            <table-cell number-columns-repeated="9"/></table-row>
            <table-row><table-cell/></table-row>
            <table-header-rows><table-row><table-cell/><table-cell><p>x</p></table-cell>
            </table-row></table-header-rows></table>"#,
    );
    let styles = no_styles();
    let table = parse_table(find(&dom, "table"), &styles).unwrap();
    assert_eq!(
        table.rows,
        vec![vec!["a\\_b c", "a\\_b c", "d", "d"], vec!["", "x"]]
    );
    assert_eq!(cell_text(find(&dom, "table-cell"), &styles), "a\\_b c");
    let empty = parse("<table><table-row><table-cell/></table-row></table>");
    assert!(parse_table(find(&empty, "table"), &styles).is_none());
}

// ---------------------------------------------------------------- spreadsheets

#[test]
fn ods_sheet_splits_into_regions() {
    // A title cell (isolated by an empty row) and a 2×2 data block become two
    // separate tables (strict gap-tolerance flood fill).
    let xml = r#"<root xmlns:table="t" xmlns:text="x">
          <table:table>
            <table:table-row><table:table-cell/>
              <table:table-cell><text:p>Title</text:p></table:table-cell></table:table-row>
            <table:table-row><table:table-cell/></table:table-row>
            <table:table-row><table:table-cell/>
              <table:table-cell><text:p>H1</text:p></table:table-cell>
              <table:table-cell><text:p>H2</text:p></table:table-cell></table:table-row>
            <table:table-row><table:table-cell/>
              <table:table-cell><text:p>1</text:p></table:table-cell>
              <table:table-cell><text:p>2</text:p></table:table-cell></table:table-row>
          </table:table></root>"#;
    let dom = parse(xml);
    let table = find(&dom, "table");
    let mut doc = DoclingDocument::new("t");
    add_ods_sheet(table, &mut doc);
    let tables = tables(&doc);
    assert_eq!(tables.len(), 2, "title singleton + data region");
    assert_eq!(tables[0].rows, vec![vec!["Title".to_string()]]);
    assert_eq!(tables[1].rows.len(), 2, "header + one data row");
    assert_eq!(tables[1].rows[0], vec!["H1".to_string(), "H2".to_string()]);
}

#[test]
fn regions_are_cut_out_with_their_frames() {
    let dom = parse(
        r#"<table>
            <table-row><table-cell/><table-cell><p>b</p></table-cell><table-cell/>
              <table-cell><p>q</p></table-cell></table-row>
            <table-row><table-cell><p>c</p></table-cell><table-cell><p>d</p></table-cell>
              </table-row>
            <table-row><table-cell><p>e</p></table-cell></table-row></table>"#,
    );
    let mut doc = DoclingDocument::new("t");
    add_ods_sheet(find(&dom, "table"), &mut doc);
    let tables = tables(&doc);
    assert_eq!(tables.len(), 2);
    assert_eq!(
        tables[0].rows,
        vec![vec!["", "b"], vec!["c", "d"], vec!["e", ""]]
    );
    assert_eq!(tables[1].rows, vec![vec!["q"]]);
}

#[test]
fn repeated_rows_and_cells_are_expanded() {
    let dom = parse(
        r#"<spreadsheet><table>
            <table-row number-rows-repeated="1000000"><table-cell/></table-row>
            <table-row number-rows-repeated="2"><table-cell number-columns-repeated="16000"/>
              <table-cell number-columns-repeated="3"><p>v</p></table-cell></table-row></table>
            <table><table-row><table-cell><p>m</p></table-cell>
              <covered-table-cell number-columns-repeated="2"/></table-row></table>
            <table/></spreadsheet>"#,
    );
    let mut doc = DoclingDocument::new("t");
    walk_spreadsheet(find(&dom, "spreadsheet"), &mut doc);
    let tables = tables(&doc);
    assert_eq!(tables.len(), 2);
    assert_eq!(
        tables[0].rows,
        vec![vec!["v", "v", "v"], vec!["v", "v", "v"]]
    );
    assert_eq!(tables[1].rows, vec![vec!["m", "", ""]]);
}

#[test]
fn repeats_are_limited() {
    let dom = parse(
        r#"<table><table-row number-rows-repeated="5000"><table-cell><p>v</p></table-cell>
            </table-row></table>"#,
    );
    let mut doc = DoclingDocument::new("t");
    add_ods_sheet(find(&dom, "table"), &mut doc);
    assert_eq!(tables(&doc)[0].rows.len(), 1024);
    let row = find(&dom, "table-row");
    assert_eq!(repeat(row, "number-rows-repeated"), 5000);
    assert_eq!(repeat(row, "none"), 1);
    let zero = parse(r#"<r n="0" m="x"/>"#);
    assert_eq!(repeat(find(&zero, "r"), "n"), 1);
    assert_eq!(repeat(find(&zero, "r"), "m"), 1);
}

#[test]
fn sheet_cells_are_plain_text() {
    let dom = parse(
        "<table-cell><p>a_<span>b</span> </p><p> \t</p><h>c</h><note>no</note></table-cell>",
    );
    assert_eq!(ods_cell_text(find(&dom, "table-cell")), "a_b \nc");
}

// ---------------------------------------------------------------- XML

#[test]
fn trees_keep_order_and_depth() {
    let dom = parse("<a x='1' p:y='2' xmlns:p='q'>t<b><c/>u</b><!--no--><d/></a>");
    let names: Vec<(String, bool)> = dom
        .descendants()
        .iter()
        .map(|n| (n.name.clone(), n.is_text))
        .collect();
    assert_eq!(names.len(), 8);
    let a = find(&dom, "a");
    assert_eq!(a.children.len(), 4);
    assert_eq!(a.children[0].text.as_deref(), Some("t"));
    assert_eq!(a.children[1].name, "b");
    assert_eq!(a.children[1].children.len(), 2);
    assert_eq!(a.children[3].name, "d");
    assert_eq!(attr(a, "y"), Some("2"));
    assert_eq!(attr(a, "z"), None);
    assert!(find_tag(&dom.descendants(), "e").is_none());
    assert!(a.has_tag_name("a") && !a.has_tag_name("b"));
}

#[test]
fn broken_xml_is_reported() {
    assert!(parse_xml("<a>").is_err());
    assert!(parse_xml("").is_err());
    assert!(parse_xml("<a/>").is_ok());
}

// ---------------------------------------------------------------- files

#[test]
fn files_are_converted() {
    let content = r#"<office:document xmlns:office="o" xmlns:text="x" xmlns:table="t">
        <office:body><office:text><text:h>Head</text:h>
        <text:p text:style-name="P1">Para</text:p></office:text>
        <office:spreadsheet><table:table><table:table-row><table:table-cell><text:p>v</text:p>
        </table:table-cell></table:table-row></table:table></office:spreadsheet>
        <office:drawing/></office:body></office:document>"#;
    let styles = r#"<root><style name="P1" parent-style-name="Title"/></root>"#;
    let source = SourceDocument {
        name: "file.odt".to_string(),
        bytes: archive(&[("content.xml", content), ("styles.xml", styles)]),
    };
    let doc = match OdfBackend.convert(&source) {
        Ok(doc) => doc,
        Err(ConversionError::Parse(words)) => panic!("{}", words),
        Err(ConversionError::Limit) => panic!("limit"),
    };
    assert_eq!(doc.name, "file.odt");
    assert_eq!(outline(&doc), vec!["h2 Head", "h1 Para", "table 1"]);
}

#[test]
fn files_without_styles_or_body_are_converted() {
    let source = SourceDocument {
        name: "n".to_string(),
        bytes: archive(&[("content.xml", "<a><body><text><p>x</p></text></body></a>")]),
    };
    let doc = OdfBackend.convert(&source);
    assert!(matches!(doc, Ok(d) if outline(&d) == vec!["p x"]));
    let source = SourceDocument {
        name: "n".to_string(),
        bytes: archive(&[("content.xml", "<a/>"), ("styles.xml", "<broken")]),
    };
    let doc = OdfBackend.convert(&source);
    assert!(matches!(doc, Ok(d) if d.nodes.is_empty() && d.name == "n"));
}

#[test]
fn deeply_nested_files_are_converted() {
    let depth = 200_000;
    let content = format!(
        "<a><body><text><p>x</p>{}{}<p>y</p></text></body></a>",
        "<u>".repeat(depth),
        "</u>".repeat(depth)
    );
    let source = SourceDocument {
        name: "n".to_string(),
        bytes: archive(&[("content.xml", &content), ("styles.xml", &content)]),
    };
    let doc = OdfBackend.convert(&source);
    assert!(matches!(doc, Ok(d) if outline(&d) == vec!["p x", "p y"]));
    let tree = parse(&content);
    assert_eq!(tree.descendants().len(), depth + 8);
    tree.take_apart();
}

#[test]
fn broken_files_are_refused() {
    let refused = |bytes: Vec<u8>| {
        let source = SourceDocument {
            name: "n".to_string(),
            bytes,
        };
        match OdfBackend.convert(&source) {
            Err(ConversionError::Parse(words)) => words,
            _ => panic!("not refused"),
        }
    };
    assert_eq!(refused(b"plain".to_vec()), "odf: not a zip");
    assert_eq!(
        refused(archive(&[("other.xml", "<a/>")])),
        "odf: no content.xml"
    );
    let words = refused(archive(&[("content.xml", "<a>")]));
    let parser = match parse_xml("<a>") {
        Err(words) => words,
        Ok(_) => panic!("parsed"),
    };
    assert_eq!(words, format!("odf: {}", parser));
    assert!(parser.len() > 3);
}

#[test]
fn parts_decide_the_outcome() {
    let words = |result| match result {
        Err(ConversionError::Parse(words)) => words,
        _ => panic!("not refused"),
    };
    assert_eq!(
        words(convert_parts("n", false, Some(Ok(parse("<a/>"))), None)),
        "odf: not a zip"
    );
    assert_eq!(
        words(convert_parts("n", true, None, None)),
        "odf: no content.xml"
    );
    assert_eq!(
        words(convert_parts("n", true, Some(Err("why".to_string())), None)),
        "odf: why"
    );
    let found = convert_parts(
        "n",
        true,
        Some(Ok(parse("<a><body><text><p>x</p></text></body></a>"))),
        Some(parse("<b/>")),
    );
    assert!(matches!(found, Ok(d) if outline(&d) == vec!["p x"]));
}

#[test]
fn lists_deeper_than_a_document_holds_are_not_converted() {
    let nested = |depth: usize| {
        let open = "<list><list-item><p>x</p>".repeat(depth);
        let close = "</list-item></list>".repeat(depth);
        format!("<a><body><text>{}{}</text></body></a>", open, close)
    };
    let fits = convert_document("n", &parse(&nested(20)), None).unwrap();
    assert_eq!(items(&fits).len(), 20);
    assert_eq!(items(&fits)[19], (false, 0, 19, "x"));
    let sheet = r#"<list-style name="L"><list-level-style-number level="1"
        start-value="9223372036854775807"/></list-style>"#;
    let numbered = |n: usize| {
        format!(
            "<a>{}<body><text><list style-name='L'>{}</list></text></body></a>",
            sheet,
            "<list-item><p>x</p></list-item>".repeat(n)
        )
    };
    let one = convert_document("n", &parse(&numbered(1)), None).unwrap();
    assert_eq!(items(&one), vec![(true, 9223372036854775807, 0, "x")]);
    assert!(convert_document("n", &parse(&numbered(2)), None).is_none());
    let source = SourceDocument {
        name: "n".to_string(),
        bytes: archive(&[("content.xml", &numbered(2))]),
    };
    assert!(matches!(
        OdfBackend.convert(&source),
        Err(ConversionError::Limit)
    ));
}
