//! Conversion of OpenDocument files: texts, spreadsheets and presentations.
//!
//! Such a file is a zip archive. `content.xml` holds the body and the styles made for it, and
//! `styles.xml` holds further styles.

use vstd::prelude::*;

use crate::archive::{archive_opens, archive_text, is_archive, read_text};
use crate::blocks::{slide_nodes, text_nodes, try_walk_presentation, try_walk_text};
use crate::document::{extended, DoclingDocument, DocumentView, NodeView};
use crate::lists::{fits, lemma_fits_add};
use crate::parse::{parse_xml, parsed};
use crate::sheets::{lemma_workbook_fits, walk_spreadsheet, workbook_tables};
use crate::styles::{parse_styles, styles_of, Styles, StylesView};
use crate::text::same_text;
use crate::xml::{
    all_nodes_of, find_tag, first_tag, lemma_children_view, nodes_view, XmlDocument,
    XmlNode, XmlView,
};

verus! {

/// A file to convert: its name and its bytes.
pub struct SourceDocument {
    pub name: String,
    pub bytes: Vec<u8>,
}

/// Why a file cannot be converted: it cannot be read, or its lists are nested deeper or numbered
/// higher than a document can hold.
pub enum ConversionError {
    Parse(String),
    Limit,
}

/// The converter of OpenDocument files.
pub struct OdfBackend;

// ---------------------------------------------------------------- what a file becomes

/// The blocks of one element of the body.
pub open spec fn office_nodes(office: XmlView, styles: StylesView) -> Seq<NodeView> {
    if !office.is_element {
        Seq::empty()
    } else if office.name == "text"@ {
        text_nodes(office, styles)
    } else if office.name == "spreadsheet"@ {
        workbook_tables(office.children)
    } else if office.name == "presentation"@ {
        slide_nodes(office, styles)
    } else {
        Seq::empty()
    }
}

/// The blocks of the elements of the body.
pub open spec fn body_nodes(nodes: Seq<XmlView>, styles: StylesView) -> Seq<NodeView>
    decreases nodes.len(),
{
    if nodes.len() == 0 {
        Seq::empty()
    } else {
        body_nodes(nodes.drop_last(), styles) + office_nodes(nodes.last(), styles)
    }
}

/// The document that a parsed content and a parsed style sheet become; without a body it is
/// empty.
pub open spec fn converted(
    name: Seq<char>,
    content: Seq<XmlView>,
    sheet: Option<Seq<XmlView>>,
) -> DocumentView {
    DocumentView {
        name,
        nodes: match first_tag(all_nodes_of(content), "body"@) {
            Some(body) => body_nodes(body.children, styles_of(content, sheet)),
            None => Seq::empty(),
        },
    }
}

/// The outcome of a conversion, from what was found in the file: whether it is an archive, what
/// its content is parsed into, and its style sheet. The error is the text that tells of it.
pub open spec fn outcome(
    name: Seq<char>,
    opens: bool,
    content: Option<Result<Seq<XmlView>, Seq<char>>>,
    sheet: Option<Seq<XmlView>>,
) -> Result<DocumentView, Seq<char>> {
    if !opens {
        Err("odf: not a zip"@)
    } else {
        match content {
            None => Err("odf: no content.xml"@),
            Some(Err(words)) => Err("odf: "@ + words),
            Some(Ok(nodes)) => Ok(converted(name, nodes, sheet)),
        }
    }
}

/// What the content of a file is parsed into, where it has one.
pub open spec fn content_of(bytes: Seq<u8>) -> Option<Result<Seq<XmlView>, Seq<char>>> {
    match archive_text(bytes, "content.xml"@) {
        Some(text) => Some(parsed(text)),
        None => None,
    }
}

/// The style sheet of a file, where it has one that can be parsed.
pub open spec fn sheet_of(bytes: Seq<u8>) -> Option<Seq<XmlView>> {
    match archive_text(bytes, "styles.xml"@) {
        Some(text) => match parsed(text) {
            Ok(nodes) => Some(nodes),
            Err(_) => None,
        },
        None => match parsed(Seq::empty()) {
            Ok(nodes) => Some(nodes),
            Err(_) => None,
        },
    }
}

/// The outcome of converting a file.
pub open spec fn conversion(name: Seq<char>, bytes: Seq<u8>) -> Result<DocumentView, Seq<char>> {
    outcome(name, archive_opens(bytes), content_of(bytes), sheet_of(bytes))
}

/// Whether a result is an outcome; a document whose list items do not fit is a limit reached.
pub open spec fn is_outcome(
    result: Result<DoclingDocument, ConversionError>,
    outcome: Result<DocumentView, Seq<char>>,
) -> bool {
    match result {
        Ok(doc) => outcome == Ok::<DocumentView, Seq<char>>(doc@) && fits(doc@.nodes),
        Err(ConversionError::Parse(words)) => outcome == Err::<DocumentView, Seq<char>>(words@),
        Err(ConversionError::Limit) => outcome matches Ok(doc) && !fits(doc.nodes),
    }
}

// ---------------------------------------------------------------- what fits

proof fn lemma_body_part(nodes: Seq<XmlView>, k: int, styles: StylesView)
    requires
        0 <= k <= nodes.len(),
        fits(body_nodes(nodes, styles)),
    ensures
        fits(body_nodes(nodes.take(k), styles)),
    decreases nodes.len(),
{
    if k == nodes.len() {
        assert(nodes.take(k) =~= nodes);
    } else {
        lemma_fits_add(body_nodes(nodes.drop_last(), styles), office_nodes(nodes.last(), styles));
        lemma_body_part(nodes.drop_last(), k, styles);
        assert(nodes.drop_last().take(k) =~= nodes.take(k));
    }
}

// ---------------------------------------------------------------- converting

/// Appends the blocks of one element of the body; says whether they fit.
fn try_walk_office(office: &XmlNode, styles: &Styles, doc: &mut DoclingDocument) -> (fit: bool)
    requires
        styles@.wf(),
    ensures
        fit == fits(office_nodes(office@, styles@)),
        fit ==> final(doc)@ == extended(old(doc)@, office_nodes(office@, styles@)),
{
    proof {
        lemma_children_view(office);
    }
    if office.is_element {
        let name = office.name.as_str();
        if same_text(name, "text") {
            return try_walk_text(office, styles, doc);
        } else if same_text(name, "spreadsheet") {
            walk_spreadsheet(office, doc);
            proof {
                lemma_workbook_fits(office@.children);
            }
            return true;
        } else if same_text(name, "presentation") {
            return try_walk_presentation(office, styles, doc);
        }
    }
    assert(doc@ =~= extended(old(doc)@, Seq::empty()));
    true
}

/// Converts a parsed content with a parsed style sheet; nothing comes back where the list items
/// are not ones that a document can hold.
pub fn convert_document(name: &str, content: &XmlDocument, sheet: Option<&XmlDocument>) -> (doc:
    Option<DoclingDocument>)
    ensures
        ({
            let whole = converted(
                name@,
                content@,
                match sheet {
                    Some(s) => Some(s@),
                    None => None,
                },
            );
            match doc {
                Some(d) => fits(whole.nodes) && d@ == whole,
                None => !fits(whole.nodes),
            }
        }),
{
    let styles = parse_styles(content, sheet);
    let mut doc = DoclingDocument::new(name);
    let nodes = content.descendants();
    let body = match find_tag(&nodes, "body") {
        Some(body) => body,
        None => {
            return Some(doc);
        },
    };
    proof {
        lemma_children_view(body);
    }
    let ghost all = nodes_view(body.children@);
    let ghost past = doc@;
    let mut i: usize = 0;
    assert(doc@ =~= extended(past, Seq::empty()));
    while i < body.children.len()
        invariant
            styles@.wf(),
            i <= body.children@.len(),
            all == nodes_view(body.children@),
            fits(body_nodes(all.take(i as int), styles@)),
            doc@ == extended(past, body_nodes(all.take(i as int), styles@)),
            converted(
                name@,
                content@,
                match sheet {
                    Some(s) => Some(s@),
                    None => None,
                },
            ).nodes == body_nodes(all, styles@),
        decreases body.children@.len() - i,
    {
        let office = &body.children[i];
        let ghost before = body_nodes(all.take(i as int), styles@);
        let ghost inner = office_nodes(office@, styles@);
        assert(office@ == all[i as int]);
        assert(all.take(i as int + 1).drop_last() =~= all.take(i as int));
        proof {
            if fits(body_nodes(all, styles@)) {
                lemma_body_part(all, i as int + 1, styles@);
            }
            lemma_fits_add(before, inner);
        }
        if !try_walk_office(office, &styles, &mut doc) {
            return None;
        }
        assert(doc@.nodes =~= past.nodes + (before + inner));
        i += 1;
    }
    assert(all.take(i as int) =~= all);
    assert(doc@ =~= (DocumentView { name: name@, nodes: body_nodes(all, styles@) }));
    Some(doc)
}

/// Converts what was found in a file: whether it is an archive, what its content was parsed into
/// and its style sheet.
pub fn convert_parts(
    name: &str,
    opens: bool,
    content: Option<Result<XmlDocument, String>>,
    sheet: Option<XmlDocument>,
) -> (result: Result<DoclingDocument, ConversionError>)
    ensures
        is_outcome(
            result,
            outcome(
                name@,
                opens,
                match content {
                    Some(Ok(d)) => Some(Ok(d@)),
                    Some(Err(words)) => Some(Err(words@)),
                    None => None,
                },
                match sheet {
                    Some(s) => Some(s@),
                    None => None,
                },
            ),
        ),
{
    let result = if !opens {
        Err(ConversionError::Parse("odf: not a zip".to_owned()))
    } else {
        match &content {
            None => Err(ConversionError::Parse("odf: no content.xml".to_owned())),
            Some(Err(words)) => {
                let mut text = "odf: ".to_owned();
                text.append(words.as_str());
                Err(ConversionError::Parse(text))
            },
            Some(Ok(content)) => {
                let doc = match &sheet {
                    Some(s) => convert_document(name, content, Some(s)),
                    None => convert_document(name, content, None),
                };
                match doc {
                    Some(d) => Ok(d),
                    None => Err(ConversionError::Limit),
                }
            },
        }
    };
    if let Some(Ok(d)) = content {
        d.take_apart();
    }
    if let Some(s) = sheet {
        s.take_apart();
    }
    result
}

impl OdfBackend {
    /// Converts a file: the archive is opened, its content and its style sheet are parsed, and the
    /// body becomes the blocks of a document.
    pub fn convert(&self, source: &SourceDocument) -> (result: Result<
        DoclingDocument,
        ConversionError,
    >)
        ensures
            is_outcome(result, conversion(source.name@, source.bytes@)),
    {
        let opens = is_archive(&source.bytes);
        let content = match read_text(&source.bytes, "content.xml") {
            Some(text) => Some(parse_xml(text.as_str())),
            None => None,
        };
        let styles_xml = match read_text(&source.bytes, "styles.xml") {
            Some(text) => text,
            None => String::new(),
        };
        assert(archive_text(source.bytes@, "styles.xml"@) is None ==> styles_xml@ =~= Seq::empty());
        let sheet = match parse_xml(styles_xml.as_str()) {
            Ok(d) => Some(d),
            Err(_) => None,
        };
        convert_parts(source.name.as_str(), opens, content, sheet)
    }
}

} // verus!
