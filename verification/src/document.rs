//! The document model: a flat list of headings, paragraphs, list items and tables.

use vstd::prelude::*;

use crate::text::texts;

verus! {

/// A table: its rows, each a list of cell texts.
pub struct Table {
    pub rows: Vec<Vec<String>>,
}

/// One block of a document.
pub enum Node {
    Heading { level: u8, text: String },
    Paragraph { text: String },
    ListItem { ordered: bool, number: u64, first_in_list: bool, text: String, level: u8 },
    Table(Table),
}

/// A converted document: its name and its blocks, in reading order.
pub struct DoclingDocument {
    pub name: String,
    pub nodes: Vec<Node>,
}

/// The mathematical form of [`Node`].
#[verifier::ext_equal]
pub enum NodeView {
    Heading { level: int, text: Seq<char> },
    Paragraph { text: Seq<char> },
    ListItem { ordered: bool, number: int, first_in_list: bool, text: Seq<char>, depth: int },
    Table { rows: Seq<Seq<Seq<char>>> },
}

/// The mathematical form of [`DoclingDocument`].
#[verifier::ext_equal]
pub struct DocumentView {
    pub name: Seq<char>,
    pub nodes: Seq<NodeView>,
}

/// The contents of a table's rows.
pub open spec fn rows_view(rows: Seq<Vec<String>>) -> Seq<Seq<Seq<char>>> {
    rows.map_values(|r: Vec<String>| texts(r@))
}

impl View for Table {
    type V = Seq<Seq<Seq<char>>>;

    open spec fn view(&self) -> Seq<Seq<Seq<char>>> {
        rows_view(self.rows@)
    }
}

impl View for Node {
    type V = NodeView;

    open spec fn view(&self) -> NodeView {
        match *self {
            Node::Heading { level, text } => NodeView::Heading { level: level as int, text: text@ },
            Node::Paragraph { text } => NodeView::Paragraph { text: text@ },
            Node::ListItem { ordered, number, first_in_list, text, level } => NodeView::ListItem {
                ordered,
                number: number as int,
                first_in_list,
                text: text@,
                depth: level as int,
            },
            Node::Table(table) => NodeView::Table { rows: table@ },
        }
    }
}

/// The mathematical forms of a list of blocks.
pub open spec fn blocks_view(nodes: Seq<Node>) -> Seq<NodeView> {
    nodes.map_values(|n: Node| n@)
}

impl View for DoclingDocument {
    type V = DocumentView;

    open spec fn view(&self) -> DocumentView {
        DocumentView { name: self.name@, nodes: blocks_view(self.nodes@) }
    }
}

/// A document with blocks appended to it.
pub open spec fn extended(doc: DocumentView, nodes: Seq<NodeView>) -> DocumentView {
    DocumentView { name: doc.name, nodes: doc.nodes + nodes }
}

impl DoclingDocument {
    /// An empty document.
    pub fn new(name: &str) -> (doc: DoclingDocument)
        ensures
            doc@ == (DocumentView { name: name@, nodes: Seq::empty() }),
    {
        let doc = DoclingDocument { name: name.to_owned(), nodes: Vec::new() };
        assert(blocks_view(doc.nodes@) =~= Seq::empty());
        doc
    }

    /// Appends a block.
    pub fn push(&mut self, node: Node)
        ensures
            final(self)@ == (DocumentView {
                name: old(self)@.name,
                nodes: old(self)@.nodes.push(node@),
            }),
    {
        let ghost before = self@.nodes;
        self.nodes.push(node);
        assert(blocks_view(self.nodes@) =~= before.push(node@));
    }
}

} // verus!
