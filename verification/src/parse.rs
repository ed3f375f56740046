//! Reading XML text into a tree.

use vstd::prelude::*;

use crate::xml::{
    build_document, forest, items_view, law_trees_keep_their_listing, listing, well_sized, Attr,
    ItemView, XmlDocument, XmlItem, XmlView,
};

verus! {

/// What `roxmltree::Document::parse` makes of a text: the nodes of the document from its root on,
/// in document order, or the words of the error.
pub uninterp spec fn xml_items(xml: Seq<char>) -> Result<Seq<ItemView>, Seq<char>>;

/// `roxmltree::Document::parse`, with the nodes that `Document::descendants` hands out.
///
/// The text alone decides the outcome. A node's size is the number of nodes that its own
/// `descendants` hands out: the node and everything below it, which stands right behind it. Names
/// are local names. Of an error there is what it displays.
#[verifier::external_body]
fn read_nodes(xml: &str) -> (nodes: Result<Vec<XmlItem>, String>)
    ensures
        match nodes {
            Ok(items) => {
                &&& xml_items(xml@) == Ok::<Seq<ItemView>, Seq<char>>(items_view(items@))
                &&& well_sized(items_view(items@))
            },
            Err(words) => xml_items(xml@) == Err::<Seq<ItemView>, Seq<char>>(words@),
        },
{
    let doc = roxmltree::Document::parse(xml).map_err(|e| e.to_string())?;
    Ok(doc.descendants().map(|n| XmlItem {
        size: n.descendants().len(),
        is_element: n.is_element(),
        is_text: n.is_text(),
        name: n.tag_name().name().to_string(),
        attrs: n.attributes().map(|a| Attr {
            name: a.name().to_string(),
            value: a.value().to_string(),
        }).collect(),
        text: n.text().map(|t| t.to_string()),
    }).collect())
}

/// The tree that a text is parsed into, or the words of the error.
pub open spec fn parsed(xml: Seq<char>) -> Result<Seq<XmlView>, Seq<char>> {
    match xml_items(xml) {
        Ok(items) => Ok(forest(items)),
        Err(words) => Err(words),
    }
}

/// Parses a text as an XML document: the tree holds what the parser lists, in its order, each node
/// above the same ones. The error is the parser's own words.
pub fn parse_xml(xml: &str) -> (doc: Result<XmlDocument, String>)
    ensures
        match doc {
            Ok(d) => {
                &&& parsed(xml@) == Ok::<Seq<XmlView>, Seq<char>>(d@)
                &&& xml_items(xml@) == Ok::<Seq<ItemView>, Seq<char>>(listing(d@))
            },
            Err(words) => parsed(xml@) == Err::<Seq<XmlView>, Seq<char>>(words@),
        },
{
    match read_nodes(xml) {
        Ok(items) => {
            proof {
                law_trees_keep_their_listing(items_view(items@));
            }
            Ok(build_document(items))
        },
        Err(words) => Err(words),
    }
}

} // verus!
