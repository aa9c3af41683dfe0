//! Parsing HTML pages into the document tree.
//!
//! The parse itself is html5ever's: the tree that it builds is named by
//! `parsed_html`, and the rewriters are verified for every tree.
use vstd::prelude::*;
use markup5ever_rcdom::{Handle, NodeData as ParsedData};
use tendril::TendrilSink;
use crate::dom::{DomAttribute, DomNode, DomNodeData, QualifiedName, TreeModel};

verus! {

#[verifier::external_type_specification]
#[verifier::external_body]
pub struct ExParsedNode(markup5ever_rcdom::Node);

#[verifier::external_type_specification]
#[verifier::external_body]
pub struct ExParsedData(markup5ever_rcdom::NodeData);

#[verifier::external_type_specification]
#[verifier::external_body]
pub struct ExParsedName(html5ever::QualName);

#[verifier::external_type_specification]
#[verifier::external_body]
pub struct ExParsedAttribute(html5ever::Attribute);

/// The document tree that html5ever builds from the bytes `html`, read as
/// UTF-8 with invalid sequences replaced.
pub uninterp spec fn parsed_html(html: Seq<u8>) -> TreeModel;

/// Calls `html5ever::parse_document` with a `markup5ever_rcdom::RcDom` sink
/// and default options, feeds it `html` through `from_utf8` (invalid UTF-8
/// replaced) and converts the parsed document to a `DomNode`, field for field.
/// Claimed: the result is the tree that the parser builds from these bytes;
/// html5ever's tree construction depends on its input alone.
#[verifier::external_body]
fn parse_with_html5ever(html: &[u8]) -> (r: DomNode)
    ensures
        r@ == parsed_html(html@),
{
    let sink = markup5ever_rcdom::RcDom::default();
    let dom = html5ever::parse_document(sink, Default::default()).from_utf8().one(html);
    node_of_handle(&dom.document)
}

/// Converts a node of html5ever's tree, with everything below it, field for
/// field; the contract of `parse_with_html5ever`, its only caller, covers it.
#[verifier::external_body]
fn node_of_handle(h: &Handle) -> DomNode {
    DomNode { data: data_of(&h.data), children: h.children.borrow().iter().map(node_of_handle).collect() }
}

/// Converts what a node of html5ever's tree holds, one arm per variant,
/// moving each field over; called by `node_of_handle` only.
#[verifier::external_body]
fn data_of(d: &ParsedData) -> DomNodeData {
    match d {
        ParsedData::Document => DomNodeData::Document,
        ParsedData::Doctype { name, public_id, system_id } => DomNodeData::Doctype { name: name.to_string(), public_id: public_id.to_string(), system_id: system_id.to_string() },
        ParsedData::Text { contents } => DomNodeData::Text { contents: contents.borrow().to_string() },
        ParsedData::Comment { contents } => DomNodeData::Comment { contents: contents.to_string() },
        ParsedData::ProcessingInstruction { target, contents } => DomNodeData::ProcessingInstruction { target: target.to_string(), contents: contents.to_string() },
        ParsedData::Element { name, attrs, template_contents: t, mathml_annotation_xml_integration_point: p } => element_of(name, &attrs.borrow(), t.borrow().as_ref().map(node_of_handle).map(Box::new), *p),
    }
}

/// Converts an element of html5ever's tree, field for field; called by
/// `data_of` only.
#[verifier::external_body]
fn element_of(name: &html5ever::QualName, attrs: &[html5ever::Attribute], template: Option<Box<DomNode>>, point: bool) -> DomNodeData {
    DomNodeData::Element {
        name: name_of(name),
        attrs: attrs.iter().map(attribute_of).collect(),
        template_contents: template,
        mathml_annotation_xml_integration_point: point,
    }
}

/// Converts an attribute of html5ever's tree; called by `element_of` only.
#[verifier::external_body]
fn attribute_of(a: &html5ever::Attribute) -> DomAttribute {
    DomAttribute { name: name_of(&a.name), value: a.value.to_string() }
}

/// Converts a qualified name of html5ever's tree, field for field.
#[verifier::external_body]
fn name_of(q: &html5ever::QualName) -> QualifiedName {
    QualifiedName { prefix: q.prefix.as_ref().map(ToString::to_string), ns: q.ns.to_string(), local: q.local.to_string() }
}

/// Parses an HTML page, given as bytes, into its document tree.
pub fn parse_html(html: &[u8]) -> (r: DomNode)
    ensures
        r@ == parsed_html(html@),
{
    parse_with_html5ever(html)
}

} // verus!
