//! The document tree the rewriters work on, and its mathematical model.
//!
//! A `DomNode` owns its children and the contents of a `<template>` element.
//! Its view is a `TreeModel`, a value of sequences and character strings,
//! over which every contract of the rewriters is stated.
use vstd::prelude::*;

verus! {

/// Model of a qualified name: an optional prefix, a namespace and a local name.
#[verifier::ext_equal]
pub struct NameModel {
    pub prefix: Option<Seq<char>>,
    pub ns: Seq<char>,
    pub local: Seq<char>,
}

/// Model of an attribute.
#[verifier::ext_equal]
pub struct AttrModel {
    pub name: NameModel,
    pub value: Seq<char>,
}

/// Model of what a node holds besides its children.
#[verifier::ext_equal]
#[allow(inconsistent_fields)]
pub enum DataModel {
    Document,
    Doctype { name: Seq<char>, public_id: Seq<char>, system_id: Seq<char> },
    Text { contents: Seq<char> },
    Comment { contents: Seq<char> },
    ProcessingInstruction { target: Seq<char>, contents: Seq<char> },
    Element {
        name: NameModel,
        attrs: Seq<AttrModel>,
        template_contents: Option<Box<TreeModel>>,
        mathml_annotation_xml_integration_point: bool,
    },
}

/// Model of a node with its children.
#[verifier::ext_equal]
pub struct TreeModel {
    pub data: DataModel,
    pub children: Seq<TreeModel>,
}

/// A qualified element or attribute name.
pub struct QualifiedName {
    pub prefix: Option<String>,
    pub ns: String,
    pub local: String,
}

/// An attribute of an element.
pub struct DomAttribute {
    pub name: QualifiedName,
    pub value: String,
}

/// What a node holds besides its children.
#[allow(inconsistent_fields)]
pub enum DomNodeData {
    Document,
    Doctype { name: String, public_id: String, system_id: String },
    Text { contents: String },
    Comment { contents: String },
    ProcessingInstruction { target: String, contents: String },
    Element {
        name: QualifiedName,
        attrs: Vec<DomAttribute>,
        template_contents: Option<Box<DomNode>>,
        mathml_annotation_xml_integration_point: bool,
    },
}

/// A node of the document tree.
pub struct DomNode {
    pub data: DomNodeData,
    pub children: Vec<DomNode>,
}

impl View for QualifiedName {
    type V = NameModel;

    open spec fn view(&self) -> NameModel {
        NameModel {
            prefix: match self.prefix {
                Some(p) => Some(p@),
                None => None,
            },
            ns: self.ns@,
            local: self.local@,
        }
    }
}

impl View for DomAttribute {
    type V = AttrModel;

    open spec fn view(&self) -> AttrModel {
        AttrModel { name: self.name@, value: self.value@ }
    }
}

/// The models of a sequence of attributes.
pub open spec fn attrs_model(attrs: Seq<DomAttribute>) -> Seq<AttrModel> {
    attrs.map_values(|a: DomAttribute| a@)
}

/// The model of a node.
pub open spec fn node_model(n: DomNode) -> TreeModel
    decreases n,
{
    TreeModel { data: data_model(n.data), children: nodes_model(n.children@) }
}

/// The model of the data of a node.
pub open spec fn data_model(d: DomNodeData) -> DataModel
    decreases d,
{
    match d {
        DomNodeData::Document => DataModel::Document,
        DomNodeData::Doctype { name, public_id, system_id } => DataModel::Doctype {
            name: name@,
            public_id: public_id@,
            system_id: system_id@,
        },
        DomNodeData::Text { contents } => DataModel::Text { contents: contents@ },
        DomNodeData::Comment { contents } => DataModel::Comment { contents: contents@ },
        DomNodeData::ProcessingInstruction { target, contents } => DataModel::ProcessingInstruction {
            target: target@,
            contents: contents@,
        },
        DomNodeData::Element { name, attrs, template_contents, mathml_annotation_xml_integration_point } => {
            DataModel::Element {
                name: name@,
                attrs: attrs_model(attrs@),
                template_contents: match template_contents {
                    Some(b) => Some(Box::new(node_model(*b))),
                    None => None,
                },
                mathml_annotation_xml_integration_point,
            }
        },
    }
}

/// The models of a sequence of nodes.
pub open spec fn nodes_model(ns: Seq<DomNode>) -> Seq<TreeModel>
    decreases ns,
{
    if ns.len() == 0 {
        Seq::empty()
    } else {
        nodes_model(ns.drop_last()).push(node_model(ns.last()))
    }
}

impl View for DomNode {
    type V = TreeModel;

    open spec fn view(&self) -> TreeModel {
        node_model(*self)
    }
}


/// The model of a sequence of nodes has one entry per node.
pub proof fn lemma_nodes_model(ns: Seq<DomNode>)
    ensures
        nodes_model(ns).len() == ns.len(),
        forall|i: int| 0 <= i < ns.len() ==> #[trigger] nodes_model(ns)[i] == node_model(ns[i]),
    decreases ns.len(),
{
    if ns.len() > 0 {
        lemma_nodes_model(ns.drop_last());
    }
}

/// Models of a growing prefix of a sequence of nodes.
pub proof fn lemma_nodes_model_take(ns: Seq<DomNode>, i: int)
    requires
        0 <= i < ns.len(),
    ensures
        nodes_model(ns.take(i + 1)) == nodes_model(ns.take(i)).push(node_model(ns[i])),
{
    assert(ns.take(i + 1).drop_last() =~= ns.take(i));
}

/// Appending a node appends its model.
pub proof fn lemma_nodes_model_push(ns: Seq<DomNode>, n: DomNode)
    ensures
        nodes_model(ns.push(n)) == nodes_model(ns).push(node_model(n)),
{
    assert(ns.push(n).drop_last() =~= ns);
}

/// A copy of a qualified name.
pub fn copy_name(n: &QualifiedName) -> (r: QualifiedName)
    ensures
        r@ == n@,
{
    QualifiedName {
        prefix: match &n.prefix {
            Some(p) => Some(p.clone()),
            None => None,
        },
        ns: n.ns.clone(),
        local: n.local.clone(),
    }
}

/// A copy of a list of attributes.
pub fn copy_attrs(attrs: &Vec<DomAttribute>) -> (r: Vec<DomAttribute>)
    ensures
        attrs_model(r@) == attrs_model(attrs@),
{
    let mut r: Vec<DomAttribute> = Vec::new();
    for i in 0..attrs.len()
        invariant
            r@.len() == i,
            forall|j: int| 0 <= j < i ==> #[trigger] r@[j]@ == attrs@[j]@,
    {
        r.push(DomAttribute { name: copy_name(&attrs[i].name), value: attrs[i].value.clone() });
    }
    assert(attrs_model(r@) =~= attrs_model(attrs@));
    r
}

/// A copy of the data of a node.
pub fn copy_data(d: &DomNodeData) -> (r: DomNodeData)
    ensures
        data_model(r) == data_model(*d),
    decreases d,
{
    match d {
        DomNodeData::Document => DomNodeData::Document,
        DomNodeData::Doctype { name, public_id, system_id } => DomNodeData::Doctype {
            name: name.clone(),
            public_id: public_id.clone(),
            system_id: system_id.clone(),
        },
        DomNodeData::Text { contents } => DomNodeData::Text { contents: contents.clone() },
        DomNodeData::Comment { contents } => DomNodeData::Comment { contents: contents.clone() },
        DomNodeData::ProcessingInstruction { target, contents } => DomNodeData::ProcessingInstruction {
            target: target.clone(),
            contents: contents.clone(),
        },
        DomNodeData::Element { name, attrs, template_contents, mathml_annotation_xml_integration_point } => {
            let tc = match template_contents {
                Some(b) => Some(Box::new(copy_node(b))),
                None => None,
            };
            DomNodeData::Element {
                name: copy_name(name),
                attrs: copy_attrs(attrs),
                template_contents: tc,
                mathml_annotation_xml_integration_point: *mathml_annotation_xml_integration_point,
            }
        },
    }
}

/// A copy of a sequence of nodes.
pub fn copy_nodes(ns: &Vec<DomNode>) -> (r: Vec<DomNode>)
    ensures
        nodes_model(r@) == nodes_model(ns@),
    decreases ns,
{
    let mut r: Vec<DomNode> = Vec::new();
    let mut i: usize = 0;
    while i < ns.len()
        invariant
            i <= ns.len(),
            nodes_model(r@) == nodes_model(ns@.take(i as int)),
        decreases ns.len() - i,
    {
        let c = copy_node(&ns[i]);
        proof {
            lemma_nodes_model_push(r@, c);
            lemma_nodes_model_take(ns@, i as int);
        }
        r.push(c);
        i = i + 1;
    }
    assert(ns@.take(ns.len() as int) =~= ns@);
    r
}

/// A copy of a node with everything below it.
pub fn copy_node(n: &DomNode) -> (r: DomNode)
    ensures
        r@ == n@,
    decreases n,
{
    DomNode { data: copy_data(&n.data), children: copy_nodes(&n.children) }
}

} // verus!
