//! Declarative shadow DOM inlining of `<template component>` definitions.
//!
//! A `<template component="name">` element defines a component: its template
//! contents, with `<script>` elements removed, become a shadow root attached,
//! through a `<template shadowrootmode>` child, to every element named like
//! the component. `<template mixin global>` contents are appended to every
//! such shadow root.
use vstd::prelude::*;
use crate::dom::{
    attrs_model, copy_data, copy_node, copy_nodes, lemma_nodes_model, lemma_nodes_model_push, node_model, nodes_model,
    AttrModel, DomAttribute, DataModel, NameModel, DomNode, DomNodeData, QualifiedName, TreeModel,
};
use crate::text::{str_eq, string_eq, strings_model};

verus! {

// ---------------------------------------------------------------------------
// Model
// ---------------------------------------------------------------------------

/// Whether `t` is an element whose local name is `local`.
pub open spec fn is_element_named(t: TreeModel, local: Seq<char>) -> bool {
    t.data matches DataModel::Element { name, .. } && name.local == local
}

/// The first attribute whose local name is `local`.
pub open spec fn first_attr(attrs: Seq<AttrModel>, local: Seq<char>) -> Option<AttrModel>
    decreases attrs.len(),
{
    if attrs.len() == 0 {
        None
    } else if attrs[0].name.local == local {
        Some(attrs[0])
    } else {
        first_attr(attrs.drop_first(), local)
    }
}

/// `t` with every `<script>` element below it removed; template contents are kept as they are.
pub open spec fn without_scripts(t: TreeModel) -> TreeModel
    decreases t,
{
    TreeModel { data: t.data, children: children_without_scripts(t.children) }
}

/// The children that are no `<script>` element, each without scripts.
pub open spec fn children_without_scripts(cs: Seq<TreeModel>) -> Seq<TreeModel>
    decreases cs,
{
    if cs.len() == 0 {
        Seq::empty()
    } else {
        let prev = children_without_scripts(cs.drop_last());
        if is_element_named(cs.last(), "script"@) {
            prev
        } else {
            prev.push(without_scripts(cs.last()))
        }
    }
}

/// A component definition: its name, its shadow root mode and its contents.
#[verifier::ext_equal]
pub struct DefModel {
    pub name: Seq<char>,
    pub mode: Seq<char>,
    pub contents: TreeModel,
}

/// The component that a `<template>` element defines, if any.
pub open spec fn template_component(t: TreeModel) -> Option<DefModel> {
    match t.data {
        DataModel::Element { attrs, template_contents, .. } => match (first_attr(attrs, "component"@), template_contents) {
            (Some(a), Some(c)) => Some(
                DefModel {
                    name: a.value,
                    mode: match first_attr(attrs, "shadow"@) {
                        Some(s) => s.value,
                        None => "closed"@,
                    },
                    contents: without_scripts(*c),
                },
            ),
            _ => None,
        },
        _ => None,
    }
}

/// The global mixin that a `<template>` element defines, if any.
pub open spec fn template_mixin(t: TreeModel) -> Option<TreeModel> {
    match t.data {
        DataModel::Element { attrs, template_contents, .. } => {
            if template_component(t) is None && first_attr(attrs, "mixin"@) is Some && first_attr(
                attrs,
                "global"@,
            ) is Some && template_contents is Some {
                Some(without_scripts(*template_contents->0))
            } else {
                None
            }
        },
        _ => None,
    }
}

/// The component definitions found in `t`, in document order; templates are not entered.
pub open spec fn found_components(t: TreeModel) -> Seq<DefModel>
    decreases t,
{
    if is_element_named(t, "template"@) {
        match template_component(t) {
            Some(d) => seq![d],
            None => Seq::empty(),
        }
    } else {
        found_components_seq(t.children)
    }
}

/// The component definitions found in a sequence of trees.
pub open spec fn found_components_seq(cs: Seq<TreeModel>) -> Seq<DefModel>
    decreases cs,
{
    if cs.len() == 0 {
        Seq::empty()
    } else {
        found_components_seq(cs.drop_last()) + found_components(cs.last())
    }
}

/// The global mixins found in `t`, in document order; templates are not entered.
pub open spec fn found_mixins(t: TreeModel) -> Seq<TreeModel>
    decreases t,
{
    if is_element_named(t, "template"@) {
        match template_mixin(t) {
            Some(m) => seq![m],
            None => Seq::empty(),
        }
    } else {
        found_mixins_seq(t.children)
    }
}

/// The global mixins found in a sequence of trees.
pub open spec fn found_mixins_seq(cs: Seq<TreeModel>) -> Seq<TreeModel>
    decreases cs,
{
    if cs.len() == 0 {
        Seq::empty()
    } else {
        found_mixins_seq(cs.drop_last()) + found_mixins(cs.last())
    }
}

/// Whether a definition of `name` is among `defs`.
pub open spec fn has_definition(defs: Seq<DefModel>, name: Seq<char>) -> bool {
    exists|i: int| 0 <= i < defs.len() && #[trigger] defs[i].name == name
}

/// `defs` extended by the candidates whose name is not defined yet: the first definition wins.
pub open spec fn add_definitions(defs: Seq<DefModel>, cands: Seq<DefModel>) -> Seq<DefModel>
    decreases cands.len(),
{
    if cands.len() == 0 {
        defs
    } else {
        let prev = add_definitions(defs, cands.drop_last());
        if has_definition(prev, cands.last().name) {
            prev
        } else {
            prev.push(cands.last())
        }
    }
}

/// The elements named `name` reached from `t` through children, not below another one so named.
pub open spec fn uses(t: TreeModel, name: Seq<char>) -> Seq<TreeModel>
    decreases t,
{
    if is_element_named(t, name) {
        seq![t]
    } else {
        uses_seq(t.children, name)
    }
}

/// The uses of `name` in a sequence of trees.
pub open spec fn uses_seq(cs: Seq<TreeModel>, name: Seq<char>) -> Seq<TreeModel>
    decreases cs,
{
    if cs.len() == 0 {
        Seq::empty()
    } else {
        uses_seq(cs.drop_last(), name) + uses(cs.last(), name)
    }
}

/// Index of the first definition named `name` in `defs`, or -1 when there is none.
pub open spec fn def_index(defs: Seq<DefModel>, name: Seq<char>) -> int
    decreases defs.len(),
{
    if defs.len() == 0 {
        -1
    } else {
        let j = def_index(defs.drop_last(), name);
        if j >= 0 {
            j
        } else if defs.last().name == name {
            defs.len() - 1
        } else {
            -1
        }
    }
}

/// How many times the component `defs[j]` is instantiated when `t` is expanded:
/// its uses in `t`, plus, for every use in `t` of a component, the instances in
/// that component's contents, down to `fuel` levels of nesting.
pub open spec fn instances(t: TreeModel, defs: Seq<DefModel>, j: int, fuel: nat) -> nat
    decreases fuel, defs.len() + 1,
{
    uses(t, defs[j].name).len() + instances_sum(t, defs, j, fuel, defs.len())
}

/// The instances of `defs[j]` inside the uses in `t` of `defs[0..upto]`.
pub open spec fn instances_sum(t: TreeModel, defs: Seq<DefModel>, j: int, fuel: nat, upto: nat) -> nat
    decreases fuel, upto,
{
    if fuel == 0 || upto == 0 {
        0
    } else {
        instances_sum(t, defs, j, fuel, (upto - 1) as nat) + uses(t, defs[upto - 1].name).len()
            * instances(defs[upto - 1].contents, defs, j, (fuel - 1) as nat)
    }
}

/// Whether expanding the components used in `t` ends within `fuel` levels of nesting.
pub open spec fn expands(t: TreeModel, defs: Seq<DefModel>, fuel: nat) -> bool
    decreases fuel, defs.len() + 1,
{
    expands_upto(t, defs, fuel, defs.len())
}

/// `expands`, for the uses of `defs[0..upto]`.
pub open spec fn expands_upto(t: TreeModel, defs: Seq<DefModel>, fuel: nat, upto: nat) -> bool
    decreases fuel, upto,
{
    upto == 0 || (expands_upto(t, defs, fuel, (upto - 1) as nat) && (uses(t, defs[upto - 1].name).len()
        > 0 ==> fuel > 0 && expands(defs[upto - 1].contents, defs, (fuel - 1) as nat)))
}

/// The `<template shadowrootmode>` element that attaches `contents` as a shadow root.
pub open spec fn shadow_root_template(mode: Seq<char>, contents: TreeModel, mixins: Seq<TreeModel>) -> TreeModel {
    TreeModel {
        data: DataModel::Element {
            name: NameModel { prefix: None, ns: Seq::empty(), local: "template"@ },
            attrs: seq![
                AttrModel {
                    name: NameModel { prefix: None, ns: Seq::empty(), local: "shadowrootmode"@ },
                    value: mode,
                },
            ],
            template_contents: Some(Box::new(contents)),
            mathml_annotation_xml_integration_point: false,
        },
        children: mixins,
    }
}

/// `t` where every use of a component not below another use of the same
/// component (nor below one named in `blocked`) gets `m` shadow root templates
/// appended to its children. The contents of the shadow root of `defs[i]` is
/// itself filled, with `ks[i]` templates per use.
pub open spec fn filled(
    t: TreeModel,
    m: nat,
    ks: Seq<nat>,
    defs: Seq<DefModel>,
    mixins: Seq<TreeModel>,
    fuel: nat,
    blocked: Seq<Seq<char>>,
) -> TreeModel
    decreases fuel, t,
{
    match t.data {
        DataModel::Element { name, .. } => {
            let i = def_index(defs, name.local);
            if i >= 0 {
                let kids = filled_seq(t.children, m, ks, defs, mixins, fuel, blocked.push(name.local));
                if blocked.contains(name.local) {
                    TreeModel { data: t.data, children: kids }
                } else {
                    let contents = if fuel == 0 {
                        defs[i].contents
                    } else {
                        filled(defs[i].contents, ks[i], ks, defs, mixins, (fuel - 1) as nat, Seq::empty())
                    };
                    let tpl = shadow_root_template(defs[i].mode, contents, mixins);
                    TreeModel { data: t.data, children: kids + Seq::new(m, |k: int| tpl) }
                }
            } else {
                TreeModel { data: t.data, children: filled_seq(t.children, m, ks, defs, mixins, fuel, blocked) }
            }
        },
        _ => TreeModel { data: t.data, children: filled_seq(t.children, m, ks, defs, mixins, fuel, blocked) },
    }
}

/// `filled` on each tree of a sequence.
pub open spec fn filled_seq(
    cs: Seq<TreeModel>,
    m: nat,
    ks: Seq<nat>,
    defs: Seq<DefModel>,
    mixins: Seq<TreeModel>,
    fuel: nat,
    blocked: Seq<Seq<char>>,
) -> Seq<TreeModel>
    decreases fuel, cs,
{
    if cs.len() == 0 {
        Seq::empty()
    } else {
        filled_seq(cs.drop_last(), m, ks, defs, mixins, fuel, blocked).push(
            filled(cs.last(), m, ks, defs, mixins, fuel, blocked),
        )
    }
}

/// The component definitions of a document: the first definition of a name wins.
pub open spec fn facet_definitions(doc: TreeModel) -> Seq<DefModel> {
    add_definitions(Seq::empty(), found_components(doc))
}

/// How many times each component is instantiated in a document.
pub open spec fn instance_counts(doc: TreeModel, defs: Seq<DefModel>) -> Seq<nat> {
    Seq::new(defs.len(), |j: int| instances(doc, defs, j, defs.len()))
}

/// The document with every component use given its shadow root.
pub open spec fn facet_inlined(doc: TreeModel) -> TreeModel {
    let defs = facet_definitions(doc);
    filled(doc, 1, instance_counts(doc, defs), defs, found_mixins(doc), defs.len(), Seq::empty())
}

/// Whether some component is used in `t`.
pub open spec fn uses_some_component(t: TreeModel, defs: Seq<DefModel>) -> bool {
    exists|j: int| #![trigger defs[j]] 0 <= j < defs.len() && uses(t, defs[j].name).len() > 0
}

/// Whether no component of `defs` other than `defs[j]` is instantiated when `doc` is expanded.
pub open spec fn only_instantiated(doc: TreeModel, defs: Seq<DefModel>, j: int) -> bool {
    forall|i: int| 0 <= i < defs.len() && i != j ==> #[trigger] instances(doc, defs, i, defs.len()) == 0
}

/// The documents that inlining is defined on: component expansion ends (no
/// component uses itself, directly or not); a component used in a global
/// mixin is the only component instantiated, if any is (a mixin is attached
/// to every shadow root, so once a use inside it is reached through another
/// component's shadow root, the mixin comes to contain itself); and the
/// number of instances of each component fits in a `usize`.
pub open spec fn facet_inlining_defined(doc: TreeModel) -> bool {
    let defs = facet_definitions(doc);
    let mixins = found_mixins(doc);
    &&& expands(doc, defs, defs.len())
    &&& forall|k: int, j: int|
        0 <= k < mixins.len() && 0 <= j < defs.len() && #[trigger] uses(mixins[k], defs[j].name).len() > 0
            ==> only_instantiated(doc, defs, j)
    &&& forall|j: int| 0 <= j < defs.len() ==> #[trigger] instances(doc, defs, j, defs.len()) <= usize::MAX
}

// ---------------------------------------------------------------------------
// Executable types
// ---------------------------------------------------------------------------

/// A component definition found in a document.
pub struct ComponentDefinition {
    pub name: String,
    pub shadowroot_mode: String,
    pub contents: DomNode,
}

impl View for ComponentDefinition {
    type V = DefModel;

    open spec fn view(&self) -> DefModel {
        DefModel { name: self.name@, mode: self.shadowroot_mode@, contents: self.contents@ }
    }
}

/// The models of a sequence of definitions.
pub open spec fn defs_model(ds: Seq<ComponentDefinition>) -> Seq<DefModel> {
    ds.map_values(|d: ComponentDefinition| d@)
}

// ---------------------------------------------------------------------------
// Proofs about the model
// ---------------------------------------------------------------------------

proof fn lemma_seq_prefix<A>(s: Seq<A>, i: int)
    requires
        0 <= i < s.len(),
    ensures
        s.take(i + 1).drop_last() == s.take(i),
        s.take(i + 1).last() == s[i],
{
    assert(s.take(i + 1).drop_last() =~= s.take(i));
}

proof fn lemma_first_attr_skip(attrs: Seq<AttrModel>, local: Seq<char>, i: int)
    requires
        0 <= i < attrs.len(),
        attrs[i].name.local != local,
    ensures
        first_attr(attrs.skip(i), local) == first_attr(attrs.skip(i + 1), local),
{
    assert(attrs.skip(i).drop_first() =~= attrs.skip(i + 1));
}

proof fn lemma_add_definitions_append(defs: Seq<DefModel>, a: Seq<DefModel>, b: Seq<DefModel>)
    ensures
        add_definitions(defs, a + b) == add_definitions(add_definitions(defs, a), b),
    decreases b.len(),
{
    if b.len() == 0 {
        assert(a + b =~= a);
    } else {
        assert((a + b).drop_last() =~= a + b.drop_last());
        lemma_add_definitions_append(defs, a, b.drop_last());
    }
}

// ---------------------------------------------------------------------------
// Executable functions
// ---------------------------------------------------------------------------

/// The first attribute whose local name is `local`.
pub fn find_attr<'a>(attrs: &'a Vec<DomAttribute>, local: &str) -> (r: Option<&'a DomAttribute>)
    ensures
        match r {
            Some(a) => first_attr(attrs_model(attrs@), local@) == Some(a@),
            None => first_attr(attrs_model(attrs@), local@) is None,
        },
{
    let ghost am = attrs_model(attrs@);
    let mut i: usize = 0;
    assert(am.skip(0) =~= am);
    while i < attrs.len()
        invariant
            i <= attrs.len(),
            am == attrs_model(attrs@),
            first_attr(am, local@) == first_attr(am.skip(i as int), local@),
        decreases attrs.len() - i,
    {
        if str_eq(&attrs[i].name.local, local) {
            assert(am.skip(i as int)[0] == am[i as int]);
            return Some(&attrs[i]);
        }
        proof {
            lemma_first_attr_skip(am, local@, i as int);
        }
        i = i + 1;
    }
    None
}

/// Whether `n` is an element whose local name is `local`.
pub fn element_named(n: &DomNode, local: &str) -> (r: bool)
    ensures
        r == is_element_named(n@, local@),
{
    match &n.data {
        DomNodeData::Element { name, .. } => str_eq(&name.local, local),
        _ => false,
    }
}

/// A copy of `node` without the `<script>` elements below it.
pub fn remove_script_elements(node: &DomNode) -> (r: DomNode)
    ensures
        r@ == without_scripts(node@),
    decreases node,
{
    let mut kids: Vec<DomNode> = Vec::new();
    let mut i: usize = 0;
    proof {
        lemma_nodes_model(node.children@);
    }
    while i < node.children.len()
        invariant
            i <= node.children.len(),
            nodes_model(node.children@).len() == node.children@.len(),
            forall|j: int| 0 <= j < node.children@.len() ==> #[trigger] nodes_model(node.children@)[j] == node_model(node.children@[j]),
            nodes_model(kids@) == children_without_scripts(nodes_model(node.children@).take(i as int)),
        decreases node.children.len() - i,
    {
        let child = &node.children[i];
        proof {
            lemma_seq_prefix(nodes_model(node.children@), i as int);
        }
        if !element_named(child, "script") {
            let c = remove_script_elements(child);
            proof {
                lemma_nodes_model_push(kids@, c);
            }
            kids.push(c);
        }
        i = i + 1;
    }
    assert(nodes_model(node.children@).take(node.children.len() as int) =~= nodes_model(node.children@));
    DomNode { data: copy_data(&node.data), children: kids }
}


/// Whether `defs` holds a definition named `name`.
fn has_definition_exec(defs: &Vec<ComponentDefinition>, name: &String) -> (r: bool)
    ensures
        r == has_definition(defs_model(defs@), name@),
{
    let ghost dm = defs_model(defs@);
    let mut i: usize = 0;
    while i < defs.len()
        invariant
            i <= defs.len(),
            dm == defs_model(defs@),
            forall|j: int| 0 <= j < i ==> dm[j].name != name@,
        decreases defs.len() - i,
    {
        if string_eq(&defs[i].name, name) {
            assert(dm[i as int].name == name@);
            return true;
        }
        i = i + 1;
    }
    false
}

/// Collects the component definitions and the global mixins found in `node`.
///
/// A definition whose name is already defined is dropped: the first one wins.
pub fn find_components_definitions(
    node: &DomNode,
    definitions: &mut Vec<ComponentDefinition>,
    global_mixins: &mut Vec<DomNode>,
)
    ensures
        defs_model(final(definitions)@) == add_definitions(defs_model(old(definitions)@), found_components(node@)),
        nodes_model(final(global_mixins)@) == nodes_model(old(global_mixins)@) + found_mixins(node@),
    decreases node,
{
    let ghost d0 = defs_model(definitions@);
    let ghost m0 = nodes_model(global_mixins@);
    if element_named(node, "template") {
        match &node.data {
            DomNodeData::Element { attrs, template_contents, .. } => {
                let comp = find_attr(attrs, "component");
                if comp.is_some() && template_contents.is_some() {
                    let a = comp.unwrap();
                    let c = match template_contents {
                        Some(c) => c,
                        None => { return; },
                    };
                    let clean = remove_script_elements(c);
                    let mode = match find_attr(attrs, "shadow") {
                        Some(s) => s.value.clone(),
                        None => "closed".to_owned(),
                    };
                    let ghost d = DefModel { name: a.value@, mode: mode@, contents: clean@ };
                    assert(template_component(node@) == Some(d));
                    assert(found_components(node@) == seq![d]);
                    assert(seq![d].drop_last() =~= Seq::<DefModel>::empty());
                    assert(add_definitions(d0, Seq::<DefModel>::empty()) == d0);
                    assert(seq![d].last() == d);
                    assert(add_definitions(d0, seq![d]) == (if has_definition(d0, d.name) { d0 } else { d0.push(d) }));
                    if !has_definition_exec(definitions, &a.value) {
                        let def = ComponentDefinition { name: a.value.clone(), shadowroot_mode: mode, contents: clean };
                        definitions.push(def);
                        assert(defs_model(definitions@) =~= d0.push(d));
                    }
                    assert(found_mixins(node@) =~= Seq::<TreeModel>::empty());
                    assert(nodes_model(global_mixins@) =~= m0 + found_mixins(node@));
                } else {
                    assert(template_component(node@) is None);
                    assert(found_components(node@) =~= Seq::<DefModel>::empty());
                    let is_mixin = find_attr(attrs, "mixin").is_some() && find_attr(attrs, "global").is_some();
                    if is_mixin && template_contents.is_some() {
                        let c = match template_contents {
                            Some(c) => c,
                            None => { return; },
                        };
                        let clean = remove_script_elements(c);
                        assert(found_mixins(node@) == seq![clean@]);
                        proof {
                            lemma_nodes_model_push(global_mixins@, clean);
                        }
                        global_mixins.push(clean);
                    } else {
                        assert(found_mixins(node@) =~= Seq::<TreeModel>::empty());
                    }
                    assert(nodes_model(global_mixins@) =~= m0 + found_mixins(node@));
                }
            },
            _ => {},
        }
    } else {
        let ghost cm = nodes_model(node.children@);
        proof {
            lemma_nodes_model(node.children@);
        }
        let mut i: usize = 0;
        assert(cm.take(0) =~= Seq::<TreeModel>::empty());
        while i < node.children.len()
            invariant
                i <= node.children.len(),
                cm == nodes_model(node.children@),
                cm.len() == node.children@.len(),
                forall|j: int| 0 <= j < node.children@.len() ==> #[trigger] cm[j] == node_model(node.children@[j]),
                defs_model(definitions@) == add_definitions(d0, found_components_seq(cm.take(i as int))),
                nodes_model(global_mixins@) == m0 + found_mixins_seq(cm.take(i as int)),
            decreases node.children.len() - i,
        {
            let ghost before_d = defs_model(definitions@);
            let ghost before_m = nodes_model(global_mixins@);
            find_components_definitions(&node.children[i], definitions, global_mixins);
            proof {
                lemma_seq_prefix(cm, i as int);
                lemma_add_definitions_append(d0, found_components_seq(cm.take(i as int)), found_components(cm[i as int]));
                assert(m0 + found_mixins_seq(cm.take(i + 1)) =~= before_m + found_mixins(cm[i as int]));
            }
            i = i + 1;
        }
        assert(cm.take(node.children.len() as int) =~= cm);
    }
}

/// The models of the nodes a sequence of references points to.
pub open spec fn refs_model(rs: Seq<&DomNode>) -> Seq<TreeModel> {
    rs.map_values(|r: &DomNode| node_model(*r))
}

/// Appends to `usages` the elements of `node` named `component_name`, in document order.
///
/// An element so named is not searched further, and template contents are not entered.
pub fn find_components_uses<'a>(node: &'a DomNode, component_name: &String, usages: &mut Vec<&'a DomNode>)
    ensures
        refs_model(final(usages)@) == refs_model(old(usages)@) + uses(node@, component_name@),
    decreases node,
{
    let ghost u0 = refs_model(usages@);
    let is_use = match &node.data {
        DomNodeData::Element { name, .. } => string_eq(&name.local, component_name),
        _ => false,
    };
    if is_use {
        usages.push(node);
        assert(refs_model(usages@) =~= u0 + uses(node@, component_name@));
    } else {
        let ghost cm = nodes_model(node.children@);
        proof {
            lemma_nodes_model(node.children@);
        }
        let mut i: usize = 0;
        assert(cm.take(0) =~= Seq::<TreeModel>::empty());
        assert(u0 + uses_seq(cm.take(0), component_name@) =~= u0);
        while i < node.children.len()
            invariant
                i <= node.children.len(),
                cm == nodes_model(node.children@),
                cm.len() == node.children@.len(),
                forall|j: int| 0 <= j < node.children@.len() ==> #[trigger] cm[j] == node_model(node.children@[j]),
                refs_model(usages@) == u0 + uses_seq(cm.take(i as int), component_name@),
            decreases node.children.len() - i,
        {
            let ghost before = refs_model(usages@);
            find_components_uses(&node.children[i], component_name, usages);
            proof {
                lemma_seq_prefix(cm, i as int);
                assert(u0 + uses_seq(cm.take(i + 1), component_name@) =~= before + uses(cm[i as int], component_name@));
            }
            i = i + 1;
        }
        assert(cm.take(node.children.len() as int) =~= cm);
    }
}


proof fn lemma_def_index_none(defs: Seq<DefModel>, name: Seq<char>)
    requires
        forall|k: int| 0 <= k < defs.len() ==> #[trigger] defs[k].name != name,
    ensures
        def_index(defs, name) == -1,
    decreases defs.len(),
{
    if defs.len() > 0 {
        lemma_def_index_none(defs.drop_last(), name);
    }
}

proof fn lemma_def_index_found(defs: Seq<DefModel>, name: Seq<char>, i: int)
    requires
        0 <= i < defs.len(),
        defs[i].name == name,
        forall|k: int| 0 <= k < i ==> #[trigger] defs[k].name != name,
    ensures
        def_index(defs, name) == i,
    decreases defs.len(),
{
    if i < defs.len() - 1 {
        lemma_def_index_found(defs.drop_last(), name, i);
    } else {
        lemma_def_index_none(defs.drop_last(), name);
    }
}

proof fn lemma_instances_sum_mono(t: TreeModel, defs: Seq<DefModel>, j: int, fuel: nat, a: nat, b: nat)
    requires
        a <= b,
    ensures
        instances_sum(t, defs, j, fuel, a) <= instances_sum(t, defs, j, fuel, b),
    decreases b - a,
{
    if a < b {
        lemma_instances_sum_mono(t, defs, j, fuel, a, (b - 1) as nat);
    }
}

proof fn lemma_expands_upto_mono(t: TreeModel, defs: Seq<DefModel>, fuel: nat, a: nat, b: nat)
    requires
        a <= b,
        expands_upto(t, defs, fuel, b),
    ensures
        expands_upto(t, defs, fuel, a),
    decreases b - a,
{
    if a < b {
        lemma_expands_upto_mono(t, defs, fuel, a, (b - 1) as nat);
    }
}

proof fn lemma_expands_use(t: TreeModel, defs: Seq<DefModel>, fuel: nat, i: int)
    requires
        expands(t, defs, fuel),
        0 <= i < defs.len(),
        uses(t, defs[i].name).len() > 0,
    ensures
        fuel > 0,
        expands(defs[i].contents, defs, (fuel - 1) as nat),
{
    lemma_expands_upto_mono(t, defs, fuel, (i + 1) as nat, defs.len());
}

/// The number of uses of `name` in `node`.
fn count_uses(node: &DomNode, name: &String) -> (r: usize)
    ensures
        r == uses(node@, name@).len(),
{
    let mut found: Vec<&DomNode> = Vec::new();
    find_components_uses(node, name, &mut found);
    assert(refs_model(found@).len() == found@.len());
    assert(refs_model(Seq::<&DomNode>::empty()) =~= Seq::<TreeModel>::empty());
    found.len()
}

/// The index of the first definition named `name`.
fn definition_index(defs: &Vec<ComponentDefinition>, name: &String) -> (r: Option<usize>)
    ensures
        match r {
            Some(i) => i < defs.len() && i == def_index(defs_model(defs@), name@),
            None => def_index(defs_model(defs@), name@) == -1,
        },
{
    let ghost dm = defs_model(defs@);
    let mut i: usize = 0;
    while i < defs.len()
        invariant
            i <= defs.len(),
            dm == defs_model(defs@),
            forall|k: int| 0 <= k < i ==> #[trigger] dm[k].name != name@,
        decreases defs.len() - i,
    {
        if string_eq(&defs[i].name, name) {
            proof {
                lemma_def_index_found(dm, name@, i as int);
            }
            return Some(i);
        }
        i = i + 1;
    }
    proof {
        lemma_def_index_none(dm, name@);
    }
    None
}

/// How many times each component is instantiated when `t` is expanded down to
/// `fuel` levels, or `None` when one of these numbers does not fit in a `usize`.
fn count_instances(t: &DomNode, defs: &Vec<ComponentDefinition>, fuel: usize) -> (r: Option<Vec<usize>>)
    ensures
        match r {
            Some(ks) => ks@.len() == defs@.len() && forall|j: int|
                0 <= j < defs@.len() ==> #[trigger] ks@[j] == instances(t@, defs_model(defs@), j, fuel as nat),
            None => exists|j: int|
                0 <= j < defs@.len() && #[trigger] instances(t@, defs_model(defs@), j, fuel as nat) > usize::MAX,
        },
    decreases fuel,
{
    let ghost dm = defs_model(defs@);
    let n: usize = defs.len();
    let mut direct: Vec<usize> = Vec::new();
    let mut j: usize = 0;
    while j < n
        invariant
            n == defs.len(),
            j <= n,
            dm == defs_model(defs@),
            direct@.len() == j,
            forall|k: int| 0 <= k < j ==> #[trigger] direct@[k] == uses(t@, dm[k].name).len(),
        decreases n - j,
    {
        direct.push(count_uses(t, &defs[j].name));
        j = j + 1;
    }
    let mut ks: Vec<usize> = Vec::new();
    j = 0;
    while j < n
        invariant
            n == defs.len(),
            j <= n,
            direct@.len() == n,
            ks@.len() == j,
            forall|k: int| 0 <= k < j ==> #[trigger] ks@[k] == direct@[k],
        decreases n - j,
    {
        ks.push(direct[j]);
        j = j + 1;
    }
    if fuel == 0 {
        return Some(ks);
    }
    let mut i: usize = 0;
    while i < n
        invariant
            n == defs.len(),
            i <= n,
            fuel > 0,
            dm == defs_model(defs@),
            direct@.len() == n,
            ks@.len() == n,
            forall|k: int| 0 <= k < n ==> #[trigger] direct@[k] == uses(t@, dm[k].name).len(),
            forall|k: int| 0 <= k < n ==> #[trigger] ks@[k] == direct@[k] + instances_sum(t@, dm, k, fuel as nat, i as nat),
        decreases n - i,
    {
        if direct[i] > 0 {
            let sub = count_instances(&defs[i].contents, defs, fuel - 1);
            match sub {
                None => {
                    proof {
                        let jj = choose|jj: int| 0 <= jj < n && #[trigger] instances(dm[i as int].contents, dm, jj, (fuel - 1) as nat) > usize::MAX;
                        let x = instances(dm[i as int].contents, dm, jj, (fuel - 1) as nat);
                        let d = uses(t@, dm[i as int].name).len();
                        assert(d * x >= x) by (nonlinear_arith)
                            requires d >= 1;
                        lemma_instances_sum_mono(t@, dm, jj, fuel as nat, (i + 1) as nat, n as nat);
                        assert(instances(t@, dm, jj, fuel as nat) > usize::MAX);
                    }
                    return None;
                },
                Some(sub) => {
                    let mut j2: usize = 0;
                    while j2 < n
                        invariant
                            n == defs.len(),
                            i < n,
                            j2 <= n,
                            fuel > 0,
                            direct@[i as int] > 0,
                            dm == defs_model(defs@),
                            direct@.len() == n,
                            ks@.len() == n,
                            sub@.len() == n,
                            forall|k: int| 0 <= k < n ==> #[trigger] sub@[k] == instances(dm[i as int].contents, dm, k, (fuel - 1) as nat),
                            forall|k: int| 0 <= k < n ==> #[trigger] direct@[k] == uses(t@, dm[k].name).len(),
                            forall|k: int| 0 <= k < j2 ==> #[trigger] ks@[k] == direct@[k] + instances_sum(t@, dm, k, fuel as nat, (i + 1) as nat),
                            forall|k: int| j2 <= k < n ==> #[trigger] ks@[k] == direct@[k] + instances_sum(t@, dm, k, fuel as nat, i as nat),
                        decreases n - j2,
                    {
                        let prod = direct[i].checked_mul(sub[j2]);
                        let total = match prod {
                            Some(p) => ks[j2].checked_add(p),
                            None => None,
                        };
                        match total {
                            Some(v) => {
                                ks.set(j2, v);
                            },
                            None => {
                                proof {
                                    lemma_instances_sum_mono(t@, dm, j2 as int, fuel as nat, (i + 1) as nat, n as nat);
                                    let x = instances(dm[i as int].contents, dm, j2 as int, (fuel - 1) as nat);
                                    let d = uses(t@, dm[i as int].name).len();
                                    assert(d * x >= x) by (nonlinear_arith)
                                        requires d >= 1;
                                    assert(instances(t@, dm, j2 as int, fuel as nat) > usize::MAX);
                                }
                                return None;
                            },
                        }
                        j2 = j2 + 1;
                    }
                },
            }
        } else {
            assert forall|k: int| 0 <= k < n implies #[trigger] instances_sum(t@, dm, k, fuel as nat, (i + 1) as nat)
                == instances_sum(t@, dm, k, fuel as nat, i as nat) by {
                assert(uses(t@, dm[i as int].name).len() == 0);
                assert(0 * instances(dm[i as int].contents, dm, k, (fuel - 1) as nat) == 0);
            }
        }
        i = i + 1;
    }
    Some(ks)
}


/// Whether expanding the components used in `t` ends within `fuel` levels.
fn expansion_ends(t: &DomNode, defs: &Vec<ComponentDefinition>, fuel: usize) -> (r: bool)
    ensures
        r == expands(t@, defs_model(defs@), fuel as nat),
    decreases fuel,
{
    let ghost dm = defs_model(defs@);
    let n: usize = defs.len();
    let mut i: usize = 0;
    while i < n
        invariant
            n == defs.len(),
            i <= n,
            dm == defs_model(defs@),
            expands_upto(t@, dm, fuel as nat, i as nat),
        decreases n - i,
    {
        if count_uses(t, &defs[i].name) > 0 {
            if fuel == 0 {
                proof {
                    if expands(t@, dm, fuel as nat) {
                        lemma_expands_use(t@, dm, fuel as nat, i as int);
                    }
                }
                return false;
            }
            if !expansion_ends(&defs[i].contents, defs, fuel - 1) {
                proof {
                    if expands(t@, dm, fuel as nat) {
                        lemma_expands_use(t@, dm, fuel as nat, i as int);
                    }
                }
                return false;
            }
        }
        i = i + 1;
    }
    true
}

/// The models of a sequence of counts.
pub open spec fn counts_model(ks: Seq<usize>) -> Seq<nat> {
    ks.map_values(|k: usize| k as nat)
}

/// Whether `name` is among `names`.
fn contains_name(names: &Vec<String>, name: &String) -> (r: bool)
    ensures
        r == strings_model(names@).contains(name@),
{
    let ghost nm = strings_model(names@);
    let mut i: usize = 0;
    while i < names.len()
        invariant
            i <= names.len(),
            nm == strings_model(names@),
            forall|k: int| 0 <= k < i ==> #[trigger] nm[k] != name@,
        decreases names.len() - i,
    {
        if string_eq(&names[i], name) {
            assert(nm[i as int] == name@);
            return true;
        }
        i = i + 1;
    }
    false
}

/// `names` followed by `name`.
fn names_with(names: &Vec<String>, name: &String) -> (r: Vec<String>)
    ensures
        strings_model(r@) == strings_model(names@).push(name@),
{
    let mut r: Vec<String> = Vec::new();
    let mut i: usize = 0;
    while i < names.len()
        invariant
            i <= names.len(),
            r@.len() == i,
            forall|k: int| 0 <= k < i ==> #[trigger] r@[k]@ == names@[k]@,
        decreases names.len() - i,
    {
        r.push(names[i].clone());
        i = i + 1;
    }
    r.push(name.clone());
    assert(strings_model(r@) =~= strings_model(names@).push(name@));
    r
}

/// The `<template shadowrootmode="mode">` element holding `contents`, with copies of the mixins as children.
fn shadow_template(mode: &String, contents: DomNode, mixins: &Vec<DomNode>) -> (r: DomNode)
    ensures
        r@ == shadow_root_template(mode@, contents@, nodes_model(mixins@)),
{
    let attr = DomAttribute {
        name: QualifiedName { prefix: None, ns: String::new(), local: "shadowrootmode".to_owned() },
        value: mode.clone(),
    };
    let mut attrs: Vec<DomAttribute> = Vec::new();
    attrs.push(attr);
    let data = DomNodeData::Element {
        name: QualifiedName { prefix: None, ns: String::new(), local: "template".to_owned() },
        attrs,
        template_contents: Some(Box::new(contents)),
        mathml_annotation_xml_integration_point: false,
    };
    let r = DomNode { data, children: copy_nodes(mixins) };
    assert(attrs_model(attrs@) =~= seq![attr@]);
    assert(r@.data =~= shadow_root_template(mode@, contents@, nodes_model(mixins@)).data);
    r
}

/// `filled` on the children of a node.
fn fill_children(
    cs: &Vec<DomNode>,
    m: usize,
    ks: &Vec<usize>,
    defs: &Vec<ComponentDefinition>,
    mixins: &Vec<DomNode>,
    fuel: usize,
    blocked: &Vec<String>,
) -> (r: Vec<DomNode>)
    requires
        ks@.len() == defs@.len(),
    ensures
        nodes_model(r@) == filled_seq(
            nodes_model(cs@),
            m as nat,
            counts_model(ks@),
            defs_model(defs@),
            nodes_model(mixins@),
            fuel as nat,
            strings_model(blocked@),
        ),
    decreases fuel, cs,
{
    let ghost cm = nodes_model(cs@);
    proof {
        lemma_nodes_model(cs@);
    }
    let mut r: Vec<DomNode> = Vec::new();
    let mut i: usize = 0;
    assert(cm.take(0) =~= Seq::<TreeModel>::empty());
    while i < cs.len()
        invariant
            i <= cs.len(),
            ks@.len() == defs@.len(),
            cm == nodes_model(cs@),
            cm.len() == cs@.len(),
            forall|j: int| 0 <= j < cs@.len() ==> #[trigger] cm[j] == node_model(cs@[j]),
            nodes_model(r@) == filled_seq(
                cm.take(i as int),
                m as nat,
                counts_model(ks@),
                defs_model(defs@),
                nodes_model(mixins@),
                fuel as nat,
                strings_model(blocked@),
            ),
        decreases cs.len() - i,
    {
        let c = fill_usages(&cs[i], m, ks, defs, mixins, fuel, blocked);
        proof {
            lemma_seq_prefix(cm, i as int);
            lemma_nodes_model_push(r@, c);
        }
        r.push(c);
        i = i + 1;
    }
    assert(cm.take(cs.len() as int) =~= cm);
    r
}

/// `t` with `m` shadow root templates appended to every component use that is
/// not below another use of the same component (see `filled`).
fn fill_usages(
    t: &DomNode,
    m: usize,
    ks: &Vec<usize>,
    defs: &Vec<ComponentDefinition>,
    mixins: &Vec<DomNode>,
    fuel: usize,
    blocked: &Vec<String>,
) -> (r: DomNode)
    requires
        ks@.len() == defs@.len(),
    ensures
        r@ == filled(
            t@,
            m as nat,
            counts_model(ks@),
            defs_model(defs@),
            nodes_model(mixins@),
            fuel as nat,
            strings_model(blocked@),
        ),
    decreases fuel, t,
{
    let ghost dm = defs_model(defs@);
    let ghost km = counts_model(ks@);
    let ghost mm = nodes_model(mixins@);
    match &t.data {
        DomNodeData::Element { name, .. } => {
            match definition_index(defs, &name.local) {
                Some(i) => {
                    let already = contains_name(blocked, &name.local);
                    let inner = names_with(blocked, &name.local);
                    let mut kids = fill_children(&t.children, m, ks, defs, mixins, fuel, &inner);
                    if !already {
                        let contents = if fuel == 0 {
                            copy_node(&defs[i].contents)
                        } else {
                            let empty: Vec<String> = Vec::new();
                            assert(strings_model(empty@) =~= Seq::<Seq<char>>::empty());
                            fill_usages(&defs[i].contents, ks[i], ks, defs, mixins, fuel - 1, &empty)
                        };
                        let ghost tpl = shadow_root_template(dm[i as int].mode, contents@, mm);
                        let ghost base = nodes_model(kids@);
                        let mut k: usize = 0;
                        assert(base + Seq::new(0, |x: int| tpl) =~= base);
                        while k < m
                            invariant
                                k <= m,
                                i < defs.len(),
                                dm == defs_model(defs@),
                                mm == nodes_model(mixins@),
                                tpl == shadow_root_template(dm[i as int].mode, contents@, mm),
                                nodes_model(kids@) == base + Seq::new(k as nat, |x: int| tpl),
                            decreases m - k,
                        {
                            let s = shadow_template(&defs[i].shadowroot_mode, copy_node(&contents), mixins);
                            proof {
                                lemma_nodes_model_push(kids@, s);
                            }
                            kids.push(s);
                            assert(base + Seq::new((k + 1) as nat, |x: int| tpl) =~= (base + Seq::new(k as nat, |x: int| tpl)).push(tpl));
                            k = k + 1;
                        }
                    }
                    DomNode { data: copy_data(&t.data), children: kids }
                },
                None => DomNode { data: copy_data(&t.data), children: fill_children(&t.children, m, ks, defs, mixins, fuel, blocked) },
            }
        },
        _ => DomNode { data: copy_data(&t.data), children: fill_children(&t.children, m, ks, defs, mixins, fuel, blocked) },
    }
}

/// Whether `inline_facet_components` is defined on `document` (see `facet_inlining_defined`).
pub fn can_inline_facet_components(document: &DomNode) -> (r: bool)
    ensures
        r == facet_inlining_defined(document@),
{
    let mut defs: Vec<ComponentDefinition> = Vec::new();
    let mut mixins: Vec<DomNode> = Vec::new();
    find_components_definitions(document, &mut defs, &mut mixins);
    let ghost dm = defs_model(defs@);
    let ghost mm = nodes_model(mixins@);
    assert(defs_model(Seq::<ComponentDefinition>::empty()) =~= Seq::<DefModel>::empty());
    assert(dm == facet_definitions(document@));
    assert(nodes_model(Seq::<DomNode>::empty()) =~= Seq::<TreeModel>::empty());
    assert(mm =~= found_mixins(document@));
    proof {
        lemma_nodes_model(mixins@);
    }
    if !expansion_ends(document, &defs, defs.len()) {
        return false;
    }
    let ks = match count_instances(document, &defs, defs.len()) {
        Some(ks) => ks,
        None => {
            return false;
        },
    };
    let n: usize = defs.len();
    let mut k: usize = 0;
    while k < mixins.len()
        invariant
            k <= mixins.len(),
            n == defs@.len(),
            dm == defs_model(defs@),
            dm == facet_definitions(document@),
            mm == found_mixins(document@),
            mm == nodes_model(mixins@),
            mm.len() == mixins@.len(),
            forall|j: int| 0 <= j < mixins@.len() ==> #[trigger] mm[j] == node_model(mixins@[j]),
            ks@.len() == n,
            forall|j: int| 0 <= j < n ==> #[trigger] ks@[j] == instances(document@, dm, j, dm.len()),
            forall|k2: int, j: int|
                0 <= k2 < k && 0 <= j < n && #[trigger] uses(mm[k2], dm[j].name).len() > 0
                    ==> only_instantiated(document@, dm, j),
        decreases mixins.len() - k,
    {
        let mut j: usize = 0;
        while j < n
            invariant
                k < mixins.len(),
                j <= n,
                dm == facet_definitions(document@),
                mm == found_mixins(document@),
                n == defs@.len(),
                dm == defs_model(defs@),
                mm == nodes_model(mixins@),
                mm.len() == mixins@.len(),
                forall|j2: int| 0 <= j2 < mixins@.len() ==> #[trigger] mm[j2] == node_model(mixins@[j2]),
                ks@.len() == n,
                forall|i: int| 0 <= i < n ==> #[trigger] ks@[i] == instances(document@, dm, i, dm.len()),
                forall|j2: int|
                    0 <= j2 < j && #[trigger] uses(mm[k as int], dm[j2].name).len() > 0
                        ==> only_instantiated(document@, dm, j2),
            decreases n - j,
        {
            assert(dm[j as int].name == defs@[j as int].name@);
            assert(mm[k as int] == mixins@[k as int]@);
            if count_uses(&mixins[k], &defs[j].name) > 0 {
                let mut i: usize = 0;
                while i < n
                    invariant
                        i <= n,
                        j < n,
                        k < mm.len(),
                        dm == facet_definitions(document@),
                        mm == found_mixins(document@),
                        uses(mm[k as int], dm[j as int].name).len() > 0,
                        ks@.len() == n,
                        n == dm.len(),
                        forall|i2: int| 0 <= i2 < n ==> #[trigger] ks@[i2] == instances(document@, dm, i2, dm.len()),
                        forall|i2: int| 0 <= i2 < i && i2 != j ==> #[trigger] instances(document@, dm, i2, dm.len()) == 0,
                    decreases n - i,
                {
                    if i != j && ks[i] > 0 {
                        assert(instances(document@, dm, i as int, dm.len()) > 0);
                        assert(uses(mm[k as int], dm[j as int].name).len() > 0);
                        return false;
                    }
                    i = i + 1;
                }
            }
            j = j + 1;
        }
        k = k + 1;
    }
    assert forall|j: int| 0 <= j < dm.len() implies #[trigger] instances(document@, dm, j, dm.len()) <= usize::MAX by {
        assert(ks@[j] == instances(document@, dm, j, dm.len()));
    }
    true
}

/// Attaches to every use of a component, as declarative shadow DOM, a
/// `<template shadowrootmode>` element holding the component's contents
/// (themselves filled in the same way) and the global mixins.
pub fn inline_facet_components(document: &mut DomNode)
    requires
        facet_inlining_defined(old(document)@),
    ensures
        final(document)@ == facet_inlined(old(document)@),
{
    let mut defs: Vec<ComponentDefinition> = Vec::new();
    let mut mixins: Vec<DomNode> = Vec::new();
    find_components_definitions(document, &mut defs, &mut mixins);
    let ghost dm = defs_model(defs@);
    assert(defs_model(Seq::<ComponentDefinition>::empty()) =~= Seq::<DefModel>::empty());
    assert(dm == facet_definitions(document@));
    assert(nodes_model(Seq::<DomNode>::empty()) =~= Seq::<TreeModel>::empty());
    assert(nodes_model(mixins@) =~= found_mixins(document@));
    let ks = match count_instances(document, &defs, defs.len()) {
        Some(ks) => ks,
        None => {
            return;
        },
    };
    assert(counts_model(ks@) =~= instance_counts(document@, dm));
    let empty: Vec<String> = Vec::new();
    assert(strings_model(empty@) =~= Seq::<Seq<char>>::empty());
    let r = fill_usages(document, 1, &ks, &defs, &mixins, defs.len(), &empty);
    *document = r;
}


// ---------------------------------------------------------------------------
// Laws
// ---------------------------------------------------------------------------

proof fn lemma_def_index_range(defs: Seq<DefModel>, name: Seq<char>)
    ensures
        -1 <= def_index(defs, name) < defs.len(),
        def_index(defs, name) >= 0 ==> defs[def_index(defs, name)].name == name,
    decreases defs.len(),
{
    if defs.len() > 0 {
        lemma_def_index_range(defs.drop_last(), name);
    }
}

proof fn lemma_uses_seq_none(cs: Seq<TreeModel>, name: Seq<char>, k: int)
    requires
        uses_seq(cs, name).len() == 0,
        0 <= k < cs.len(),
    ensures
        uses(cs[k], name).len() == 0,
    decreases cs.len(),
{
    if k < cs.len() - 1 {
        lemma_uses_seq_none(cs.drop_last(), name, k);
    }
}

proof fn lemma_filled_without_uses(
    t: TreeModel,
    m: nat,
    ks: Seq<nat>,
    defs: Seq<DefModel>,
    mixins: Seq<TreeModel>,
    fuel: nat,
    blocked: Seq<Seq<char>>,
)
    requires
        !uses_some_component(t, defs),
    ensures
        filled(t, m, ks, defs, mixins, fuel, blocked) == t,
    decreases t,
{
    lemma_def_index_range(defs, t.data->Element_name.local);
    match t.data {
        DataModel::Element { name, .. } => {
            let i = def_index(defs, name.local);
            if i >= 0 {
                assert(uses(t, defs[i].name).len() > 0);
            }
        },
        _ => {},
    }
    assert forall|j: int| 0 <= j < defs.len() implies #[trigger] uses_seq(t.children, defs[j].name).len() == 0 by {
        assert(uses(t, defs[j].name).len() == 0);
        if is_element_named(t, defs[j].name) {
            assert(uses(t, defs[j].name) == seq![t]);
        }
    }
    let b2 = match t.data {
        DataModel::Element { name, .. } => blocked.push(name.local),
        _ => blocked,
    };
    lemma_filled_seq_without_uses(t.children, m, ks, defs, mixins, fuel, blocked);
    lemma_filled_seq_without_uses(t.children, m, ks, defs, mixins, fuel, b2);
}

proof fn lemma_filled_seq_without_uses(
    cs: Seq<TreeModel>,
    m: nat,
    ks: Seq<nat>,
    defs: Seq<DefModel>,
    mixins: Seq<TreeModel>,
    fuel: nat,
    blocked: Seq<Seq<char>>,
)
    requires
        forall|j: int| 0 <= j < defs.len() ==> #[trigger] uses_seq(cs, defs[j].name).len() == 0,
    ensures
        filled_seq(cs, m, ks, defs, mixins, fuel, blocked) == cs,
    decreases cs,
{
    if cs.len() > 0 {
        assert forall|j: int| 0 <= j < defs.len() implies #[trigger] uses_seq(cs.drop_last(), defs[j].name).len() == 0 by {
            assert(uses_seq(cs, defs[j].name).len() == 0);
        }
        assert(!uses_some_component(cs.last(), defs)) by {
            assert forall|j: int| 0 <= j < defs.len() implies uses(cs.last(), #[trigger] defs[j].name).len() == 0 by {
                assert(uses_seq(cs, defs[j].name).len() == 0);
            }
        }
        lemma_filled_seq_without_uses(cs.drop_last(), m, ks, defs, mixins, fuel, blocked);
        lemma_filled_without_uses(cs.last(), m, ks, defs, mixins, fuel, blocked);
        assert(cs.drop_last().push(cs.last()) =~= cs);
    }
}

/// Inlining changes nothing in a document that uses none of its components.
pub proof fn law_inlining_without_uses_is_identity(doc: TreeModel)
    requires
        !uses_some_component(doc, facet_definitions(doc)),
    ensures
        facet_inlined(doc) == doc,
{
    let defs = facet_definitions(doc);
    lemma_filled_without_uses(doc, 1, instance_counts(doc, defs), defs, found_mixins(doc), defs.len(), Seq::empty());
}

/// Whether `big` holds `small`: the same data, and children that begin with
/// children holding those of `small`, in order.
pub open spec fn extends(big: TreeModel, small: TreeModel) -> bool
    decreases small,
{
    big.data == small.data && extends_seq(big.children, small.children)
}

/// Whether `bigs` begins with trees holding those of `smalls`, in order.
pub open spec fn extends_seq(bigs: Seq<TreeModel>, smalls: Seq<TreeModel>) -> bool
    decreases smalls,
{
    if smalls.len() == 0 {
        true
    } else {
        smalls.len() <= bigs.len() && extends_seq(bigs, smalls.drop_last()) && extends(
            bigs[smalls.len() - 1],
            smalls.last(),
        )
    }
}

proof fn lemma_filled_seq_shape(
    cs: Seq<TreeModel>,
    m: nat,
    ks: Seq<nat>,
    defs: Seq<DefModel>,
    mixins: Seq<TreeModel>,
    fuel: nat,
    blocked: Seq<Seq<char>>,
)
    ensures
        filled_seq(cs, m, ks, defs, mixins, fuel, blocked).len() == cs.len(),
        forall|k: int|
            0 <= k < cs.len() ==> #[trigger] filled_seq(cs, m, ks, defs, mixins, fuel, blocked)[k] == filled(
                cs[k],
                m,
                ks,
                defs,
                mixins,
                fuel,
                blocked,
            ),
    decreases cs.len(),
{
    if cs.len() > 0 {
        lemma_filled_seq_shape(cs.drop_last(), m, ks, defs, mixins, fuel, blocked);
    }
}

proof fn lemma_extends_seq_append(bigs: Seq<TreeModel>, extra: Seq<TreeModel>, smalls: Seq<TreeModel>)
    requires
        extends_seq(bigs, smalls),
    ensures
        extends_seq(bigs + extra, smalls),
    decreases smalls.len(),
{
    if smalls.len() > 0 {
        lemma_extends_seq_append(bigs, extra, smalls.drop_last());
        assert((bigs + extra)[smalls.len() - 1] == bigs[smalls.len() - 1]);
    }
}

proof fn lemma_filled_extends(
    t: TreeModel,
    m: nat,
    ks: Seq<nat>,
    defs: Seq<DefModel>,
    mixins: Seq<TreeModel>,
    fuel: nat,
    blocked: Seq<Seq<char>>,
)
    ensures
        extends(filled(t, m, ks, defs, mixins, fuel, blocked), t),
    decreases t,
{
    let b2 = match t.data {
        DataModel::Element { name, .. } => blocked.push(name.local),
        _ => blocked,
    };
    lemma_filled_seq_extends(t.children, m, ks, defs, mixins, fuel, blocked);
    lemma_filled_seq_extends(t.children, m, ks, defs, mixins, fuel, b2);
    match t.data {
        DataModel::Element { name, .. } => {
            let i = def_index(defs, name.local);
            if i >= 0 && !blocked.contains(name.local) {
                let contents = if fuel == 0 {
                    defs[i].contents
                } else {
                    filled(defs[i].contents, ks[i], ks, defs, mixins, (fuel - 1) as nat, Seq::empty())
                };
                let tpl = shadow_root_template(defs[i].mode, contents, mixins);
                lemma_extends_seq_append(
                    filled_seq(t.children, m, ks, defs, mixins, fuel, b2),
                    Seq::new(m, |k: int| tpl),
                    t.children,
                );
            }
        },
        _ => {},
    }
}

proof fn lemma_filled_seq_extends(
    cs: Seq<TreeModel>,
    m: nat,
    ks: Seq<nat>,
    defs: Seq<DefModel>,
    mixins: Seq<TreeModel>,
    fuel: nat,
    blocked: Seq<Seq<char>>,
)
    ensures
        extends_seq(filled_seq(cs, m, ks, defs, mixins, fuel, blocked), cs),
    decreases cs,
{
    if cs.len() > 0 {
        let f = filled_seq(cs, m, ks, defs, mixins, fuel, blocked);
        let fp = filled_seq(cs.drop_last(), m, ks, defs, mixins, fuel, blocked);
        lemma_filled_seq_extends(cs.drop_last(), m, ks, defs, mixins, fuel, blocked);
        lemma_extends_seq_append(fp, seq![filled(cs.last(), m, ks, defs, mixins, fuel, blocked)], cs.drop_last());
        assert(f =~= fp + seq![filled(cs.last(), m, ks, defs, mixins, fuel, blocked)]);
        lemma_filled_seq_shape(cs.drop_last(), m, ks, defs, mixins, fuel, blocked);
        lemma_filled_extends(cs.last(), m, ks, defs, mixins, fuel, blocked);
    }
}

/// Inlining only adds: every node of the document keeps its data and, in
/// order, its children, to which shadow root templates may be appended.
pub proof fn law_inlining_keeps_the_document(doc: TreeModel)
    ensures
        extends(facet_inlined(doc), doc),
{
    let defs = facet_definitions(doc);
    lemma_filled_extends(doc, 1, instance_counts(doc, defs), defs, found_mixins(doc), defs.len(), Seq::empty());
}


/// Whether no `<script>` element is below `t` (through children).
pub open spec fn script_free(t: TreeModel) -> bool
    decreases t,
{
    script_free_seq(t.children)
}

/// Whether no tree of `cs` is a `<script>` element or holds one.
pub open spec fn script_free_seq(cs: Seq<TreeModel>) -> bool
    decreases cs,
{
    cs.len() == 0 || (script_free_seq(cs.drop_last()) && !is_element_named(cs.last(), "script"@) && script_free(
        cs.last(),
    ))
}

proof fn lemma_children_without_scripts_free(cs: Seq<TreeModel>)
    ensures
        script_free_seq(children_without_scripts(cs)),
    decreases cs,
{
    if cs.len() > 0 {
        lemma_children_without_scripts_free(cs.drop_last());
        lemma_without_scripts_free(cs.last());
        let prev = children_without_scripts(cs.drop_last());
        assert(prev.push(without_scripts(cs.last())).drop_last() =~= prev);
    }
}

proof fn lemma_without_scripts_free(t: TreeModel)
    ensures
        script_free(without_scripts(t)),
    decreases t,
{
    lemma_children_without_scripts_free(t.children);
}

/// After `remove_script_elements`, no `<script>` element is left below the node.
pub proof fn law_script_removal_leaves_no_script(t: TreeModel)
    ensures
        script_free(without_scripts(t)),
{
    lemma_without_scripts_free(t);
}

proof fn lemma_children_without_scripts_idem(cs: Seq<TreeModel>)
    ensures
        children_without_scripts(children_without_scripts(cs)) == children_without_scripts(cs),
    decreases cs,
{
    if cs.len() > 0 {
        let prev = children_without_scripts(cs.drop_last());
        lemma_children_without_scripts_idem(cs.drop_last());
        if !is_element_named(cs.last(), "script"@) {
            let w = without_scripts(cs.last());
            lemma_without_scripts_idem(cs.last());
            assert(prev.push(w).drop_last() =~= prev);
            assert(prev.push(w).last() == w);
        }
    }
}

proof fn lemma_without_scripts_idem(t: TreeModel)
    ensures
        without_scripts(without_scripts(t)) == without_scripts(t),
    decreases t,
{
    lemma_children_without_scripts_idem(t.children);
}

/// Removing scripts twice is removing them once.
pub proof fn law_script_removal_is_idempotent(t: TreeModel)
    ensures
        without_scripts(without_scripts(t)) == without_scripts(t),
{
    lemma_without_scripts_idem(t);
}

/// The contents of the shadow root that a use of `defs[i]` gets in `filled`.
pub open spec fn shadow_contents(i: int, ks: Seq<nat>, defs: Seq<DefModel>, mixins: Seq<TreeModel>, fuel: nat) -> TreeModel {
    if fuel == 0 {
        defs[i].contents
    } else {
        filled(defs[i].contents, ks[i], ks, defs, mixins, (fuel - 1) as nat, Seq::empty())
    }
}

/// Every element named like a defined component gets its shadow roots,
/// whatever uses of other components it sits in: unless an enclosing use
/// has its name (`blocked`), it keeps its data and its children (filled in
/// turn) and gets `m` more children, each a `<template shadowrootmode>` of
/// the component's mode holding the component's contents and the mixins.
pub proof fn law_every_unblocked_use_gets_its_shadow_roots(
    t: TreeModel,
    m: nat,
    ks: Seq<nat>,
    defs: Seq<DefModel>,
    mixins: Seq<TreeModel>,
    fuel: nat,
    blocked: Seq<Seq<char>>,
)
    requires
        t.data is Element,
        def_index(defs, t.data->Element_name.local) >= 0,
        !blocked.contains(t.data->Element_name.local),
    ensures
        ({
            let f = filled(t, m, ks, defs, mixins, fuel, blocked);
            let i = def_index(defs, t.data->Element_name.local);
            &&& f.data == t.data
            &&& f.children.len() == t.children.len() + m
            &&& forall|k: int| 0 <= k < t.children.len() ==> #[trigger] f.children[k] == filled(
                t.children[k],
                m,
                ks,
                defs,
                mixins,
                fuel,
                blocked.push(t.data->Element_name.local),
            )
            &&& forall|k: int|
                t.children.len() <= k < f.children.len() ==> #[trigger] f.children[k] == shadow_root_template(
                    defs[i].mode,
                    shadow_contents(i, ks, defs, mixins, fuel),
                    mixins,
                )
        }),
{
    let name = t.data->Element_name.local;
    lemma_filled_seq_shape(t.children, m, ks, defs, mixins, fuel, blocked.push(name));
}

/// A use of component `B` inside a use of another component `A`, both
/// children in the document, gets exactly one shadow root holding `B`'s
/// contents (its uses filled in turn), appended after its own children.
pub proof fn law_use_inside_another_use_gets_its_shadow_root(doc: TreeModel, a: int, b: int)
    requires
        !(doc.data is Element),
        0 <= a < doc.children.len(),
        doc.children[a].data is Element,
        0 <= b < doc.children[a].children.len(),
        doc.children[a].children[b].data is Element,
        def_index(facet_definitions(doc), doc.children[a].data->Element_name.local) >= 0,
        def_index(facet_definitions(doc), doc.children[a].children[b].data->Element_name.local) >= 0,
        doc.children[a].data->Element_name.local != doc.children[a].children[b].data->Element_name.local,
    ensures
        ({
            let defs = facet_definitions(doc);
            let ks = instance_counts(doc, defs);
            let mixins = found_mixins(doc);
            let before = doc.children[a].children[b];
            let after = facet_inlined(doc).children[a].children[b];
            let j = def_index(defs, before.data->Element_name.local);
            &&& after.data == before.data
            &&& after.children.len() == before.children.len() + 1
            &&& after.children.last() == shadow_root_template(
                defs[j].mode,
                filled(defs[j].contents, ks[j], ks, defs, mixins, (defs.len() - 1) as nat, Seq::empty()),
                mixins,
            )
        }),
{
    let defs = facet_definitions(doc);
    let ks = instance_counts(doc, defs);
    let mixins = found_mixins(doc);
    let fuel = defs.len();
    let e = Seq::<Seq<char>>::empty();
    let use_a = doc.children[a];
    let use_b = use_a.children[b];
    let na = use_a.data->Element_name.local;
    let nb = use_b.data->Element_name.local;
    lemma_def_index_range(defs, nb);
    lemma_filled_seq_shape(doc.children, 1, ks, defs, mixins, fuel, e);
    assert(facet_inlined(doc).children[a] == filled(use_a, 1, ks, defs, mixins, fuel, e));
    assert(!e.contains(na));
    law_every_unblocked_use_gets_its_shadow_roots(use_a, 1, ks, defs, mixins, fuel, e);
    assert(!e.push(na).contains(nb)) by {
        if e.push(na).contains(nb) {
            let k = choose|k: int| 0 <= k < e.push(na).len() && e.push(na)[k] == nb;
            assert(e.push(na)[k] == na);
        }
    }
    law_every_unblocked_use_gets_its_shadow_roots(use_b, 1, ks, defs, mixins, fuel, e.push(na));
    let after = filled(use_b, 1, ks, defs, mixins, fuel, e.push(na));
    assert(after.children.last() == after.children[use_b.children.len() as int]);
}

/// Whether a tree is kept as a child when scripts are removed: it is not a
/// `<script>` element.
pub open spec fn kept_child() -> spec_fn(TreeModel) -> bool {
    |c: TreeModel| !(c.data matches DataModel::Element { name, .. } && name.local == "script"@)
}

/// A kept child, with its own scripts removed.
pub open spec fn cleaned_child() -> spec_fn(TreeModel) -> TreeModel {
    |c: TreeModel| without_scripts(c)
}

proof fn lemma_children_without_scripts_filter(cs: Seq<TreeModel>)
    ensures
        children_without_scripts(cs) == cs.filter(kept_child()).map_values(cleaned_child()),
    decreases cs.len(),
{
    reveal(Seq::filter);
    if cs.len() == 0 {
        assert(cs.filter(kept_child()).map_values(cleaned_child()) =~= Seq::<TreeModel>::empty());
    } else {
        lemma_children_without_scripts_filter(cs.drop_last());
        let kept = cs.drop_last().filter(kept_child());
        if kept_child()(cs.last()) {
            assert(cs.filter(kept_child()) == kept.push(cs.last()));
            assert(kept.push(cs.last()).map_values(cleaned_child()) =~= kept.map_values(cleaned_child()).push(
                without_scripts(cs.last()),
            ));
        } else {
            assert(cs.filter(kept_child()) == kept);
        }
    }
}

/// Removing scripts keeps everything but `<script>` elements: the node keeps
/// its data, and its children are, in order, exactly the children that are
/// not `<script>` elements, each with its own scripts removed.
pub proof fn law_script_removal_keeps_every_other_child(t: TreeModel)
    ensures
        without_scripts(t).data == t.data,
        without_scripts(t).children == t.children.filter(kept_child()).map_values(cleaned_child()),
{
    lemma_children_without_scripts_filter(t.children);
}

/// Whether no two definitions have the same name.
pub open spec fn distinct_names(defs: Seq<DefModel>) -> bool {
    forall|i: int, j: int| 0 <= i < j < defs.len() ==> #[trigger] defs[i].name != #[trigger] defs[j].name
}

/// Whether `d` is the first of `cands` with its name.
pub open spec fn first_of_its_name(cands: Seq<DefModel>, d: DefModel) -> bool {
    exists|m: int|
        0 <= m < cands.len() && cands[m] == d && forall|k: int| 0 <= k < m ==> #[trigger] cands[k].name != d.name
}

proof fn lemma_add_definitions_props(cands: Seq<DefModel>)
    ensures
        distinct_names(add_definitions(Seq::empty(), cands)),
        forall|i: int|
            0 <= i < add_definitions(Seq::empty(), cands).len() ==> first_of_its_name(
                cands,
                #[trigger] add_definitions(Seq::empty(), cands)[i],
            ),
        forall|k: int| 0 <= k < cands.len() ==> has_definition(add_definitions(Seq::empty(), cands), #[trigger] cands[k].name),
    decreases cands.len(),
{
    if cands.len() > 0 {
        let p = cands.drop_last();
        let prev = add_definitions(Seq::empty(), p);
        let c = cands.last();
        lemma_add_definitions_props(p);
        let now = add_definitions(Seq::empty(), cands);
        assert forall|i: int| 0 <= i < prev.len() implies first_of_its_name(cands, #[trigger] prev[i]) by {
            assert(first_of_its_name(p, prev[i]));
            let m = choose|m: int| 0 <= m < p.len() && p[m] == prev[i] && forall|k: int| 0 <= k < m ==> #[trigger] p[k].name != prev[i].name;
            assert(cands[m] == prev[i]);
            assert forall|k: int| 0 <= k < m implies #[trigger] cands[k].name != prev[i].name by {
                assert(cands[k] == p[k]);
            }
        }
        assert forall|k: int| 0 <= k < p.len() implies has_definition(prev, #[trigger] cands[k].name) by {
            assert(cands[k] == p[k]);
        }
        if !has_definition(prev, c.name) {
            assert(now == prev.push(c));
            assert forall|k: int| 0 <= k < cands.len() - 1 implies #[trigger] cands[k].name != c.name by {
                assert(cands[k] == p[k]);
                assert(has_definition(prev, p[k].name));
            }
            assert(first_of_its_name(cands, c)) by {
                assert(cands[cands.len() - 1] == c);
            }
            assert forall|k: int| 0 <= k < cands.len() implies has_definition(now, #[trigger] cands[k].name) by {
                if k < cands.len() - 1 {
                    assert(has_definition(prev, cands[k].name));
                    let i = choose|i: int| 0 <= i < prev.len() && #[trigger] prev[i].name == cands[k].name;
                    assert(now[i] == prev[i]);
                } else {
                    assert(now[prev.len() as int] == c);
                }
            }
            assert forall|i: int, j: int| 0 <= i < j < now.len() implies #[trigger] now[i].name != #[trigger] now[j].name by {
                if j == now.len() - 1 {
                    assert(now[i] == prev[i]);
                }
            }
            assert forall|i: int| 0 <= i < now.len() implies first_of_its_name(cands, #[trigger] now[i]) by {
                if i < prev.len() {
                    assert(now[i] == prev[i]);
                }
            }
        } else {
            assert(now == prev);
        }
    }
}

/// The definitions of a document have distinct names.
pub proof fn law_definition_names_are_distinct(doc: TreeModel)
    ensures
        distinct_names(facet_definitions(doc)),
{
    lemma_add_definitions_props(found_components(doc));
}

/// The first `<template component>` of a name in the document defines that
/// component: each definition is the first one found with its name, and
/// every name found is defined.
pub proof fn law_first_definition_wins(doc: TreeModel)
    ensures
        forall|i: int|
            0 <= i < facet_definitions(doc).len() ==> first_of_its_name(
                found_components(doc),
                #[trigger] facet_definitions(doc)[i],
            ),
        forall|k: int|
            0 <= k < found_components(doc).len() ==> has_definition(
                facet_definitions(doc),
                #[trigger] found_components(doc)[k].name,
            ),
{
    lemma_add_definitions_props(found_components(doc));
}


/// Whether every definition's contents hold no `<script>` element.
pub open spec fn contents_script_free(defs: Seq<DefModel>) -> bool {
    forall|k: int| 0 <= k < defs.len() ==> script_free(#[trigger] defs[k].contents)
}

/// Whether every tree holds no `<script>` element.
pub open spec fn all_script_free(ts: Seq<TreeModel>) -> bool {
    forall|k: int| 0 <= k < ts.len() ==> script_free(#[trigger] ts[k])
}

proof fn lemma_found_script_free(t: TreeModel)
    ensures
        contents_script_free(found_components(t)),
        all_script_free(found_mixins(t)),
    decreases t,
{
    if is_element_named(t, "template"@) {
        match t.data {
            DataModel::Element { template_contents: Some(c), .. } => {
                lemma_without_scripts_free(*c);
            },
            _ => {},
        }
    } else {
        lemma_found_seq_script_free(t.children);
    }
}

proof fn lemma_found_seq_script_free(cs: Seq<TreeModel>)
    ensures
        contents_script_free(found_components_seq(cs)),
        all_script_free(found_mixins_seq(cs)),
    decreases cs,
{
    if cs.len() > 0 {
        lemma_found_seq_script_free(cs.drop_last());
        lemma_found_script_free(cs.last());
        let a = found_components_seq(cs.drop_last());
        let b = found_components(cs.last());
        assert forall|k: int| 0 <= k < (a + b).len() implies script_free(#[trigger] (a + b)[k].contents) by {
            if k < a.len() {
                assert((a + b)[k] == a[k]);
            } else {
                assert((a + b)[k] == b[k - a.len()]);
            }
        }
        let x = found_mixins_seq(cs.drop_last());
        let y = found_mixins(cs.last());
        assert forall|k: int| 0 <= k < (x + y).len() implies script_free(#[trigger] (x + y)[k]) by {
            if k < x.len() {
                assert((x + y)[k] == x[k]);
            } else {
                assert((x + y)[k] == y[k - x.len()]);
            }
        }
    }
}

/// Scripts are never inlined: the contents of every component definition
/// and every global mixin of a document hold no `<script>` element.
pub proof fn law_shadow_contents_hold_no_scripts(doc: TreeModel)
    ensures
        contents_script_free(facet_definitions(doc)),
        all_script_free(found_mixins(doc)),
{
    let cands = found_components(doc);
    let defs = facet_definitions(doc);
    lemma_found_script_free(doc);
    lemma_add_definitions_props(cands);
    assert forall|i: int| 0 <= i < defs.len() implies script_free(#[trigger] defs[i].contents) by {
        assert(first_of_its_name(cands, defs[i]));
        let m = choose|m: int| 0 <= m < cands.len() && cands[m] == defs[i] && forall|k: int| 0 <= k < m ==> #[trigger] cands[k].name != defs[i].name;
        assert(script_free(cands[m].contents));
    }
}

} // verus!
