use decl_shadow_test::dom::{DomAttribute, DomNode, DomNodeData, QualifiedName};
use decl_shadow_test::facet::{
    can_inline_facet_components, find_components_definitions, find_components_uses,
    inline_facet_components, remove_script_elements, ComponentDefinition,
};

const HTML_NS: &str = "http://www.w3.org/1999/xhtml";

fn name(local: &str) -> QualifiedName {
    QualifiedName { prefix: None, ns: HTML_NS.to_string(), local: local.to_string() }
}

fn attr(local: &str, value: &str) -> DomAttribute {
    DomAttribute { name: QualifiedName { prefix: None, ns: String::new(), local: local.to_string() }, value: value.to_string() }
}

fn text(s: &str) -> DomNode {
    DomNode { data: DomNodeData::Text { contents: s.to_string() }, children: vec![] }
}

fn elem(local: &str, attrs: Vec<DomAttribute>, children: Vec<DomNode>) -> DomNode {
    DomNode {
        data: DomNodeData::Element {
            name: name(local),
            attrs,
            template_contents: None,
            mathml_annotation_xml_integration_point: false,
        },
        children,
    }
}

fn fragment(children: Vec<DomNode>) -> DomNode {
    DomNode { data: DomNodeData::Document, children }
}

fn template(attrs: Vec<DomAttribute>, contents: Vec<DomNode>) -> DomNode {
    DomNode {
        data: DomNodeData::Element {
            name: name("template"),
            attrs,
            template_contents: Some(Box::new(fragment(contents))),
            mathml_annotation_xml_integration_point: false,
        },
        children: vec![],
    }
}

/// A compact rendering of a tree, template contents in `{...}`.
fn render(n: &DomNode) -> String {
    let mut out = String::new();
    match &n.data {
        DomNodeData::Document => out.push_str("#doc"),
        DomNodeData::Doctype { name, .. } => out.push_str(&format!("<!{}>", name)),
        DomNodeData::Text { contents } => out.push_str(&format!("'{}'", contents)),
        DomNodeData::Comment { contents } => out.push_str(&format!("<!--{}-->", contents)),
        DomNodeData::ProcessingInstruction { target, contents } => out.push_str(&format!("<?{} {}>", target, contents)),
        DomNodeData::Element { name, attrs, template_contents, .. } => {
            out.push('<');
            out.push_str(&name.local);
            for a in attrs {
                out.push_str(&format!(" {}={}", a.name.local, a.value));
            }
            out.push('>');
            if let Some(c) = template_contents {
                out.push('{');
                out.push_str(&render(c));
                out.push('}');
            }
        }
    }
    if !n.children.is_empty() {
        out.push('[');
        let parts: Vec<String> = n.children.iter().map(render).collect();
        out.push_str(&parts.join(","));
        out.push(']');
    }
    out
}

#[test]
fn remove_script_elements_drops_nested_scripts() {
    let t = fragment(vec![
        elem("p", vec![], vec![elem("script", vec![], vec![text("x()")]), text("a")]),
        elem("script", vec![], vec![]),
        elem("b", vec![], vec![]),
    ]);
    let r = remove_script_elements(&t);
    assert_eq!(render(&r), "#doc[<p>['a'],<b>]");
}

#[test]
fn remove_script_elements_is_idempotent() {
    let t = fragment(vec![elem("div", vec![], vec![elem("script", vec![], vec![]), elem("i", vec![], vec![])])]);
    let once = remove_script_elements(&t);
    let twice = remove_script_elements(&once);
    assert_eq!(render(&once), render(&twice));
}

#[test]
fn find_components_definitions_first_definition_wins() {
    let doc = fragment(vec![
        template(vec![attr("component", "x-a"), attr("shadow", "open")], vec![elem("p", vec![], vec![])]),
        template(vec![attr("component", "x-a")], vec![elem("q", vec![], vec![])]),
        elem("div", vec![], vec![template(vec![attr("component", "x-b")], vec![text("b")])]),
        template(vec![attr("mixin", ""), attr("global", "")], vec![elem("style", vec![], vec![text("s")])]),
        template(vec![attr("mixin", "")], vec![elem("style", vec![], vec![])]),
    ]);
    let mut defs: Vec<ComponentDefinition> = Vec::new();
    let mut mixins: Vec<DomNode> = Vec::new();
    find_components_definitions(&doc, &mut defs, &mut mixins);
    assert_eq!(defs.len(), 2);
    assert_eq!(defs[0].name, "x-a");
    assert_eq!(defs[0].shadowroot_mode, "open");
    assert_eq!(render(&defs[0].contents), "#doc[<p>]");
    assert_eq!(defs[1].name, "x-b");
    assert_eq!(defs[1].shadowroot_mode, "closed");
    assert_eq!(mixins.len(), 1);
    assert_eq!(render(&mixins[0]), "#doc[<style>['s']]");
}

#[test]
fn find_components_uses_stops_at_a_use() {
    let doc = fragment(vec![
        elem("x-a", vec![], vec![elem("x-a", vec![], vec![])]),
        elem("div", vec![], vec![elem("x-a", vec![], vec![text("2")])]),
        template(vec![], vec![elem("x-a", vec![], vec![])]),
    ]);
    let mut uses: Vec<&DomNode> = Vec::new();
    find_components_uses(&doc, &"x-a".to_string(), &mut uses);
    assert_eq!(uses.len(), 2);
    assert_eq!(render(uses[1]), "<x-a>['2']");
}

#[test]
fn inline_attaches_a_shadow_root_to_each_use() {
    let mut doc = fragment(vec![
        template(
            vec![attr("component", "x-a"), attr("shadow", "open")],
            vec![elem("p", vec![], vec![text("hi")]), elem("script", vec![], vec![])],
        ),
        template(vec![attr("mixin", ""), attr("global", "")], vec![elem("style", vec![], vec![text("m")])]),
        elem("x-a", vec![], vec![text("light")]),
    ]);
    assert!(can_inline_facet_components(&doc));
    inline_facet_components(&mut doc);
    assert_eq!(
        render(&doc.children[2]),
        "<x-a>['light',<template shadowrootmode=open>{#doc[<p>['hi']]}[#doc[<style>['m']]]]"
    );
}

#[test]
fn inline_default_mode_is_closed() {
    let mut doc = fragment(vec![
        template(vec![attr("component", "x-a")], vec![text("c")]),
        elem("x-a", vec![], vec![]),
    ]);
    inline_facet_components(&mut doc);
    assert_eq!(render(&doc.children[1]), "<x-a>[<template shadowrootmode=closed>{#doc['c']}]");
}

#[test]
fn inline_repeats_nested_roots_per_instance() {
    // x-a is used twice and holds a use of x-b: each filling of x-a's shared
    // contents adds a shadow root to that use, so it ends up with two.
    let mut doc = fragment(vec![
        template(vec![attr("component", "x-a")], vec![elem("x-b", vec![], vec![])]),
        template(vec![attr("component", "x-b")], vec![text("b")]),
        elem("x-a", vec![], vec![]),
        elem("x-a", vec![], vec![]),
    ]);
    assert!(can_inline_facet_components(&doc));
    inline_facet_components(&mut doc);
    let inner_b = "<x-b>[<template shadowrootmode=closed>{#doc['b']},<template shadowrootmode=closed>{#doc['b']}]";
    let expected = format!("<x-a>[<template shadowrootmode=closed>{{#doc[{}]}}]", inner_b);
    assert_eq!(render(&doc.children[2]), expected);
    assert_eq!(render(&doc.children[3]), expected);
}

#[test]
fn inline_skips_a_use_inside_a_use_of_the_same_component() {
    let mut doc = fragment(vec![
        template(vec![attr("component", "x-a")], vec![]),
        elem("x-a", vec![], vec![elem("x-a", vec![], vec![])]),
    ]);
    inline_facet_components(&mut doc);
    assert_eq!(render(&doc.children[1]), "<x-a>[<x-a>,<template shadowrootmode=closed>{#doc}]");
}

#[test]
fn inline_without_uses_changes_nothing() {
    let mut doc = fragment(vec![
        template(vec![attr("component", "x-a")], vec![text("c")]),
        elem("div", vec![attr("class", "k")], vec![text("t")]),
    ]);
    let before = render(&doc);
    inline_facet_components(&mut doc);
    assert_eq!(render(&doc), before);
}

#[test]
fn inline_keeps_existing_children_first() {
    let mut doc = fragment(vec![
        template(vec![attr("component", "x-a")], vec![]),
        elem("x-a", vec![], vec![text("1"), elem("i", vec![], vec![])]),
    ]);
    inline_facet_components(&mut doc);
    let use_node = &doc.children[1];
    assert_eq!(use_node.children.len(), 3);
    assert_eq!(render(&use_node.children[0]), "'1'");
    assert_eq!(render(&use_node.children[1]), "<i>");
}

#[test]
fn cannot_inline_a_recursive_component() {
    let doc = fragment(vec![
        template(vec![attr("component", "x-a")], vec![elem("x-a", vec![], vec![])]),
        elem("x-a", vec![], vec![]),
    ]);
    assert!(!can_inline_facet_components(&doc));
}

#[test]
fn unused_recursive_component_is_harmless() {
    let doc = fragment(vec![
        template(vec![attr("component", "x-a")], vec![elem("x-a", vec![], vec![])]),
        elem("p", vec![], vec![]),
    ]);
    assert!(can_inline_facet_components(&doc));
}

#[test]
fn a_mixin_may_use_the_only_used_component() {
    let mut doc = fragment(vec![
        template(vec![attr("component", "x-a")], vec![text("a")]),
        template(vec![attr("mixin", ""), attr("global", "")], vec![elem("x-a", vec![], vec![])]),
        elem("x-a", vec![], vec![]),
    ]);
    assert!(can_inline_facet_components(&doc));
    inline_facet_components(&mut doc);
    assert_eq!(
        render(&doc.children[2]),
        "<x-a>[<template shadowrootmode=closed>{#doc['a']}[#doc[<x-a>]]]"
    );
}

#[test]
fn cannot_inline_when_a_mixin_uses_another_used_component() {
    let doc = fragment(vec![
        template(vec![attr("component", "x-a")], vec![]),
        template(vec![attr("component", "x-b")], vec![]),
        template(vec![attr("mixin", ""), attr("global", "")], vec![elem("x-b", vec![], vec![])]),
        elem("x-a", vec![], vec![]),
    ]);
    assert!(!can_inline_facet_components(&doc));
    let nested = fragment(vec![
        template(vec![attr("component", "x-a")], vec![elem("x-b", vec![], vec![])]),
        template(vec![attr("component", "x-b")], vec![]),
        template(vec![attr("mixin", ""), attr("global", "")], vec![elem("x-a", vec![], vec![])]),
        elem("x-a", vec![], vec![]),
    ]);
    assert!(!can_inline_facet_components(&nested));
}
