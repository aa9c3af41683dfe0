use decl_shadow_test::cachebuster::{
    asset_file_path, cachebust_import_map_entries, can_fix_link_elements, content_digest, fix_link_elements,
    is_local_url, link_element_targets, process_url, target_new_value, CachebustTarget, TargetInput,
};
use decl_shadow_test::html::parse_html;
use decl_shadow_test::dom::{DomAttribute, DomNode, DomNodeData, QualifiedName};

fn name(local: &str) -> QualifiedName {
    QualifiedName { prefix: None, ns: "http://www.w3.org/1999/xhtml".to_string(), local: local.to_string() }
}

fn attr(local: &str, value: &str) -> DomAttribute {
    DomAttribute { name: QualifiedName { prefix: None, ns: String::new(), local: local.to_string() }, value: value.to_string() }
}

fn text(s: &str) -> DomNode {
    DomNode { data: DomNodeData::Text { contents: s.to_string() }, children: vec![] }
}

fn elem(local: &str, attrs: Vec<DomAttribute>, children: Vec<DomNode>) -> DomNode {
    DomNode {
        data: DomNodeData::Element { name: name(local), attrs, template_contents: None, mathml_annotation_xml_integration_point: false },
        children,
    }
}

fn fragment(children: Vec<DomNode>) -> DomNode {
    DomNode { data: DomNodeData::Document, children }
}

fn template(contents: Vec<DomNode>) -> DomNode {
    DomNode {
        data: DomNodeData::Element {
            name: name("template"),
            attrs: vec![],
            template_contents: Some(Box::new(fragment(contents))),
            mathml_annotation_xml_integration_point: false,
        },
        children: vec![],
    }
}

fn describe(t: &CachebustTarget) -> String {
    match t {
        CachebustTarget::Asset(s) => format!("asset {}", s),
        CachebustTarget::ImportMap(s) => format!("importmap {}", s),
        CachebustTarget::Stylesheet(s) => format!("style {}", s),
    }
}

fn attr_value(n: &DomNode, local: &str) -> String {
    match &n.data {
        DomNodeData::Element { attrs, .. } => attrs.iter().find(|a| a.name.local == local).unwrap().value.clone(),
        _ => panic!("not an element"),
    }
}

fn first_text(n: &DomNode) -> String {
    match &n.children[0].data {
        DomNodeData::Text { contents } => contents.clone(),
        _ => panic!("not text"),
    }
}

fn sample() -> DomNode {
    fragment(vec![
        elem("head", vec![], vec![
            elem("link", vec![attr("rel", "stylesheet"), attr("href", "/main.css")], vec![]),
            elem("link", vec![attr("href", "https://cdn.example/x.css")], vec![]),
            elem("script", vec![attr("type", "importmap")], vec![text("{\"imports\":{}}")]),
            elem("script", vec![attr("src", "/app.js")], vec![]),
            elem("script", vec![attr("src", "https://cdn.example/lib.js")], vec![]),
            elem("style", vec![], vec![text("body{}")]),
        ]),
        elem("body", vec![], vec![template(vec![elem("link", vec![attr("href", "t.css")], vec![])])]),
    ])
}

#[test]
fn local_urls_have_no_scheme() {
    assert!(is_local_url("/style.css"));
    assert!(is_local_url("style.css"));
    assert!(is_local_url("../a/b.js?x=1"));
    assert!(is_local_url(""));
    assert!(is_local_url("1http:x"));
    assert!(is_local_url("a b:c"));
    assert!(!is_local_url("https://example.com/a.js"));
    assert!(!is_local_url("mailto:someone@example.com"));
    assert!(!is_local_url("  data:text/plain,hi"));
    assert!(!is_local_url("ht\ttp://x"));
}

#[test]
fn process_url_adds_a_query_parameter() {
    assert_eq!(process_url("/a.css", "DIG"), "/a.css?cachebust=DIG");
    assert_eq!(process_url("/a.css?v=1", "DIG"), "/a.css?v=1&cachebust=DIG");
    assert_eq!(process_url("", "D"), "?cachebust=D");
}

#[test]
fn asset_file_path_drops_one_leading_slash() {
    assert_eq!(asset_file_path("/a/b.css"), "a/b.css");
    assert_eq!(asset_file_path("a.css"), "a.css");
    assert_eq!(asset_file_path("//x"), "/x");
    assert_eq!(asset_file_path(""), "");
}

#[test]
fn content_digest_is_base64url_of_sha256() {
    assert_eq!(content_digest(b""), "47DEQpj8HBSa-_TImW-5JCeuQeRkm5NMpJWZG3hSuFU=");
    assert_eq!(content_digest(b"abc"), "ungWv48Bz-pBQUDeXa4iI7ADYaOWF3qctBD_YfIAFa0=");
    assert_eq!(content_digest(b"hello").len(), 44);
}

#[test]
fn targets_are_listed_in_document_order() {
    let doc = sample();
    let mut targets: Vec<CachebustTarget> = Vec::new();
    link_element_targets(&doc, &mut targets);
    let got: Vec<String> = targets.iter().map(describe).collect();
    assert_eq!(
        got,
        vec![
            "asset /main.css".to_string(),
            "importmap {\"imports\":{}}".to_string(),
            "asset /app.js".to_string(),
            "style body{}".to_string(),
            "asset t.css".to_string(),
        ]
    );
}

const EMPTY_DIGEST: &str = "47DEQpj8HBSa-_TImW-5JCeuQeRkm5NMpJWZG3hSuFU=";
const ABC_DIGEST: &str = "ungWv48Bz-pBQUDeXa4iI7ADYaOWF3qctBD_YfIAFa0=";

#[test]
fn fix_link_elements_puts_new_values_in_order() {
    let mut doc = sample();
    assert!(can_fix_link_elements(&doc));
    let inputs = vec![
        TargetInput::Asset(b"".to_vec()),
        TargetInput::ImportMap { entries: vec![], contents: vec![] },
        TargetInput::Asset(b"abc".to_vec()),
        TargetInput::Stylesheet(vec![]),
        TargetInput::Asset(b"".to_vec()),
    ];
    fix_link_elements(&mut doc, &inputs);
    let head = &doc.children[0];
    assert_eq!(attr_value(&head.children[0], "href"), format!("/main.css?cachebust={EMPTY_DIGEST}"));
    assert_eq!(attr_value(&head.children[0], "rel"), "stylesheet");
    assert_eq!(attr_value(&head.children[1], "href"), "https://cdn.example/x.css");
    assert_eq!(first_text(&head.children[2]), "{\n  \"imports\": {}\n}");
    assert_eq!(attr_value(&head.children[3], "src"), format!("/app.js?cachebust={ABC_DIGEST}"));
    assert_eq!(attr_value(&head.children[4], "src"), "https://cdn.example/lib.js");
    assert_eq!(first_text(&head.children[5]), "body{}\n");
    match &doc.children[1].children[0].data {
        DomNodeData::Element { template_contents: Some(c), .. } => {
            assert_eq!(attr_value(&c.children[0], "href"), format!("t.css?cachebust={EMPTY_DIGEST}"))
        }
        _ => panic!("template lost"),
    }
}

#[test]
fn fix_link_elements_on_a_parsed_page() {
    let mut doc = parse_html(
        br#"<link href="/a.css?v=1"><link href="https://cdn.example.com/b.css"><script src="/m.js"></script>"#,
    );
    let mut targets: Vec<CachebustTarget> = Vec::new();
    link_element_targets(&doc, &mut targets);
    let got: Vec<String> = targets.iter().map(describe).collect();
    assert_eq!(got, vec!["asset /a.css?v=1".to_string(), "asset /m.js".to_string()]);
    assert!(can_fix_link_elements(&doc));
    fix_link_elements(&mut doc, &vec![TargetInput::Asset(vec![]), TargetInput::Asset(vec![])]);
    let html = &doc.children[0];
    let head = &html.children[0];
    assert_eq!(attr_value(&head.children[0], "href"), format!("/a.css?v=1&cachebust={EMPTY_DIGEST}"));
    assert_eq!(attr_value(&head.children[1], "href"), "https://cdn.example.com/b.css");
    assert_eq!(attr_value(&head.children[2], "src"), format!("/m.js?cachebust={EMPTY_DIGEST}"));
    assert_eq!(head.children.len(), 3);
}

#[test]
fn fix_link_elements_reaches_template_contents() {
    let mut doc = parse_html(br#"<template><link href="/t.css"></template>"#);
    fix_link_elements(&mut doc, &vec![TargetInput::Asset(vec![])]);
    let head = &doc.children[0].children[0];
    match &head.children[0].data {
        DomNodeData::Element { template_contents: Some(c), .. } => {
            assert_eq!(attr_value(&c.children[0], "href"), format!("/t.css?cachebust={EMPTY_DIGEST}"))
        }
        _ => panic!("no template contents"),
    }
}

#[test]
fn fix_link_elements_rewrites_style_sheets() {
    let css = "a{}\n/* begin assetreplace */\n  \"/img.png\"\nb{}";
    let mut doc = fragment(vec![elem("style", vec![], vec![text(css)])]);
    fix_link_elements(&mut doc, &vec![TargetInput::Stylesheet(vec![b"abc".to_vec()])]);
    assert_eq!(
        first_text(&doc.children[0]),
        format!("a{{}}\n/* begin assetreplace */\n\"/img.png?cachebust={ABC_DIGEST}\"\nb{{}}\n")
    );
}

#[test]
fn target_values_follow_their_kind() {
    let asset = CachebustTarget::Asset("/x.js?a=b".to_string());
    assert_eq!(target_new_value(&asset, &TargetInput::Asset(b"abc".to_vec())), format!("/x.js?a=b&cachebust={ABC_DIGEST}"));
    let map = CachebustTarget::ImportMap("{\"imports\":{\"m\":\"/m.js\"}}".to_string());
    let input = TargetInput::ImportMap { entries: vec![("m".to_string(), "/m.js".to_string())], contents: vec![vec![]] };
    assert_eq!(
        target_new_value(&map, &input),
        format!("{{\n  \"imports\": {{\n    \"m\": \"/m.js?cachebust={EMPTY_DIGEST}\"\n  }}\n}}")
    );
    let style = CachebustTarget::Stylesheet("x\r\ny".to_string());
    assert_eq!(target_new_value(&style, &TargetInput::Stylesheet(vec![])), "x\ny\n");
}

#[test]
fn import_map_urls_are_cache_busted() {
    let entries = vec![("a".to_string(), "/a.js".to_string()), ("b".to_string(), "b.js?x".to_string())];
    let got = cachebust_import_map_entries(&entries, &vec![b"".to_vec(), b"abc".to_vec()]);
    assert_eq!(
        got,
        vec![
            ("a".to_string(), format!("/a.js?cachebust={EMPTY_DIGEST}")),
            ("b".to_string(), format!("b.js?x&cachebust={ABC_DIGEST}")),
        ]
    );
}

#[test]
fn fix_link_elements_rewrites_import_maps() {
    let mut doc = fragment(vec![
        elem("script", vec![attr("type", "importmap")], vec![text("{\"imports\":{\"b\":\"/b.js\",\"a\":\"/a.js\"}}")]),
        elem("link", vec![attr("href", "https://x/y.css")], vec![]),
    ]);
    let entries = vec![("b".to_string(), "/b.js".to_string()), ("a".to_string(), "/a.js".to_string())];
    fix_link_elements(&mut doc, &vec![TargetInput::ImportMap { entries, contents: vec![b"abc".to_vec(), b"".to_vec()] }]);
    assert_eq!(
        first_text(&doc.children[0]),
        format!(
            "{{\n  \"imports\": {{\n    \"a\": \"/a.js?cachebust={EMPTY_DIGEST}\",\n    \"b\": \"/b.js?cachebust={ABC_DIGEST}\"\n  }}\n}}"
        )
    );
    assert_eq!(attr_value(&doc.children[0], "type"), "importmap");
    assert_eq!(attr_value(&doc.children[1], "href"), "https://x/y.css");
}

#[test]
fn parse_html_builds_the_document_tree() {
    let doc = parse_html(b"<!DOCTYPE html><title>T</title><p class=\"c\">hi</p>");
    assert!(matches!(doc.data, DomNodeData::Document));
    assert!(matches!(&doc.children[0].data, DomNodeData::Doctype { name, .. } if name == "html"));
    let html = &doc.children[1];
    match &html.data {
        DomNodeData::Element { name, .. } => assert_eq!(name.local, "html"),
        _ => panic!("no html element"),
    }
    let body = &html.children[1];
    let p = &body.children[0];
    assert_eq!(attr_value(p, "class"), "c");
    assert_eq!(first_text(p), "hi");
    let title = &html.children[0].children[0];
    assert_eq!(first_text(title), "T");
}

#[test]
fn only_local_assets_are_targets() {
    let doc = fragment(vec![
        elem("link", vec![attr("href", "http://a/b.css")], vec![]),
        elem("script", vec![attr("src", "//cdn/x.js")], vec![]),
    ]);
    let mut targets: Vec<CachebustTarget> = Vec::new();
    link_element_targets(&doc, &mut targets);
    let got: Vec<String> = targets.iter().map(describe).collect();
    assert_eq!(got, vec!["asset //cdn/x.js".to_string()]);
}

#[test]
fn link_children_are_not_searched() {
    let doc = fragment(vec![elem("link", vec![], vec![elem("script", vec![attr("src", "/a.js")], vec![])])]);
    let mut targets: Vec<CachebustTarget> = Vec::new();
    link_element_targets(&doc, &mut targets);
    assert!(targets.is_empty());
}

#[test]
fn empty_style_cannot_be_fixed() {
    let doc = fragment(vec![elem("style", vec![], vec![])]);
    assert!(!can_fix_link_elements(&doc));
    let doc2 = fragment(vec![elem("script", vec![attr("type", "importmap")], vec![])]);
    assert!(!can_fix_link_elements(&doc2));
    let doc3 = fragment(vec![elem("style", vec![], vec![elem("b", vec![], vec![])])]);
    assert!(can_fix_link_elements(&doc3));
}
