use decl_shadow_test::css::{css_asset_urls, process_css_imports, split_lines};
use decl_shadow_test::text::chars_of;

fn lines(s: &str) -> Vec<String> {
    split_lines(&chars_of(s)).iter().map(|l| l.iter().collect()).collect()
}

#[test]
fn lines_follow_str_lines() {
    for s in ["", "a", "a\n", "a\r\nb", "a\n\nb\n", "a\rb\r", "\n", "x\r\n\r\n"] {
        let expected: Vec<String> = s.lines().map(|l| l.to_string()).collect();
        assert_eq!(lines(s), expected, "input {:?}", s);
    }
}

#[test]
fn asset_urls_follow_markers() {
    let css = "a{}\n/* begin assetreplace */\n  \"/img/a.png\"  \nb{}\n/* begin assetreplace */\nplain.png\n";
    let urls = css_asset_urls(css).unwrap();
    assert_eq!(urls, vec!["/img/a.png".to_string(), "plain.png".to_string()]);
}

#[test]
fn marker_on_last_line_is_refused() {
    assert!(css_asset_urls("a{}\n/* begin assetreplace */").is_none());
    assert!(css_asset_urls("a{}\n/* begin assetreplace */\n").is_none());
}

#[test]
fn marker_as_asset_line_is_not_a_marker() {
    let css = "begin assetreplace\nbegin assetreplace\n";
    let urls = css_asset_urls(css).unwrap();
    assert_eq!(urls, vec!["begin assetreplace".to_string()]);
}

#[test]
fn process_css_imports_rewrites_asset_lines() {
    let css = "a{}\r\n/* begin assetreplace */\n  \"/img/a.png?x\"\nb{}";
    let out = process_css_imports(css, &vec!["D1".to_string()]);
    assert_eq!(out, "a{}\n/* begin assetreplace */\n\"/img/a.png?x&cachebust=D1\"\nb{}\n");
}

#[test]
fn style_sheet_without_markers_is_kept() {
    let css = "body { color: red; }\n\n.a { }\n";
    assert_eq!(css_asset_urls(css).unwrap().len(), 0);
    assert_eq!(process_css_imports(css, &vec![]), css);
}

#[test]
fn unquoting_trims_unicode_white_space() {
    let css = "begin assetreplace\n\u{3000}\"q.png\"\u{a0}\n";
    assert_eq!(css_asset_urls(css).unwrap(), vec!["q.png".to_string()]);
    let css2 = "begin assetreplace\n\"\n";
    assert_eq!(css_asset_urls(css2).unwrap(), vec!["".to_string()]);
}
