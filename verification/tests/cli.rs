use decl_shadow_test::cli::{parse_command, parse_port, ArgError, Command};
use decl_shadow_test::server;
use decl_shadow_test::ssg::{self, entry_action, EntryAction};

fn args(v: &[&str]) -> Vec<String> {
    v.iter().map(|s| s.to_string()).collect()
}

fn err(r: Result<Option<Command>, ArgError>) -> ArgError {
    match r {
        Err(e) => e,
        Ok(_) => panic!("expected an error"),
    }
}

#[test]
fn no_arguments_is_no_command() {
    assert!(matches!(parse_command(&args(&[])), Ok(None)));
}

#[test]
fn serve_defaults_to_port_8080() {
    match parse_command(&args(&["serve"])) {
        Ok(Some(Command::Serve(s))) => assert_eq!(s.port, 8080),
        _ => panic!("expected serve"),
    }
}

#[test]
fn serve_last_port_wins() {
    match parse_command(&args(&["serve", "-p", "3000", "--port", "+4000"])) {
        Ok(Some(Command::Serve(s))) => assert_eq!(s.port, 4000),
        _ => panic!("expected serve"),
    }
}

#[test]
fn build_takes_source_and_out() {
    match parse_command(&args(&["build", "--out", "dist", "-s", "src", "-o", "public"])) {
        Ok(Some(Command::Build(s))) => {
            assert_eq!(s.source_dir, "src");
            assert_eq!(s.output_dir, "public");
        }
        _ => panic!("expected build"),
    }
    match parse_command(&args(&["build"])) {
        Ok(Some(Command::Build(s))) => {
            assert_eq!(s.source_dir, "./site");
            assert_eq!(s.output_dir, "./out");
        }
        _ => panic!("expected build"),
    }
}

#[test]
fn argument_errors() {
    assert!(err(parse_command(&args(&["run"]))) == ArgError::UnrecognizedArgument);
    assert!(err(parse_command(&args(&["serve", "-x"]))) == ArgError::UnrecognizedServeArgument);
    assert!(err(parse_command(&args(&["build", "-p", "1"]))) == ArgError::UnrecognizedBuildArgument);
    assert!(err(parse_command(&args(&["serve", "-p"]))) == ArgError::MissingValue);
    assert!(err(parse_command(&args(&["build", "--source"]))) == ArgError::MissingValue);
    assert!(err(parse_command(&args(&["serve", "--port", "70000"]))) == ArgError::InvalidPort);
}

#[test]
fn ports_parse_like_u16_from_str() {
    for s in ["0", "80", "+80", "65535", "65536", "", "+", "-1", "8o", "007", "99999999999"] {
        assert_eq!(parse_port(&s.to_string()), s.parse::<u16>().ok(), "input {:?}", s);
    }
}

#[test]
fn settings_defaults() {
    assert_eq!(server::Settings::new().port, 8080);
    let s = ssg::Settings::new();
    assert_eq!(s.source_dir, "./site");
    assert_eq!(s.output_dir, "./out");
    let d = ssg::Settings::default();
    assert_eq!(d.source_dir, s.source_dir);
    assert_eq!(d.output_dir, s.output_dir);
}

#[test]
fn html_content_types() {
    assert!(server::is_html_content_type(Some("text/html; charset=utf-8")));
    assert!(server::is_html_content_type(Some("text/html")));
    assert!(!server::is_html_content_type(Some("text/css")));
    assert!(!server::is_html_content_type(None));
}

#[test]
fn entry_actions() {
    assert!(matches!(entry_action(true, "a.html"), EntryAction::Descend));
    assert!(matches!(entry_action(false, "index.html"), EntryAction::Rewrite));
    assert!(matches!(entry_action(false, "..html"), EntryAction::Rewrite));
    assert!(matches!(entry_action(false, ".html"), EntryAction::Copy));
    assert!(matches!(entry_action(false, "a.htm"), EntryAction::Copy));
    assert!(matches!(entry_action(false, "a.HTML"), EntryAction::Copy));
    assert!(matches!(entry_action(false, "style.css"), EntryAction::Copy));
}
