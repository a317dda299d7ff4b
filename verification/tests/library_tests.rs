use envq::{ArgError, EnvFile, ListMode, Target};

#[test]
fn test_end_to_end_scenario() {
    let content = "# Header\n\nFOO=bar\nBAR=baz # has comment\nQUX=value\n";
    let mut env = EnvFile::parse(content).unwrap();
    assert_eq!(env.list_keys(), vec!["FOO", "BAR", "QUX"]);
    assert_eq!(env.get_comment("BAR"), Some("has comment"));
    env.delete_comment("BAR");
    assert_eq!(env.get_comment("BAR"), None);
    assert_eq!(env.get_value("BAR"), Some("baz"));
}

#[test]
fn test_render_parse_stabilizes() {
    // Non-canonical spacing is normalized once; after that the text is a
    // fixed point of parse-then-render.
    let content = "#Header\n KEY =  1\n";
    let env = EnvFile::parse(content).unwrap();
    let once = env.render();
    assert_eq!(once, "# Header\n\nKEY=1\n");
    let env2 = EnvFile::parse(&once).unwrap();
    assert_eq!(env2.render(), once);
}

#[test]
fn test_empty_input() {
    let env = EnvFile::parse("").unwrap();
    assert_eq!(env.list_keys().len(), 0);
    assert_eq!(env.get_header(), None);
    assert_eq!(env.render(), "");
}

#[test]
fn test_header_only_document() {
    let env = EnvFile::parse("# just header\n").unwrap();
    assert_eq!(env.get_header(), Some("just header\n".to_string()));
    assert_eq!(env.list_keys().len(), 0);
    assert_eq!(env.render(), "# just header\n\n");
}

#[test]
fn test_header_line_without_space() {
    let env = EnvFile::parse("#tight\nKEY=v\n").unwrap();
    assert_eq!(env.get_header(), Some("tight\n".to_string()));
}

#[test]
fn test_set_comment_missing_key_is_noop() {
    let content = "KEY=value\n";
    let mut env = EnvFile::parse(content).unwrap();
    env.set_comment("OTHER", "c");
    assert_eq!(env.get_comment("OTHER"), None);
    assert_eq!(env.render(), content);
}

#[test]
fn test_delete_missing_key_is_noop() {
    let content = "KEY=value\n";
    let mut env = EnvFile::parse(content).unwrap();
    env.delete_key("OTHER");
    env.delete_comment("OTHER");
    assert_eq!(env.render(), content);
}

#[test]
fn test_duplicate_keys_first_wins() {
    let mut env = EnvFile::parse("A=1\nA=2\n").unwrap();
    assert_eq!(env.get_value("A"), Some("1"));
    assert_eq!(env.list_keys(), vec!["A", "A"]);
    env.set_value("A", "3");
    assert_eq!(env.render(), "A=3\nA=2\n");
}

#[test]
fn test_value_hash_starts_comment() {
    let env = EnvFile::parse("K=v # a#b\n").unwrap();
    assert_eq!(env.get_value("K"), Some("v"));
    assert_eq!(env.get_comment("K"), Some("a#b"));
}

#[test]
fn test_empty_value_with_comment() {
    let env = EnvFile::parse("K= #c\n").unwrap();
    assert_eq!(env.get_value("K"), Some(""));
    assert_eq!(env.get_comment("K"), Some("c"));
}

#[test]
fn test_line_without_equals_before_key_is_header_error() {
    let result = EnvFile::parse("no equals sign\n");
    assert!(matches!(
        result.unwrap_err(),
        envq::ParseError::InvalidHeaderLine { .. }
    ));
}

#[test]
fn test_empty_key_is_invalid() {
    let result = EnvFile::parse("KEY=v\n  =value\n");
    match result.unwrap_err() {
        envq::ParseError::InvalidLine { line } => assert_eq!(line, "  =value"),
        other => panic!("wrong error variant: {:?}", other),
    }
}

#[test]
fn test_parse_key_value_first_equals_wins() {
    let parsed = envq::entry::parse_key_value("KEY=value=with=equals").unwrap();
    assert_eq!(parsed.0, "KEY");
    assert_eq!(parsed.1, "value=with=equals");
    assert_eq!(parsed.2, None);
}

#[test]
fn test_parse_key_value_comment_needs_no_space() {
    let parsed = envq::entry::parse_key_value("KEY=value #comment").unwrap();
    assert_eq!(parsed.1, "value");
    assert_eq!(parsed.2, Some("comment".to_string()));
}

#[test]
fn test_set_header_replaces_whole_header() {
    let mut env = EnvFile::parse("# old\nKEY=v\n").unwrap();
    env.set_header("a\nb\nc");
    assert_eq!(env.get_header(), Some("a\nb\nc\n".to_string()));
    assert_eq!(env.render(), "# a\n# b\n# c\n\nKEY=v\n");
}

#[test]
fn test_list_args_default() {
    let (mode, file) = envq::cli::parse_list_args(&vec![]);
    assert_eq!(mode, ListMode::Values);
    assert_eq!(file, None);
}

#[test]
fn test_list_args_keys_with_file() {
    let args = vec!["keys".to_string(), ".env".to_string()];
    let (mode, file) = envq::cli::parse_list_args(&args);
    assert_eq!(mode, ListMode::Keys);
    assert_eq!(file, Some(".env".to_string()));
}

#[test]
fn test_list_args_bare_file() {
    let args = vec![".env".to_string()];
    let (mode, file) = envq::cli::parse_list_args(&args);
    assert_eq!(mode, ListMode::Values);
    assert_eq!(file, Some(".env".to_string()));
}

#[test]
fn test_get_del_args_empty_errors() {
    let r = envq::cli::parse_get_del_args(&vec![]);
    assert_eq!(r.unwrap_err(), ArgError::MissingGetTarget);
}

#[test]
fn test_get_del_args_comment_needs_key() {
    let r = envq::cli::parse_get_del_args(&vec!["comment".to_string()]);
    assert_eq!(r.unwrap_err(), ArgError::MissingKeyName);
}

#[test]
fn test_get_del_args_implicit_key() {
    let args = vec!["FOO".to_string(), ".env".to_string()];
    let (target, file) = envq::cli::parse_get_del_args(&args).unwrap();
    assert_eq!(target, Target::Key("FOO".to_string()));
    assert_eq!(file, Some(".env".to_string()));
}

#[test]
fn test_get_del_args_header() {
    let (target, file) = envq::cli::parse_get_del_args(&vec!["header".to_string()]).unwrap();
    assert_eq!(target, Target::Header);
    assert_eq!(file, None);
}

#[test]
fn test_set_args_empty_errors() {
    let r = envq::cli::parse_set_args(&vec![]);
    assert_eq!(r.unwrap_err(), ArgError::MissingSetTarget);
}

#[test]
fn test_set_args_header_needs_value() {
    let r = envq::cli::parse_set_args(&vec!["header".to_string()]);
    assert_eq!(r.unwrap_err(), ArgError::MissingHeaderValue);
}

#[test]
fn test_set_args_comment_needs_key_and_value() {
    let r = envq::cli::parse_set_args(&vec!["comment".to_string(), "FOO".to_string()]);
    assert_eq!(r.unwrap_err(), ArgError::MissingKeyAndValue);
}

#[test]
fn test_set_args_bare_key_needs_value() {
    let r = envq::cli::parse_set_args(&vec!["FOO".to_string()]);
    assert_eq!(r.unwrap_err(), ArgError::MissingValue);
}

#[test]
fn test_set_args_explicit_key() {
    let args = vec![
        "key".to_string(),
        "FOO".to_string(),
        "bar".to_string(),
        ".env".to_string(),
    ];
    let (target, value, file) = envq::cli::parse_set_args(&args).unwrap();
    assert_eq!(target, Target::Key("FOO".to_string()));
    assert_eq!(value, "bar");
    assert_eq!(file, Some(".env".to_string()));
}

#[test]
fn test_set_args_implicit_key() {
    let args = vec!["FOO".to_string(), "bar".to_string()];
    let (target, value, file) = envq::cli::parse_set_args(&args).unwrap();
    assert_eq!(target, Target::Key("FOO".to_string()));
    assert_eq!(value, "bar");
    assert_eq!(file, None);
}
