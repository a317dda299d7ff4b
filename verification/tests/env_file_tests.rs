use envq::{EnvFile, ParseError};

#[test]
fn test_parse_simple() {
    let content = "KEY=value\n";
    let env = EnvFile::parse(content).unwrap();
    assert_eq!(env.list_keys(), vec!["KEY"]);
    assert_eq!(env.get_value("KEY"), Some("value"));
}

#[test]
fn test_parse_with_comment() {
    let content = "KEY=value # this is a comment\n";
    let env = EnvFile::parse(content).unwrap();
    assert_eq!(env.get_value("KEY"), Some("value"));
    assert_eq!(env.get_comment("KEY"), Some("this is a comment"));
}

#[test]
fn test_parse_with_header() {
    let content = "# Header line 1\n# Header line 2\n\nKEY=value\n";
    let env = EnvFile::parse(content).unwrap();
    assert_eq!(
        env.get_header(),
        Some("Header line 1\nHeader line 2\n".to_string())
    );
    assert_eq!(env.get_value("KEY"), Some("value"));
}

#[test]
fn test_set_value_preserves_comment() {
    let content = "KEY=old # comment\n";
    let mut env = EnvFile::parse(content).unwrap();
    env.set_value("KEY", "new");
    assert_eq!(env.get_value("KEY"), Some("new"));
    assert_eq!(env.get_comment("KEY"), Some("comment"));
}

#[test]
fn test_set_value_new_key() {
    let content = "KEY1=value1\n";
    let mut env = EnvFile::parse(content).unwrap();
    env.set_value("KEY2", "value2");
    assert_eq!(env.list_keys(), vec!["KEY1", "KEY2"]);
    assert_eq!(env.get_value("KEY2"), Some("value2"));
}

#[test]
fn test_delete_key_removes_comment() {
    let content = "KEY=value # comment\n";
    let mut env = EnvFile::parse(content).unwrap();
    env.delete_key("KEY");
    assert_eq!(env.list_keys().len(), 0);
    assert_eq!(env.get_comment("KEY"), None);
}

#[test]
fn test_delete_comment_only() {
    let content = "KEY=value # comment\n";
    let mut env = EnvFile::parse(content).unwrap();
    env.delete_comment("KEY");
    assert_eq!(env.get_value("KEY"), Some("value"));
    assert_eq!(env.get_comment("KEY"), None);
}

#[test]
fn test_set_comment() {
    let content = "KEY=value\n";
    let mut env = EnvFile::parse(content).unwrap();
    env.set_comment("KEY", "new comment");
    assert_eq!(env.get_comment("KEY"), Some("new comment"));
}

#[test]
fn test_set_header() {
    let content = "KEY=value\n";
    let mut env = EnvFile::parse(content).unwrap();
    env.set_header("New header\nLine 2");
    assert_eq!(env.get_header(), Some("New header\nLine 2\n".to_string()));
}

#[test]
fn test_delete_header() {
    let content = "# Header\nKEY=value\n";
    let mut env = EnvFile::parse(content).unwrap();
    env.delete_header();
    assert_eq!(env.get_header(), None);
}

#[test]
fn test_to_string_preserves_format() {
    let content =
        "# Header\n\nKEY1=value1 # comment1\nKEY2=value2\n\n# middle comment\nKEY3=value3\n";
    let env = EnvFile::parse(content).unwrap();
    let output = env.render();
    assert_eq!(output, content);
}

#[test]
fn test_blank_lines_preserved() {
    let content = "KEY1=value1\n\nKEY2=value2\n";
    let env = EnvFile::parse(content).unwrap();
    let output = env.render();
    assert_eq!(output, content);
}

#[test]
fn test_comment_lines_preserved() {
    let content = "KEY1=value1\n# This is a comment\nKEY2=value2\n";
    let env = EnvFile::parse(content).unwrap();
    let output = env.render();
    assert_eq!(output, content);
}

#[test]
fn test_value_with_equals_sign() {
    let content = "KEY=value=with=equals\n";
    let env = EnvFile::parse(content).unwrap();
    assert_eq!(env.get_value("KEY"), Some("value=with=equals"));
}

#[test]
fn test_empty_value() {
    let content = "KEY=\n";
    let env = EnvFile::parse(content).unwrap();
    assert_eq!(env.get_value("KEY"), Some(""));
}

#[test]
fn test_value_with_spaces() {
    let content = "KEY=  value with spaces  \n";
    let env = EnvFile::parse(content).unwrap();
    assert_eq!(env.get_value("KEY"), Some("value with spaces"));
}

#[test]
fn test_key_with_spaces_trimmed() {
    let content = "  KEY  =value\n";
    let env = EnvFile::parse(content).unwrap();
    assert_eq!(env.get_value("KEY"), Some("value"));
}

#[test]
fn test_comment_without_space_after_hash() {
    let content = "KEY=value #comment\n";
    let env = EnvFile::parse(content).unwrap();
    assert_eq!(env.get_comment("KEY"), Some("comment"));
}

#[test]
fn test_invalid_line_after_key_errors() {
    let content = "KEY=value\ninvalid line\n";
    let result = EnvFile::parse(content);
    assert!(result.is_err());
    // The failure names the offending line, after the first key.
    match result.unwrap_err() {
        ParseError::InvalidLine { line } => assert_eq!(line, "invalid line"),
        other => panic!("wrong error variant: {:?}", other),
    }
}

#[test]
fn test_invalid_line_before_key_errors() {
    let content = "# header\ninvalid\nKEY=value\n";
    let result = EnvFile::parse(content);
    assert!(result.is_err());
    // The failure names the offending line, before the first key.
    match result.unwrap_err() {
        ParseError::InvalidHeaderLine { line } => assert_eq!(line, "invalid"),
        other => panic!("wrong error variant: {:?}", other),
    }
}

#[test]
fn test_blank_lines_before_first_key_allowed() {
    let content = "\n\n# header\n\nKEY=value\n";
    let env = EnvFile::parse(content).unwrap();
    assert_eq!(env.get_value("KEY"), Some("value"));
}
