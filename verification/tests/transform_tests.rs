use tael::transform::apply_transform;
use tael::transform::parse_value_expr;

#[test]
fn transform_lowercase() {
    assert_eq!(apply_transform("Hello World", "lowercase"), "hello world");
}

#[test]
fn transform_uppercase() {
    assert_eq!(apply_transform("Hello World", "uppercase"), "HELLO WORLD");
}

#[test]
fn transform_filename() {
    assert_eq!(apply_transform("/home/user/project/file.rs", "filename"), "file.rs");
    // a path with no final component keeps the value
    assert_eq!(apply_transform("..", "filename"), "..");
}

#[test]
fn transform_unknown_keeps_value() {
    assert_eq!(apply_transform("AsIs", "reverse"), "AsIs");
}

#[test]
fn value_expr_plain_path() {
    let parsed = parse_value_expr("@.message").unwrap();
    assert_eq!(parsed.0, vec!["message".to_string()]);
    assert!(parsed.1.is_none());
}

#[test]
fn value_expr_nested_path_with_transform() {
    let parsed = parse_value_expr("@.workspace.current_dir | filename").unwrap();
    assert_eq!(
        parsed.0,
        vec!["workspace".to_string(), "current_dir".to_string()]
    );
    assert_eq!(parsed.1.as_deref(), Some("filename"));
}

#[test]
fn value_expr_rejects_plain_text() {
    assert!(parse_value_expr("message").is_none());
    assert!(parse_value_expr("@").is_none());
}
