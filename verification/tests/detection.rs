use just::detection::{detect_style, JustfileStyle};

#[test]
fn test_detect_next_explicit() {
    let content = r#"
set next

build:
    cargo build
"#;
    assert_eq!(detect_style(content), JustfileStyle::Next);
}

#[test]
fn test_detect_legacy_assignment() {
    let content = r#"
foo := "bar"

build:
    echo {{foo}}
"#;
    assert_eq!(detect_style(content), JustfileStyle::Legacy);
}

#[test]
fn test_detect_legacy_function() {
    let content = r#"
build:
    echo {{env_var("HOME")}}
"#;
    assert_eq!(detect_style(content), JustfileStyle::Legacy);
}

#[test]
fn test_detect_next_default() {
    let content = r#"
export PATH="node_modules/.bin:$PATH"

build:
    cargo build
"#;
    assert_eq!(detect_style(content), JustfileStyle::Next);
}
