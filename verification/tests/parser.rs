use just::v2::ast::ParameterKind;
use just::v2::parser::parse;

#[test]
fn parser_test_simple_recipe() {
    let input = r#"
build:
    cargo build
"#;
    let jf = parse(input).unwrap();
    assert_eq!(jf.recipes.len(), 1);
    assert_eq!(jf.recipes[0].name, "build");
}

#[test]
fn parser_test_recipe_with_params() {
    let input = r#"
test NAME *ARGS:
    cargo test $NAME $ARGS
"#;
    let jf = parse(input).unwrap();
    assert_eq!(jf.recipes.len(), 1);
    assert_eq!(jf.recipes[0].parameters.len(), 2);
    assert_eq!(jf.recipes[0].parameters[0].name, "NAME");
    assert_eq!(jf.recipes[0].parameters[1].kind, ParameterKind::Variadic);
}

#[test]
fn parser_test_export() {
    let input = r#"
export PATH="foo:$PATH"

build:
    echo $PATH
"#;
    let jf = parse(input).unwrap();
    assert_eq!(jf.exports.len(), 1);
    assert_eq!(jf.exports[0].name, "PATH");
    assert_eq!(jf.exports[0].value, "foo:$PATH");
}

#[test]
fn parser_test_settings() {
    let input = r#"
set next
set venv = ".venv"

build:
    python -m build
"#;
    let jf = parse(input).unwrap();
    assert!(jf.settings.next);
    assert_eq!(jf.settings.venv, Some(".venv".to_string()));
}

#[test]
fn test_shebang_recipe_with_empty_lines() {
    let input = r#"
run-linux:
    #!/usr/bin/env bash
    set -e
    mkdir -p target

    # Detect architecture
    ARCH=$(uname -m)
    case "$ARCH" in
        arm64|aarch64) TARGET="aarch64-linux-gnu" ;;
        x86_64)        TARGET="x86_64-linux-gnu" ;;
        *)             echo "Unsupported architecture: $ARCH"; exit 1 ;;
    esac

    echo "Building for $TARGET"
"#;
    let jf = parse(input).unwrap();
    assert_eq!(jf.recipes.len(), 1);
    assert_eq!(jf.recipes[0].name, "run-linux");
    assert_eq!(jf.recipes[0].shebang, Some("#!/usr/bin/env bash".to_string()));
    assert!(jf.recipes[0].body.len() >= 6);
}

#[test]
fn test_shebang_detection() {
    let input = r#"
build:
    #!/bin/sh
    echo "hello"
"#;
    let jf = parse(input).unwrap();
    assert_eq!(jf.recipes[0].shebang, Some("#!/bin/sh".to_string()));
    assert_eq!(jf.recipes[0].body.len(), 1);
}

#[test]
fn a_line_the_grammar_does_not_know_is_a_parse_error() {
    let err = parse("set next\n\nfoo := \"bar\"\n").unwrap_err();
    match err {
        just::v2::error::Error::Parse { line, message } => {
            assert_eq!(line, 3);
            assert_eq!(message, "unexpected line: foo := \"bar\"");
        }
        other => panic!("unexpected error {other:?}"),
    }
}

#[test]
fn set_dotenv_false_turns_dotenv_loading_off() {
    let jf = parse("set next\nset dotenv = false\n\nbuild:\n    true\n").unwrap();
    assert!(!jf.settings.dotenv);
    assert_eq!(jf.settings.dotenv_path, None);
    let jf = parse("set dotenv = \".env.production\"\n").unwrap();
    assert!(jf.settings.dotenv);
    assert_eq!(jf.settings.dotenv_path, Some(".env.production".to_string()));
}
