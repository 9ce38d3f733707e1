//! The indentation helper the other test files build justfiles with.
use just::v2::parser::parse;

fn unindent(text: &str) -> String {
    let text = text.strip_prefix('\n').unwrap_or(text);
    let indent = text
        .lines()
        .filter(|line| !line.trim().is_empty())
        .map(|line| line.len() - line.trim_start().len())
        .min()
        .unwrap_or(0);
    let mut result = String::new();
    for line in text.lines() {
        if line.len() >= indent {
            result.push_str(&line[indent..]);
        } else {
            result.push_str(line.trim_start());
        }
        result.push('\n');
    }
    result
}


#[test]
fn unindent_strips_common_leading_whitespace() {
    assert_eq!(unindent("\n  foo:\n    bar\n"), "foo:\n  bar\n");
    assert_eq!(unindent("foo\n"), "foo\n");
    assert_eq!(unindent("\n    a\n\n    b\n"), "a\n\nb\n");
}

#[test]
fn an_unindented_justfile_parses() {
    let jf = parse(&unindent("\n    build:\n        cargo build\n")).unwrap();
    assert_eq!(jf.recipes[0].name, "build");
    assert_eq!(jf.recipes[0].body.len(), 1);
}
