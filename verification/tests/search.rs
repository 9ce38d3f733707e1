use just::search::{choose_justfile, is_justfile_name, justfile_from};

#[test]
fn recognizes_case_variants() {
    assert!(is_justfile_name("justfile"));
    assert!(is_justfile_name("Justfile"));
    assert!(is_justfile_name("JUSTFILE"));
    assert!(is_justfile_name(".justfile"));
    assert!(!is_justfile_name("justfile.md"));
    assert!(!is_justfile_name("notajustfile"));
}

fn entry(name: &str, is_file: bool) -> (String, bool) {
    (name.to_string(), is_file)
}

#[test]
fn finds_justfile_in_directory() {
    let entries = vec![entry("justfile", true)];
    assert_eq!(choose_justfile(&entries), Some("justfile".to_string()));
}

#[test]
fn does_not_walk_up_from_justfile_in() {
    // The nested directory is empty; its parent holds the justfile.
    let nested: Vec<(String, bool)> = Vec::new();
    let parent = vec![entry("nested", false), entry("justfile", true)];
    assert_eq!(choose_justfile(&nested), None);
    assert_eq!(justfile_from(&vec![nested, parent]), Some((1, "justfile".to_string())));
}

#[test]
fn returns_none_when_absent() {
    assert_eq!(choose_justfile(&Vec::new()), None);
}

#[test]
fn the_first_name_in_sort_order_wins() {
    let entries = vec![entry("justfile", true), entry("Justfile", true), entry(".justfile", true)];
    assert_eq!(choose_justfile(&entries), Some(".justfile".to_string()));
}

#[test]
fn a_directory_named_justfile_is_skipped() {
    let entries = vec![entry("Justfile", false), entry("justfile", true)];
    assert_eq!(choose_justfile(&entries), Some("justfile".to_string()));
    assert_eq!(choose_justfile(&vec![entry("justfile", false)]), None);
}

#[test]
fn the_nearest_directory_with_a_justfile_wins() {
    let file = |n: &str| (n.to_string(), true);
    let start = vec![file("README.md")];
    let middle = vec![file("Justfile"), file(".justfile")];
    let top = vec![file("justfile")];
    assert_eq!(justfile_from(&vec![start.clone(), middle, top.clone()]), Some((1, ".justfile".to_string())));
    assert_eq!(justfile_from(&vec![start.clone(), start]), None);
    assert_eq!(justfile_from(&vec![top]), Some((0, "justfile".to_string())));
}
