use just::legacy_dotenv::{configures_dotenv, flag_name, has_dotenv_flag, preload_applies, preload_entries};

#[test]
fn dotenv_settings_are_recognised() {
    assert!(configures_dotenv("set dotenv-load\n"));
    assert!(configures_dotenv("set dotenv-load := false\n"));
    assert!(configures_dotenv("  set dotenv-path := 'x'\n"));
    assert!(configures_dotenv("set dotenv-override := true\n"));

    assert!(!configures_dotenv("set export\n"));
    assert!(!configures_dotenv("set shell := ['bash', '-c']\n"));
    assert!(!configures_dotenv("build:\n    echo set dotenv-load\n"));
}

#[test]
fn dotenv_flags_are_recognised() {
    assert_eq!(flag_name("--no-dotenv"), Some("--no-dotenv".to_string()));
    assert_eq!(flag_name("--dotenv-path=x"), Some("--dotenv-path".to_string()));
    assert_eq!(flag_name("-f"), None);
    assert_eq!(flag_name("recipe"), None);
}

#[test]
fn a_dotenv_flag_on_the_command_line_is_found() {
    let args: Vec<String> = vec!["just".into(), "--dotenv-path=.env.test".into(), "build".into()];
    assert!(has_dotenv_flag(&args));
    let plain: Vec<String> = vec!["just".into(), "--dotenv".into(), "build".into()];
    assert!(!has_dotenv_flag(&plain));
}

#[test]
fn preloading_never_overwrites_and_the_first_entry_wins() {
    let entries: Vec<(String, String)> = vec![
        ("HOME".into(), "/x".into()),
        ("A".into(), "1".into()),
        ("A".into(), "2".into()),
        ("B".into(), "3".into()),
    ];
    let set: Vec<String> = vec!["HOME".into()];
    assert_eq!(
        preload_entries(&set, &entries),
        vec![("A".to_string(), "1".to_string()), ("B".to_string(), "3".to_string())]
    );
}

#[test]
fn preloading_applies_only_without_dotenv_flags_or_settings() {
    let plain: Vec<String> = vec!["just".into(), "build".into()];
    let flagged: Vec<String> = vec!["just".into(), "--no-dotenv".into(), "build".into()];
    assert!(preload_applies(&plain, Some("build:\n    true\n")));
    assert!(!preload_applies(&flagged, Some("build:\n    true\n")));
    assert!(!preload_applies(&plain, Some("set dotenv-load\n")));
    assert!(!preload_applies(&plain, None));
}
