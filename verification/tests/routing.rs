//! Which engine an invocation runs on.
use just::dispatch::{
    detect_with, is_engine_flag_arg, route_before_search, route_for_content, route_without_justfile,
    uses_only_v2_flags,
    Engine,
};

fn unindent(text: &str) -> String {
    let text = text.strip_prefix('\n').unwrap_or(text);
    let indent = text
        .lines()
        .filter(|line| !line.trim().is_empty())
        .map(|line| line.len() - line.trim_start().len())
        .min()
        .unwrap_or(0);
    let mut result = String::new();
    for line in text.lines() {
        if line.len() >= indent {
            result.push_str(&line[indent..]);
        } else {
            result.push_str(line.trim_start());
        }
        result.push('\n');
    }
    result
}

fn argv(args: &[&str]) -> Vec<String> {
    let mut v = vec!["just".to_string()];
    v.extend(args.iter().map(|a| a.to_string()));
    v
}




fn engine(text: &str, args: &[&str]) -> Engine {
    route_for_content(&argv(args), "justfile".to_string(), &unindent(text)).engine
}

#[test]
fn colon_equals_assignment_routes_to_v1() {
    let text = r#"
        foo := "bar"

        build:
            @echo {{foo}}
        "#;
    assert_eq!(engine(text, &[]), Engine::V1);
}

#[test]
fn builtin_functions_route_to_v1() {
    let text = r#"
        build:
            @echo {{uppercase("hi")}}
        "#;
    assert_eq!(engine(text, &[]), Engine::V1);
}

#[test]
fn attributes_route_to_v1() {
    let text = r#"
        [private]
        hidden:
            @echo hidden

        build:
            @echo built
        "#;
    assert_eq!(engine(text, &["build"]), Engine::V1);
}

#[test]
fn conditionals_route_to_v1() {
    let text = r#"
        foo := if "a" == "a" { "yes" } else { "no" }

        build:
            @echo {{foo}}
        "#;
    assert_eq!(engine(text, &[]), Engine::V1);
}

#[test]
fn backticks_route_to_v1() {
    let text = r#"
        foo := `echo from-backtick`

        build:
            @echo {{foo}}
        "#;
    assert_eq!(engine(text, &[]), Engine::V1);
}

#[test]
fn dependency_arguments_route_to_v1() {
    let text = r#"
        build: (setup "arg")
            @echo build

        setup WHAT:
            @echo {{WHAT}}
        "#;
    assert_eq!(engine(text, &["build"]), Engine::V1);
}

#[test]
fn exported_parameters_route_to_v1() {
    let text = r#"
        wut $FOO='a':
            @echo $FOO
        "#;
    assert_eq!(engine(text, &[]), Engine::V1);
}

#[test]
fn set_export_disarms_the_parameter_signal() {
    let text = r#"
        set export

        foo argument:
            @echo "$argument"
        "#;
    // No dialect signal is left: the fallback decides.
    assert_eq!(detect_with(&unindent(text), Engine::V1), Engine::V1);
    assert_eq!(detect_with(&unindent(text), Engine::V2), Engine::V2);
    let without = "foo argument:\n    @echo \"$argument\"\n";
    assert_eq!(detect_with(without, Engine::V1), Engine::V2);
}

#[test]
fn shebang_bodies_do_not_trigger_v2() {
    let text = r#"
        foo := "v1"

        build:
            #!/bin/sh
            code=42
            echo $code
        "#;
    assert_eq!(engine(text, &[]), Engine::V1);
    let plain = "build:\n    #!/bin/sh\n    code=42\n    echo $code\n";
    assert_eq!(detect_with(plain, Engine::V1), Engine::V1);
}

#[test]
fn shell_control_flow_does_not_trigger_v1() {
    let text = r#"
        deploy TARGET:
            if [ -n "$TARGET" ]; then echo "got $TARGET"; else echo none; fi
        "#;
    assert_eq!(engine(text, &["deploy", "prod"]), Engine::V2);
}

#[test]
fn set_next_forces_v2_despite_v1_syntax() {
    let text = r#"
        set next

        build:
            FOO=bar
            echo $FOO
        "#;
    assert_eq!(engine(text, &[]), Engine::V2);
    assert_eq!(engine("set next\n\nfoo := \"bar\"\n", &["--dump"]), Engine::V2);
}

#[test]
fn the_legacy_flag_forces_v1() {
    let text = r#"
        build:
            FOO=bar
            echo $FOO
        "#;
    assert_eq!(engine(text, &[]), Engine::V2);
    assert_eq!(engine(text, &["--legacy", "--dump"]), Engine::V1);
    let stripped: Vec<bool> = argv(&["--legacy", "--dump"]).iter().map(|a| is_engine_flag_arg(a)).collect();
    assert_eq!(stripped, vec![false, true, false]);
}

#[test]
fn a_signal_free_justfile_gets_the_v2_environment() {
    let text = r#"
        build:
            echo "${VALUE:-unset}"
        "#;
    assert_eq!(engine(text, &[]), Engine::V2);
}

#[test]
fn a_v1_only_flag_routes_an_ambiguous_justfile_to_v1() {
    let text = r#"
        build:
            echo hi
        "#;
    assert_eq!(engine(text, &["--dump"]), Engine::V1);
    assert!(!uses_only_v2_flags(&argv(&["--dump"])));
}

#[test]
fn a_v2_flag_keeps_an_ambiguous_justfile_on_v2() {
    let text = r#"
        build:
            echo "${VALUE:-unset}"
        "#;
    assert_eq!(engine(text, &["--dry-run"]), Engine::V2);
    assert!(uses_only_v2_flags(&argv(&["-f", "--odd-name", "-n", "--", "--dump"])));
    assert!(uses_only_v2_flags(&argv(&["--justfile=x", "-d", "sub", "-l", "build"])));
}

#[test]
fn a_missing_justfile_goes_to_v1_unless_a_folder_is_claimed() {
    assert_eq!(route_without_justfile(false).engine, Engine::V1);
    assert_eq!(route_without_justfile(true).engine, Engine::V2);
    assert_eq!(route_without_justfile(false).justfile, None);
}

#[test]
fn a_justfile_that_names_its_dialect_ignores_other_flags() {
    let v1 = "foo := \"bar\"\n\nbuild:\n    @echo {{foo}}\n";
    assert_eq!(engine(v1, &["--dry-run"]), Engine::V1);
    assert_eq!(engine(v1, &["--dump"]), Engine::V1);
    let v2 = "build:\n    FOO=bar\n    echo $FOO\n";
    assert_eq!(engine(v2, &["--dry-run"]), Engine::V2);
    assert_eq!(engine(v2, &["--dump"]), Engine::V2);
}

#[test]
fn a_body_interpolation_is_a_legacy_signal_even_after_a_v2_signal() {
    assert_eq!(engine("build:\n    FOO=1\n    echo {{FOO}}\n", &[]), Engine::V1);
    assert_eq!(engine("build:\n    #!/bin/sh\n    echo `date`\n", &[]), Engine::V2);
    assert_eq!(engine("build:\n    #!/bin/sh\n    echo {{x}}\n", &[]), Engine::V1);
}

#[test]
fn the_legacy_flag_routes_to_v1_without_a_justfile() {
    let route = route_before_search(&argv(&["--legacy", "build"])).unwrap();
    assert_eq!(route.engine, Engine::V1);
    assert_eq!(route.justfile, None);
    assert!(route_before_search(&argv(&["--next", "build"])).is_none());
    let found = route_for_content(&argv(&["--legacy"]), "justfile".to_string(), "build:\n    true\n");
    assert_eq!(found.engine, Engine::V1);
    assert_eq!(found.justfile, None);
    let next = route_for_content(&argv(&["--next"]), "justfile".to_string(), "x := 1\n");
    assert_eq!(next.engine, Engine::V2);
    assert_eq!(next.justfile, Some("justfile".to_string()));
}
