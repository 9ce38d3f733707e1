use just::dispatch::{
    detect, detect_with, header_parameters, line_references_variable, Engine, AMBIGUOUS_DEFAULT,
};

fn assert_engine(content: &str, expected: Engine) {
    assert_eq!(detect(content), expected, "justfile:\n{content}");
}

#[test]
fn set_next_forces_v2() {
    assert_engine("set next\n\nfoo := \"bar\"\n\nbuild:\n    echo {{foo}}\n", Engine::V2);
}

#[test]
fn set_next_after_a_v1_signal_still_forces_v2() {
    assert_engine("x := 1\nset next\n", Engine::V2);
    assert_engine("[private]\nbuild:\n    echo {{x}}\n\nset next\n", Engine::V2);
    assert_eq!(detect_with("x := 1\nset next\n", Engine::V1), Engine::V2);
}

#[test]
fn set_next_inside_a_recipe_body_is_a_shell_command() {
    assert_engine("build:\n    set next\n    echo {{x}}\n", Engine::V1);
}

#[test]
fn v1_signal_after_v2_signal_wins() {
    assert_engine("export NAME=world\n\nbuild:\n    echo {{NAME}}\n", Engine::V1);
    assert_eq!(detect_with("export NAME=world\n\nbuild:\n    echo {{NAME}}\n", Engine::V2), Engine::V1);
}

#[test]
fn v2_signal_without_v1_signal_is_v2() {
    assert_eq!(detect_with("export NAME=world\n\nbuild:\n    echo $NAME\n", Engine::V1), Engine::V2);
}

#[test]
fn colon_equals_is_v1() {
    assert_engine("foo := \"bar\"\n\nbuild:\n    echo {{foo}}\n", Engine::V1);
}

#[test]
fn interpolation_is_v1() {
    assert_engine("build:\n    echo {{env_var(\"HOME\")}}\n", Engine::V1);
}

#[test]
fn attributes_are_v1() {
    assert_engine("[private]\nbuild:\n    cargo build\n", Engine::V1);
}

#[test]
fn backticks_are_v1() {
    assert_engine("build:\n    echo `date`\n", Engine::V1);
}

#[test]
fn imports_and_modules_are_v1() {
    assert_engine("import 'other.just'\n\nbuild:\n    cargo build\n", Engine::V1);
    assert_engine("mod sub\n\nbuild:\n    cargo build\n", Engine::V1);
}

#[test]
fn v1_only_settings_are_v1() {
    assert_engine("set dotenv-load\n\nbuild:\n    cargo build\n", Engine::V1);
    assert_engine("set windows-shell := ['pwsh']\n\nbuild:\n    true\n", Engine::V1);
}

#[test]
fn dependency_arguments_are_v1() {
    assert_engine("build: (setup \"x\")\n    cargo build\n", Engine::V1);
}

#[test]
fn shell_export_is_v2() {
    assert_engine(
        "export PATH=\"node_modules/.bin:$PATH\"\n\nbuild:\n    cargo build\n",
        Engine::V2,
    );
}

#[test]
fn recipe_body_assignment_is_v2() {
    assert_engine("build:\n    FOO=$(echo bar)\n    echo $FOO\n", Engine::V2);
}

#[test]
fn several_assignments_on_one_line_are_v2() {
    assert_engine("build:\n    ONE=1 TWO=2\n    echo $ONE$TWO\n", Engine::V2);
}

#[test]
fn an_environment_prefix_is_not_a_v2_signal() {
    assert_engine("build:\n    FOO=bar cargo build\n", AMBIGUOUS_DEFAULT);
}

#[test]
fn recipe_body_export_is_v2() {
    assert_engine("build:\n    export CC=clang\n    make\n", Engine::V2);
}

#[test]
fn parameter_reference_is_v2() {
    assert_engine("run NAME *ARGS:\n    ./program $NAME $ARGS\n", Engine::V2);
}

#[test]
fn v1_signals_beat_v2_signals() {
    assert_engine("foo := \"bar\"\n\nbuild:\n    FOO=1\n    echo {{foo}}\n", Engine::V1);
}

#[test]
fn plain_justfile_is_ambiguous() {
    assert_engine("build:\n    cargo build\n", AMBIGUOUS_DEFAULT);
    assert_eq!(detect_with("build:\n    cargo build\n", Engine::V2), Engine::V2);
}

#[test]
fn shell_conditionals_are_not_v1_signals() {
    assert_engine(
        "deploy TARGET:\n    if [ -z \"$TARGET\" ]; then\n      echo none\n    else\n      echo $TARGET\n    fi\n",
        Engine::V2,
    );
}

#[test]
fn comments_do_not_signal() {
    assert_engine("# foo := \"bar\"\nbuild:\n    cargo build\n", AMBIGUOUS_DEFAULT);
}

#[test]
fn shebang_body_is_not_misread() {
    assert_engine("build:\n    #!/bin/bash\n    echo hi\n", AMBIGUOUS_DEFAULT);
}

#[test]
fn escaped_dollar_is_not_a_parameter_reference() {
    assert_engine("run NAME:\n    echo $$NAME\n", AMBIGUOUS_DEFAULT);
}

#[test]
fn variable_reference_requires_exact_name() {
    assert!(line_references_variable("echo $FOO", "FOO"));
    assert!(line_references_variable("echo ${FOO}", "FOO"));
    assert!(line_references_variable("echo $FOO/bar", "FOO"));
    assert!(!line_references_variable("echo $FOOBAR", "FOO"));
    assert!(!line_references_variable("echo $BAR", "FOO"));
    assert!(!line_references_variable("echo FOO", "FOO"));
}

#[test]
fn recipe_header_parameters_are_extracted() {
    assert_eq!(
        header_parameters("run NAME *ARGS:"),
        Some(vec!["NAME".to_string(), "ARGS".to_string()])
    );
    assert_eq!(header_parameters("deploy ENV=staging:"), Some(vec!["ENV".to_string()]));
    assert_eq!(header_parameters("build:"), Some(vec![]));
    assert_eq!(header_parameters("    echo hi"), None);
    assert_eq!(header_parameters("export FOO=bar"), None);
}
