//! Quoting, substitution and numbers, and the environment of a running
//! recipe.
use just::v2::ast::{Parameter, ParameterKind};
use just::v2::environment::Environment;
use just::v2::executor::{
    assignment_value, script_failure, Step, StepResult,
    assignment_echo, bind_exec, parse_number, shell_quote, substitute_exec, Binding, ExecutionState,
};

#[test]
fn executor_test_shell_quote() {
    assert_eq!(shell_quote("simple"), "simple");
    assert_eq!(shell_quote("with space"), "'with space'");
    assert_eq!(shell_quote("it's"), "'it'\\''s'");
}

#[test]
fn safe_characters_stay_bare() {
    assert_eq!(shell_quote("a-b_c.d/e"), "a-b_c.d/e");
    assert_eq!(shell_quote("été"), "été");
    assert_eq!(shell_quote(""), "''");
    assert_eq!(shell_quote("$HOME"), "'$HOME'");
    assert_eq!(shell_quote("a\\b"), "'a\\b'");
}

#[test]
fn bindings_join_and_quote() {
    let many = Binding::Many(vec!["a b".to_string(), "c".to_string()]);
    assert_eq!(many.joined(), "a b c");
    assert_eq!(many.quoted(), "'a b' c");
    let one = Binding::One("x y".to_string());
    assert_eq!(one.joined(), "x y");
    assert_eq!(one.quoted(), "'x y'");
    assert_eq!(Binding::Many(Vec::new()).quoted(), "");
}

fn chars(s: &str) -> Vec<char> {
    s.chars().collect()
}

#[test]
fn numbers_parse_as_usize_does() {
    assert_eq!(parse_number(&chars("0")), Some(0));
    assert_eq!(parse_number(&chars("42")), Some(42));
    assert_eq!(parse_number(&chars("+7")), Some(7));
    assert_eq!(parse_number(&chars("")), None);
    assert_eq!(parse_number(&chars("+")), None);
    assert_eq!(parse_number(&chars("-1")), None);
    assert_eq!(parse_number(&chars("1a")), None);
    assert_eq!(parse_number(&chars("99999999999999999999999")), None);
    assert_eq!(parse_number(&chars(&usize::MAX.to_string())), Some(usize::MAX));
}

#[test]
fn text_without_a_dollar_is_unchanged() {
    let params = vec![("NAME".to_string(), Binding::One("x".to_string()))];
    let text = r#"echo "NAME" 'NAME' \n NAME"#;
    assert_eq!(substitute_exec(text, &params, &Vec::new()), text);
}

#[test]
fn later_bindings_of_a_name_win() {
    let params = vec![
        ("N".to_string(), Binding::One("first".to_string())),
        ("N".to_string(), Binding::One("second".to_string())),
    ];
    assert_eq!(substitute_exec("echo $N", &params, &Vec::new()), "echo second");
}

#[test]
fn positional_references_past_the_end_are_empty() {
    let positional = vec!["one".to_string()];
    assert_eq!(substitute_exec("echo $1 $2 $0", &Vec::new(), &positional), "echo one '' $0");
    assert_eq!(substitute_exec("echo $*", &Vec::new(), &positional), "echo one");
}

#[test]
fn assignment_echo_lines() {
    assert_eq!(assignment_echo("A", "1", false), "A=1");
    assert_eq!(assignment_echo("A", "1", true), "export A=1");
}

#[test]
fn parameters_reach_the_environment_and_assignments_override_them() {
    let env = Environment::new("/work".to_string(), vec![("HOME".to_string(), "/home".to_string())]);
    let params = vec![("NAME".to_string(), "a b".to_string())];
    let mut state = ExecutionState::new(&env, &params);
    let vars = state.env_vars();
    assert!(vars.contains(&("NAME".to_string(), "a b".to_string())));
    assert!(vars.contains(&("HOME".to_string(), "/home".to_string())));
    state.set_var("NAME".to_string(), "c".to_string());
    assert!(state.env_vars().contains(&("NAME".to_string(), "c".to_string())));
    state.export_var("HOME".to_string(), "/elsewhere".to_string());
    assert!(state.env_vars().contains(&("HOME".to_string(), "/elsewhere".to_string())));
}

#[test]
fn parameters_take_arguments_in_order_and_name_the_missing_one() {
    let p = |n: &str| Parameter { name: n.to_string(), kind: ParameterKind::Normal, default: None };
    let params = vec![p("a"), p("b")];
    let args: Vec<String> = vec!["1".into(), "2".into(), "3".into()];
    let bound = bind_exec(&params, &args).unwrap();
    assert_eq!(bound.len(), 2);
    assert!(matches!(&bound[0], (n, Binding::One(v)) if n == "a" && v == "1"));
    assert!(matches!(&bound[1], (n, Binding::One(v)) if n == "b" && v == "2"));
    let short: Vec<String> = vec!["1".into()];
    assert_eq!(bind_exec(&params, &short).unwrap_err(), "b");
}

fn lookup(state: &ExecutionState, name: &str) -> Option<String> {
    state.env_vars().into_iter().find(|(k, _)| k == name).map(|(_, v)| v)
}

#[test]
fn a_failing_command_fails_the_recipe_unless_ignored() {
    let env = Environment::new("/work".to_string(), Vec::new());
    let mut state = ExecutionState::new(&env, &Vec::new());
    let cmd = |ignore: bool| Step::Command { text: "false".into(), echo: false, run: true, ignore_errors: ignore };
    let err = state.after_step(&cmd(false), &StepResult::Exited(3)).unwrap();
    assert!(matches!(err, just::v2::error::Error::RecipeFailed(ref what, 3) if what == "command"));
    assert!(state.after_step(&cmd(true), &StepResult::Exited(3)).is_none());
    assert!(state.after_step(&cmd(false), &StepResult::Exited(0)).is_none());
}

#[test]
fn an_evaluated_assignment_sets_the_output_and_a_failed_one_fails() {
    let env = Environment::new("/work".to_string(), Vec::new());
    let mut state = ExecutionState::new(&env, &Vec::new());
    let assign = Step::Assign { name: "X".into(), value: "$(echo hi)".into(), export: false, evaluate: true, echo: true };
    let ok = StepResult::Evaluated(0, "hi".into());
    assert_eq!(assignment_value(&assign, &ok), Some("hi".to_string()));
    assert!(state.after_step(&assign, &ok).is_none());
    assert_eq!(lookup(&state, "X"), Some("hi".to_string()));
    let err = state.after_step(&assign, &StepResult::Evaluated(2, String::new())).unwrap();
    assert!(matches!(err, just::v2::error::Error::RecipeFailed(ref what, 2) if what == "expression"));
    assert_eq!(lookup(&state, "X"), Some("hi".to_string()));
    let dry = Step::Assign { name: "Y".into(), value: "raw".into(), export: false, evaluate: false, echo: true };
    assert!(state.after_step(&dry, &StepResult::NotRun).is_none());
    assert_eq!(lookup(&state, "Y"), Some("raw".to_string()));
}

#[test]
fn a_failing_script_fails_its_recipe() {
    assert!(matches!(script_failure("build", true, 4), Some(just::v2::error::Error::RecipeFailed(ref r, 4)) if r == "build"));
    assert!(script_failure("build", true, 0).is_none());
    assert!(script_failure("build", false, 4).is_none());
}

#[test]
fn each_recipe_state_starts_without_assigned_variables() {
    let env = Environment::new("/work".to_string(), vec![("HOME".to_string(), "/h".to_string())]);
    let state = ExecutionState::new(&env, &vec![("name".to_string(), "v".to_string())]);
    assert_eq!(lookup(&state, "HOME"), Some("/h".to_string()));
    assert_eq!(lookup(&state, "name"), Some("v".to_string()));
    assert_eq!(lookup(&state, "X"), None);
}
