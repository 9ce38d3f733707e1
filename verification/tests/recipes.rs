//! Recipe bodies: assignments that persist, environment prefixes, shebang
//! recipes, failures and dependencies.
use just::dispatch::{route_for_content, Engine};
use just::v2::ast::Justfile;
use just::v2::cli::recipe_invocation;
use just::v2::environment::Environment;
use just::v2::executor::{
    assignment_script, Action, ExecutionState, Executor, Plan, Step, StepResult,
};
use just::v2::parser::parse;

fn unindent(text: &str) -> String {
    let text = text.strip_prefix('\n').unwrap_or(text);
    let indent = text
        .lines()
        .filter(|line| !line.trim().is_empty())
        .map(|line| line.len() - line.trim_start().len())
        .min()
        .unwrap_or(0);
    let mut result = String::new();
    for line in text.lines() {
        if line.len() >= indent {
            result.push_str(&line[indent..]);
        } else {
            result.push_str(line.trim_start());
        }
        result.push('\n');
    }
    result
}

fn argv(args: &[&str]) -> Vec<String> {
    let mut v = vec!["just".to_string()];
    v.extend(args.iter().map(|a| a.to_string()));
    v
}

fn justfile(text: &str, args: &[&str]) -> Justfile {
    let content = unindent(text);
    let route = route_for_content(&argv(args), "justfile".to_string(), &content);
    assert_eq!(route.engine, Engine::V2, "justfile:\n{content}");
    parse(&content).unwrap()
}

fn plan(text: &str, args: &[&str]) -> Plan {
    let jf = justfile(text, args);
    let env = Environment::new("/work".to_string(), Vec::new());
    let positional: Vec<String> = args.iter().map(|a| a.to_string()).collect();
    let (name, rest) = recipe_invocation(&jf, &positional).unwrap();
    Executor::new(&jf, &env).run(&name, &rest)
}

fn commands(plan: &Plan) -> Vec<String> {
    assert!(plan.error.is_none(), "unexpected error: {:?}", plan.error);
    let mut out = Vec::new();
    for job in &plan.jobs {
        if let Action::Lines { steps, .. } = &job.action {
            for step in steps {
                if let Step::Command { text, .. } = step {
                    out.push(text.clone());
                }
            }
        }
    }
    out
}


fn job_params(plan: &Plan, job: usize) -> Vec<(String, String)> {
    match &plan.jobs[job].action {
        Action::Lines { params, .. } => params.clone(),
        other => panic!("unexpected action {other:?}"),
    }
}

fn steps(plan: &Plan, job: usize) -> &Vec<Step> {
    match &plan.jobs[job].action {
        Action::Lines { steps, .. } => steps,
        other => panic!("unexpected action {other:?}"),
    }
}

fn is_assign(step: &Step, n: &str, v: &str, exported: bool) -> bool {
    matches!(step, Step::Assign { name, value, export, evaluate: true, echo: true }
        if name == n && value == v && *export == exported)
}

fn is_command(step: &Step, t: &str, ignored: bool) -> bool {
    matches!(step, Step::Command { text, echo: true, run: true, ignore_errors }
        if text == t && *ignore_errors == ignored)
}

/// The environment a later command of a recipe sees once assignments have
/// given the values in `assigned`.
fn env_after(assigned: &[(&str, &str, bool)]) -> Vec<(String, String)> {
    let env = Environment::new("/work".to_string(), Vec::new());
    let mut state = ExecutionState::new(&env, &Vec::new());
    for (name, value, export) in assigned {
        state.assign(name.to_string(), value.to_string(), *export);
    }
    state.env_vars()
}

fn lookup<'a>(vars: &'a [(String, String)], name: &str) -> Option<&'a str> {
    vars.iter().find(|(k, _)| k == name).map(|(_, v)| v.as_str())
}

#[test]
fn an_assignment_persists_to_the_next_line() {
    let p = plan(
        r#"
        build:
            FOO=$(echo bar)
            echo $FOO
        "#,
        &[],
    );
    let s = steps(&p, 0);
    assert!(is_assign(&s[0], "FOO", "$(echo bar)", false));
    assert!(is_command(&s[1], "echo $FOO", false));
    assert_eq!(assignment_script("FOO", "$(echo bar)"), "FOO=$(echo bar)\nprintf '%s' \"$FOO\"");
    assert_eq!(lookup(&env_after(&[("FOO", "bar", false)]), "FOO"), Some("bar"));
}

#[test]
fn a_literal_assignment_persists() {
    let p = plan(
        r#"
        build:
            FOO=bar
            echo $FOO
        "#,
        &[],
    );
    let s = steps(&p, 0);
    assert!(is_assign(&s[0], "FOO", "bar", false));
    assert!(is_command(&s[1], "echo $FOO", false));
    assert_eq!(lookup(&env_after(&[("FOO", "bar", false)]), "FOO"), Some("bar"));
}

#[test]
fn assignments_persist_across_many_lines() {
    let p = plan(
        r#"
        build:
            ONE=1
            TWO=2
            echo $ONE
            echo $TWO
            echo $ONE$TWO
        "#,
        &[],
    );
    let s = steps(&p, 0);
    assert_eq!(s.len(), 5);
    assert!(is_assign(&s[0], "ONE", "1", false));
    assert!(is_assign(&s[1], "TWO", "2", false));
    assert!(is_command(&s[4], "echo $ONE$TWO", false));
    let env = env_after(&[("ONE", "1", false), ("TWO", "2", false)]);
    assert_eq!(lookup(&env, "ONE"), Some("1"));
    assert_eq!(lookup(&env, "TWO"), Some("2"));
}

#[test]
fn a_later_assignment_overwrites_an_earlier_one() {
    let p = plan(
        r#"
        build:
            FOO=first
            FOO=second
            echo $FOO
        "#,
        &[],
    );
    let s = steps(&p, 0);
    assert!(is_assign(&s[0], "FOO", "first", false));
    assert!(is_assign(&s[1], "FOO", "second", false));
    let env = env_after(&[("FOO", "first", false), ("FOO", "second", false)]);
    assert_eq!(lookup(&env, "FOO"), Some("second"));
    assert_eq!(env.iter().filter(|(k, _)| k == "FOO").count(), 1);
}

#[test]
fn an_assignment_can_reference_an_earlier_one() {
    let p = plan(
        r#"
        build:
            NAME=world
            GREETING="hello $NAME"
            echo $GREETING
        "#,
        &[],
    );
    let s = steps(&p, 0);
    assert!(is_assign(&s[1], "GREETING", "\"hello $NAME\"", false));
    assert_eq!(
        assignment_script("GREETING", "\"hello $NAME\""),
        "GREETING=\"hello $NAME\"\nprintf '%s' \"$GREETING\""
    );
    // The shell evaluates it with NAME already in the environment.
    assert_eq!(lookup(&env_after(&[("NAME", "world", false)]), "NAME"), Some("world"));
}

#[test]
fn assignments_reach_child_processes() {
    let p = plan(
        r#"
        build:
            FOO=bar
            sh -c 'echo $FOO'
        "#,
        &[],
    );
    assert!(is_command(&steps(&p, 0)[1], "sh -c 'echo $FOO'", false));
    assert_eq!(lookup(&env_after(&[("FOO", "bar", false)]), "FOO"), Some("bar"));
}

#[test]
fn a_value_may_contain_spaces_when_quoted() {
    let p = plan(
        r#"
        build:
            BAR="x/src y/src"
            sh -c 'echo $BAR'
        "#,
        &[],
    );
    assert!(is_assign(&steps(&p, 0)[0], "BAR", "\"x/src y/src\"", false));
}

#[test]
fn a_command_substitution_may_contain_spaces() {
    let p = plan(
        r#"
        build:
            FOO=$(echo a b)
            echo $FOO
        "#,
        &[],
    );
    assert!(is_assign(&steps(&p, 0)[0], "FOO", "$(echo a b)", false));
}

#[test]
fn several_assignments_on_one_line_all_persist() {
    let p = plan(
        r#"
        build:
            ONE=1 TWO="a b"
            echo $ONE
            sh -c 'echo $TWO'
        "#,
        &[],
    );
    let s = steps(&p, 0);
    assert!(is_assign(&s[0], "ONE", "1", false));
    assert!(is_assign(&s[1], "TWO", "\"a b\"", false));
    assert!(is_command(&s[2], "echo $ONE", false));
}

#[test]
fn an_environment_prefix_runs_the_command() {
    let p = plan(
        r#"
        build:
            FOO=bar ONE="a b" sh -c 'echo "$FOO $ONE"'
        "#,
        &[],
    );
    let s = steps(&p, 0);
    assert_eq!(s.len(), 1);
    assert!(is_command(&s[0], "FOO=bar ONE=\"a b\" sh -c 'echo \"$FOO $ONE\"'", false));
}

#[test]
fn an_environment_prefix_does_not_persist() {
    let p = plan(
        r#"
        build:
            FOO=bar true
            echo "[${FOO:-unset}]"
        "#,
        &[],
    );
    let s = steps(&p, 0);
    assert!(is_command(&s[0], "FOO=bar true", false));
    assert!(is_command(&s[1], "echo \"[${FOO:-unset}]\"", false));
    assert!(!s.iter().any(|step| matches!(step, Step::Assign { .. })));
}

#[test]
fn an_environment_prefix_fails_the_recipe() {
    let p = plan(
        r#"
        build:
            FOO=bar false
            echo unreachable
        "#,
        &[],
    );
    let s = steps(&p, 0);
    assert!(is_command(&s[0], "FOO=bar false", false));
    assert!(is_command(&s[1], "echo unreachable", false));
}

#[test]
fn an_environment_prefix_leaves_stderr_alone() {
    let p = plan(
        r#"
        build:
            FOO=bar sh -c 'echo complaint >&2; exit 1'
        "#,
        &[],
    );
    let s = steps(&p, 0);
    assert_eq!(s.len(), 1);
    assert!(is_command(&s[0], "FOO=bar sh -c 'echo complaint >&2; exit 1'", false));
}

#[test]
fn shebang_recipes_still_run_as_one_script() {
    let p = plan(
        r#"
        set next

        build:
            #!/bin/sh
            FOO=bar
            echo $FOO
        "#,
        &[],
    );
    match &p.jobs[0].action {
        Action::Script { script, run } => {
            assert_eq!(script, "#!/bin/sh\nFOO=bar\necho $FOO\n");
            assert!(*run);
        }
        other => panic!("unexpected action {other:?}"),
    }
}

#[test]
fn a_failing_line_fails_the_recipe() {
    let p = plan(
        r#"
        build:
            FOO=bar
            false
            echo unreachable
        "#,
        &[],
    );
    let s = steps(&p, 0);
    assert!(is_command(&s[1], "false", false));
    assert!(is_command(&s[2], "echo unreachable", false));
}

#[test]
fn a_dash_prefix_ignores_a_failing_line() {
    let p = plan(
        r#"
        build:
            FOO=bar
            -false
            echo $FOO
        "#,
        &[],
    );
    let s = steps(&p, 0);
    assert!(is_command(&s[1], "false", true));
    assert!(is_command(&s[2], "echo $FOO", false));
}

#[test]
fn dependencies_run_before_the_recipe() {
    let p = plan(
        r#"
        build: setup
            echo build

        setup:
            echo setup
        "#,
        &["build"],
    );
    let names: Vec<&str> = p.jobs.iter().map(|j| j.recipe.as_str()).collect();
    assert_eq!(names, vec!["setup", "build"]);
    assert_eq!(commands(&p), vec!["echo setup", "echo build"]);
}

#[test]
fn each_recipe_gets_a_fresh_environment() {
    let p = plan(
        r#"
        build: setup
            echo "[${FOO:-unset}]"

        setup:
            FOO=bar
            echo "[$FOO]"
        "#,
        &["build"],
    );
    assert_eq!(p.jobs[0].recipe, "setup");
    assert!(is_assign(&steps(&p, 0)[0], "FOO", "bar", false));
    // Run the first recipe's steps: FOO is set in its state.
    let env = Environment::new("/work".to_string(), Vec::new());
    let mut first = ExecutionState::new(&env, &job_params(&p, 0));
    for step in steps(&p, 0) {
        let result = match step {
            Step::Assign { .. } => StepResult::Evaluated(0, "bar".to_string()),
            _ => StepResult::Exited(0),
        };
        assert!(first.after_step(step, &result).is_none());
    }
    assert_eq!(lookup(&first.env_vars(), "FOO"), Some("bar"));
    // The second recipe starts from a fresh state, with no FOO in it.
    let second = ExecutionState::new(&env, &job_params(&p, 1));
    assert_eq!(lookup(&second.env_vars(), "FOO"), None);
    assert!(is_command(&steps(&p, 1)[0], "echo \"[${FOO:-unset}]\"", false));
}

#[test]
fn the_first_recipe_is_the_default() {
    let p = plan(
        r#"
        first:
            FOO=1
            echo first

        second:
            echo second
        "#,
        &[],
    );
    assert_eq!(p.jobs.len(), 1);
    assert_eq!(p.jobs[0].recipe, "first");
}

#[test]
fn a_shared_dependency_runs_once() {
    let p = plan(
        r#"
        all: a b
            echo all

        a: common
            echo a

        b: common
            echo b

        common:
            echo common
        "#,
        &["all"],
    );
    let names: Vec<&str> = p.jobs.iter().map(|j| j.recipe.as_str()).collect();
    assert_eq!(names, vec!["common", "a", "b", "all"]);
}

#[test]
fn a_recipe_depending_on_itself_is_circular() {
    let p = plan(
        r#"
        a: b
            echo a

        b: a
            echo b
        "#,
        &["a"],
    );
    assert!(p.jobs.is_empty());
    assert!(matches!(&p.error, Some(just::v2::error::Error::CircularDependency(n)) if n == "a"));
}

#[test]
fn quiet_suppresses_echo_but_not_running() {
    let jf = justfile(
        r#"
        build:
            FOO=bar
            @echo quiet
            echo loud
        "#,
        &["-q"],
    );
    let env = Environment::new("/work".to_string(), Vec::new());
    let p = Executor::new(&jf, &env).quiet(true).run("build", &Vec::new());
    let s = steps(&p, 0);
    assert!(matches!(&s[0], Step::Assign { echo: false, .. }));
    assert!(matches!(&s[1], Step::Command { echo: false, run: true, .. }));
    assert!(matches!(&s[2], Step::Command { echo: false, run: true, .. }));
    let loud = Executor::new(&jf, &env).run("build", &Vec::new());
    let s = steps(&loud, 0);
    assert!(matches!(&s[1], Step::Command { echo: false, .. }));
    assert!(matches!(&s[2], Step::Command { echo: true, .. }));
}
