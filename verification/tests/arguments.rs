//! Argument quoting and binding, checked on the commands the engine hands to
//! the shell.
use just::dispatch::{route_for_content, Engine};
use just::v2::ast::Justfile;
use just::v2::cli::recipe_invocation;
use just::v2::environment::Environment;
use just::v2::error::Error;
use just::v2::executor::{Action, Executor, Plan, Step};
use just::v2::parser::parse;

fn unindent(text: &str) -> String {
    let text = text.strip_prefix('\n').unwrap_or(text);
    let indent = text
        .lines()
        .filter(|line| !line.trim().is_empty())
        .map(|line| line.len() - line.trim_start().len())
        .min()
        .unwrap_or(0);
    let mut result = String::new();
    for line in text.lines() {
        if line.len() >= indent {
            result.push_str(&line[indent..]);
        } else {
            result.push_str(line.trim_start());
        }
        result.push('\n');
    }
    result
}

fn argv(args: &[&str]) -> Vec<String> {
    let mut v = vec!["just".to_string()];
    v.extend(args.iter().map(|a| a.to_string()));
    v
}

fn justfile(text: &str, args: &[&str]) -> Justfile {
    let content = unindent(text);
    let route = route_for_content(&argv(args), "justfile".to_string(), &content);
    assert_eq!(route.engine, Engine::V2, "justfile:\n{content}");
    parse(&content).unwrap()
}

fn plan(text: &str, args: &[&str]) -> Plan {
    let jf = justfile(text, args);
    let env = Environment::new("/work".to_string(), Vec::new());
    let positional: Vec<String> = args.iter().map(|a| a.to_string()).collect();
    let (name, rest) = recipe_invocation(&jf, &positional).unwrap();
    Executor::new(&jf, &env).run(&name, &rest)
}

fn commands(plan: &Plan) -> Vec<String> {
    assert!(plan.error.is_none(), "unexpected error: {:?}", plan.error);
    let mut out = Vec::new();
    for job in &plan.jobs {
        if let Action::Lines { steps, .. } = &job.action {
            for step in steps {
                if let Step::Command { text, .. } = step {
                    out.push(text.clone());
                }
            }
        }
    }
    out
}

#[test]
fn a_parameter_is_available_as_a_shell_variable() {
    let p = plan(
        r#"
        greet NAME:
            echo $NAME
        "#,
        &["greet", "world"],
    );
    assert_eq!(commands(&p), vec!["echo world"]);
    match &p.jobs[0].action {
        Action::Lines { params, .. } => {
            assert_eq!(params, &vec![("NAME".to_string(), "world".to_string())]);
        }
        other => panic!("unexpected action {other:?}"),
    }
}

#[test]
fn an_argument_containing_spaces_stays_one_argument() {
    let p = plan(
        r#"
        run NAME:
            printf '%s\n' $NAME
        "#,
        &["run", "hello world"],
    );
    assert_eq!(commands(&p), vec![r"printf '%s\n' 'hello world'"]);
}

#[test]
fn variadic_arguments_stay_separate() {
    let p = plan(
        r#"
        run *ARGS:
            printf '%s\n' $ARGS
        "#,
        &["run", "one", "two", "three"],
    );
    assert_eq!(commands(&p), vec![r"printf '%s\n' one two three"]);
}

#[test]
fn variadic_arguments_preserve_internal_spaces() {
    let p = plan(
        r#"
        run *ARGS:
            printf '%s\n' $ARGS
        "#,
        &["run", "hello world", "foo", "bar baz"],
    );
    assert_eq!(commands(&p), vec![r"printf '%s\n' 'hello world' foo 'bar baz'"]);
}

#[test]
fn a_named_parameter_and_a_variadic_combine() {
    let p = plan(
        r#"
        run NAME *ARGS:
            printf '%s\n' $NAME $ARGS
        "#,
        &["run", "first arg", "second arg", "third"],
    );
    assert_eq!(commands(&p), vec![r"printf '%s\n' 'first arg' 'second arg' third"]);
}

#[test]
fn an_empty_variadic_expands_to_nothing() {
    let p = plan(
        r#"
        run *ARGS:
            printf '[%s]\n' "$(printf '%s' $ARGS)"
        "#,
        &["run"],
    );
    assert_eq!(commands(&p), vec![r#"printf '[%s]\n' "$(printf '%s' )""#]);
}

#[test]
fn arguments_with_shell_metacharacters_are_not_interpreted() {
    let p = plan(
        r#"
        run NAME:
            printf '%s\n' $NAME
        "#,
        &["run", "a;b|c&d"],
    );
    assert_eq!(commands(&p), vec![r"printf '%s\n' 'a;b|c&d'"]);
}

#[test]
fn arguments_containing_quotes_survive() {
    let p = plan(
        r#"
        run NAME:
            printf '%s\n' $NAME
        "#,
        &["run", "it's \"quoted\""],
    );
    assert_eq!(commands(&p), vec![r#"printf '%s\n' 'it'\''s "quoted"'"#]);
}

#[test]
fn a_glob_in_an_argument_is_not_expanded() {
    let p = plan(
        r#"
        run NAME:
            printf '%s\n' $NAME
        "#,
        &["run", "*.txt"],
    );
    assert_eq!(commands(&p), vec![r"printf '%s\n' '*.txt'"]);
}

#[test]
fn a_default_value_is_used_when_an_argument_is_omitted() {
    let p = plan(
        r#"
        deploy ENV=staging:
            echo $ENV
        "#,
        &["deploy"],
    );
    assert_eq!(commands(&p), vec!["echo staging"]);
}

#[test]
fn a_default_value_can_be_overridden() {
    let p = plan(
        r#"
        deploy ENV=staging:
            echo $ENV
        "#,
        &["deploy", "production"],
    );
    assert_eq!(commands(&p), vec!["echo production"]);
}

#[test]
fn a_missing_required_argument_is_an_error() {
    let p = plan(
        r#"
        greet NAME:
            echo $NAME
        "#,
        &["greet"],
    );
    assert!(p.jobs.is_empty());
    assert!(matches!(&p.error, Some(Error::MissingArgument(name)) if name == "NAME"));
}

#[test]
fn a_plus_variadic_requires_at_least_one_argument() {
    let p = plan(
        r#"
        run +ARGS:
            printf '%s\n' $ARGS
        "#,
        &["run"],
    );
    assert!(p.jobs.is_empty());
    assert!(matches!(&p.error, Some(Error::MissingArgument(name)) if name == "ARGS"));
}

#[test]
fn a_plus_variadic_accepts_several_arguments() {
    let p = plan(
        r#"
        run +ARGS:
            printf '%s\n' $ARGS
        "#,
        &["run", "one", "two"],
    );
    assert_eq!(commands(&p), vec![r"printf '%s\n' one two"]);
}

#[test]
fn positional_arguments_are_available() {
    let p = plan(
        r#"
        set next

        run NAME:
            printf '%s\n' "$1"
        "#,
        &["run", "hello world"],
    );
    assert_eq!(commands(&p), vec![r#"printf '%s\n' "hello world""#]);
}

#[test]
fn all_positional_arguments_in_quotes_stay_a_list() {
    let p = plan(
        r#"
        set next

        run *ARGS:
            ./program "$@"
        "#,
        &["run", "a b", "c"],
    );
    assert_eq!(commands(&p), vec![r#"./program ""'a b' c"""#]);
}

#[test]
fn shift_drops_positional_arguments() {
    let p = plan(
        r#"
        set next

        run NAME *ARGS:
            shift
            ./program $NAME $@
            shift 5
            echo "[$1]"
        "#,
        &["run", "first", "second third"],
    );
    assert_eq!(
        commands(&p),
        vec!["./program first 'second third'".to_string(), r#"echo "[]""#.to_string()]
    );
    match &p.jobs[0].action {
        Action::Lines { steps, .. } => {
            assert!(matches!(&steps[0], Step::Shift { text, echo: true } if text == "shift"));
            assert!(matches!(&steps[2], Step::Shift { text, .. } if text == "shift 5"));
        }
        other => panic!("unexpected action {other:?}"),
    }
}

#[test]
fn single_quotes_and_escapes_are_left_alone() {
    let p = plan(
        r#"
        greet NAME:
            echo '$NAME' \$NAME ${NAME} ${NAME:-x} $OTHER
        "#,
        &["greet", "a b"],
    );
    assert_eq!(commands(&p), vec![r"echo '$NAME' \$NAME 'a b' ${NAME:-x} $OTHER"]);
}
