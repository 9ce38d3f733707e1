//! Top-level `export NAME=value` and `export` inside recipes.
use just::dispatch::{route_for_content, Engine};
use just::v2::ast::Justfile;
use just::v2::environment::{dotenv_candidates, parse_dotenv, Environment};
use just::v2::executor::{assignment_echo, assignment_script, Action, ExecutionState, Executor, Step};
use just::v2::parser::parse;

fn unindent(text: &str) -> String {
    let text = text.strip_prefix('\n').unwrap_or(text);
    let indent = text
        .lines()
        .filter(|line| !line.trim().is_empty())
        .map(|line| line.len() - line.trim_start().len())
        .min()
        .unwrap_or(0);
    let mut result = String::new();
    for line in text.lines() {
        if line.len() >= indent {
            result.push_str(&line[indent..]);
        } else {
            result.push_str(line.trim_start());
        }
        result.push('\n');
    }
    result
}

fn argv(args: &[&str]) -> Vec<String> {
    let mut v = vec!["just".to_string()];
    v.extend(args.iter().map(|a| a.to_string()));
    v
}

fn justfile(text: &str, args: &[&str]) -> Justfile {
    let content = unindent(text);
    let route = route_for_content(&argv(args), "justfile".to_string(), &content);
    assert_eq!(route.engine, Engine::V2, "justfile:\n{content}");
    parse(&content).unwrap()
}


/// Whether `path` exists among `files` (paths under `/work`): a file, or a
/// directory holding one.
fn on_disk(files: &[(&str, &str)], path: &str) -> bool {
    files.iter().any(|(f, _)| {
        let full = format!("/work/{f}");
        full == path || full.starts_with(&format!("{path}/"))
    })
}

/// The environment the engine sets up for `jf` run from `wd`, given the
/// process environment and the files on disk, as the command line does it.
fn environment(jf: &Justfile, wd: &str, process: &[(&str, &str)], files: &[(&str, &str)]) -> Environment {
    let vars: Vec<(String, String)> =
        process.iter().map(|(k, v)| (k.to_string(), v.to_string())).collect();
    let mut env = Environment::new(wd.to_string(), vars);
    let existing: Vec<String> =
        dotenv_candidates(wd).into_iter().filter(|c| on_disk(files, c)).collect();
    let entries = match env.dotenv_file(&jf.settings, &existing) {
        Some(path) => files
            .iter()
            .find(|(f, _)| format!("/work/{f}") == path)
            .map(|(_, content)| parse_dotenv(content))
            .unwrap_or_default(),
        None => Vec::new(),
    };
    let probes = env.setup_probes(&jf.settings, &entries);
    let present: Vec<String> = probes.into_iter().filter(|p| on_disk(files, p)).collect();
    env.setup(&jf.settings, &jf.exports, &entries, &present);
    env
}

fn var(env: &Environment, name: &str) -> Option<String> {
    env.get(name).cloned()
}


#[test]
fn shell_style_export_sets_an_environment_variable() {
    let jf = justfile(
        r#"
        export FOO="bar"

        build:
            echo $FOO
        "#,
        &[],
    );
    let env = environment(&jf, "/work", &[], &[]);
    assert_eq!(var(&env, "FOO"), Some("bar".to_string()));
}

#[test]
fn export_can_reference_an_existing_environment_variable() {
    let jf = justfile(
        r#"
        export GREETING="hello $NAME"

        build:
            echo $GREETING
        "#,
        &[],
    );
    let env = environment(&jf, "/work", &[("NAME", "world")], &[]);
    assert_eq!(var(&env, "GREETING"), Some("hello world".to_string()));
}

#[test]
fn export_prepends_to_path() {
    let jf = justfile(
        r#"
        export PATH="/injected/bin:$PATH"

        build:
            echo $PATH
        "#,
        &[],
    );
    let env = environment(&jf, "/work", &[("PATH", "/usr/bin")], &[]);
    let path = var(&env, "PATH").unwrap();
    assert!(path.starts_with("/injected/bin:"), "PATH: {path}");
    assert!(path.len() > "/injected/bin:".len(), "PATH: {path}");
}

#[test]
fn multiple_exports_are_all_applied() {
    let jf = justfile(
        r#"
        export ONE="1"
        export TWO="2"

        build:
            echo $ONE$TWO
        "#,
        &[],
    );
    let env = environment(&jf, "/work", &[], &[]);
    assert_eq!(var(&env, "ONE"), Some("1".to_string()));
    assert_eq!(var(&env, "TWO"), Some("2".to_string()));
}

#[test]
fn unquoted_export_values_work() {
    let jf = justfile(
        r#"
        export FOO=bar

        build:
            echo $FOO
        "#,
        &[],
    );
    let env = environment(&jf, "/work", &[], &[]);
    assert_eq!(var(&env, "FOO"), Some("bar".to_string()));
}

fn first_steps(text: &str) -> Vec<Step> {
    let jf = justfile(text, &[]);
    let env = environment(&jf, "/work", &[], &[]);
    let mut p = Executor::new(&jf, &env).run(&jf.recipes[0].name, &Vec::new());
    match p.jobs.remove(0).action {
        Action::Lines { steps, .. } => steps,
        other => panic!("unexpected action {other:?}"),
    }
}

#[test]
fn export_inside_a_recipe_persists_to_later_lines() {
    let s = first_steps(
        r#"
        build:
            export CC=clang
            echo $CC
        "#,
    );
    assert!(matches!(&s[0], Step::Assign { name, value, export: true, .. } if name == "CC" && value == "clang"));
    let env = Environment::new("/work".to_string(), Vec::new());
    let mut state = ExecutionState::new(&env, &Vec::new());
    state.assign("CC".to_string(), "clang".to_string(), true);
    assert!(state.env_vars().contains(&("CC".to_string(), "clang".to_string())));
    assert_eq!(assignment_echo("CC", "clang", true), "export CC=clang");
}

#[test]
fn export_inside_a_recipe_reaches_child_processes() {
    let s = first_steps(
        r#"
        build:
            export CC=clang
            sh -c 'echo $CC'
        "#,
    );
    assert!(matches!(&s[1], Step::Command { text, .. } if text == "sh -c 'echo $CC'"));
    let env = Environment::new("/work".to_string(), Vec::new());
    let mut state = ExecutionState::new(&env, &Vec::new());
    state.assign("CC".to_string(), "clang".to_string(), true);
    // An exported variable outlasts a later plain assignment of the same name.
    state.assign("CC".to_string(), "gcc".to_string(), false);
    assert!(state.env_vars().contains(&("CC".to_string(), "clang".to_string())));
}

#[test]
fn recipe_export_can_reference_an_earlier_assignment() {
    let s = first_steps(
        r#"
        build:
            VERSION=1.2.3
            export TAG="v$VERSION"
            echo $TAG
        "#,
    );
    assert!(matches!(&s[0], Step::Assign { name, value, export: false, .. } if name == "VERSION" && value == "1.2.3"));
    assert!(matches!(&s[1], Step::Assign { name, value, export: true, .. } if name == "TAG" && value == "\"v$VERSION\""));
    assert_eq!(assignment_script("TAG", "\"v$VERSION\""), "TAG=\"v$VERSION\"\nprintf '%s' \"$TAG\"");
}
