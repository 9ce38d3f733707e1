//! Settings, listing, dry runs, unknown recipes and aliases.
use just::dispatch::{route_for_content, Engine};
use just::v2::ast::Justfile;
use just::v2::environment::{dotenv_candidates, parse_dotenv, Environment};
use just::v2::error::Error;
use just::v2::executor::{list_recipes, Action, Executor, Plan, Step};
use just::v2::parser::parse;

fn unindent(text: &str) -> String {
    let text = text.strip_prefix('\n').unwrap_or(text);
    let indent = text
        .lines()
        .filter(|line| !line.trim().is_empty())
        .map(|line| line.len() - line.trim_start().len())
        .min()
        .unwrap_or(0);
    let mut result = String::new();
    for line in text.lines() {
        if line.len() >= indent {
            result.push_str(&line[indent..]);
        } else {
            result.push_str(line.trim_start());
        }
        result.push('\n');
    }
    result
}

fn argv(args: &[&str]) -> Vec<String> {
    let mut v = vec!["just".to_string()];
    v.extend(args.iter().map(|a| a.to_string()));
    v
}

fn justfile(text: &str, args: &[&str]) -> Justfile {
    let content = unindent(text);
    let route = route_for_content(&argv(args), "justfile".to_string(), &content);
    assert_eq!(route.engine, Engine::V2, "justfile:\n{content}");
    parse(&content).unwrap()
}


/// Whether `path` exists among `files` (paths under `/work`): a file, or a
/// directory holding one.
fn on_disk(files: &[(&str, &str)], path: &str) -> bool {
    files.iter().any(|(f, _)| {
        let full = format!("/work/{f}");
        full == path || full.starts_with(&format!("{path}/"))
    })
}

/// The environment the engine sets up for `jf` run from `wd`, given the
/// process environment and the files on disk, as the command line does it.
fn environment(jf: &Justfile, wd: &str, process: &[(&str, &str)], files: &[(&str, &str)]) -> Environment {
    let vars: Vec<(String, String)> =
        process.iter().map(|(k, v)| (k.to_string(), v.to_string())).collect();
    let mut env = Environment::new(wd.to_string(), vars);
    let existing: Vec<String> =
        dotenv_candidates(wd).into_iter().filter(|c| on_disk(files, c)).collect();
    let entries = match env.dotenv_file(&jf.settings, &existing) {
        Some(path) => files
            .iter()
            .find(|(f, _)| format!("/work/{f}") == path)
            .map(|(_, content)| parse_dotenv(content))
            .unwrap_or_default(),
        None => Vec::new(),
    };
    let probes = env.setup_probes(&jf.settings, &entries);
    let present: Vec<String> = probes.into_iter().filter(|p| on_disk(files, p)).collect();
    env.setup(&jf.settings, &jf.exports, &entries, &present);
    env
}

fn var(env: &Environment, name: &str) -> Option<String> {
    env.get(name).cloned()
}


fn command_texts(p: &Plan) -> Vec<(String, bool, bool)> {
    let mut out = Vec::new();
    for job in &p.jobs {
        if let Action::Lines { steps, .. } = &job.action {
            for s in steps {
                if let Step::Command { text, echo, run, .. } = s {
                    out.push((text.clone(), *echo, *run));
                }
            }
        }
    }
    out
}

#[test]
fn set_next_selects_the_v2_engine() {
    let jf = justfile(
        r#"
        set next

        build:
            FOO=bar
            echo $FOO
        "#,
        &[],
    );
    assert!(jf.settings.next);
    assert_eq!(jf.recipes[0].body.len(), 2);
}

#[test]
fn set_venv_points_at_an_explicit_virtualenv() {
    let jf = justfile(
        r#"
        set next
        set venv = "custom-env"

        build:
            fake-python
        "#,
        &[],
    );
    let env = environment(
        &jf,
        "/work",
        &[("PATH", "/usr/bin")],
        &[("custom-env/bin/activate", ""), ("custom-env/bin/fake-python", ""), (".venv/bin/activate", "")],
    );
    assert_eq!(var(&env, "VIRTUAL_ENV"), Some("/work/custom-env".to_string()));
    assert_eq!(var(&env, "PATH"), Some("/work/custom-env/bin:/usr/bin".to_string()));
}

#[test]
fn set_dotenv_names_a_specific_file() {
    let jf = justfile(
        r#"
        set next
        set dotenv = ".env.production"

        build:
            echo "${VALUE:-unset}"
        "#,
        &[],
    );
    let env = environment(
        &jf,
        "/work",
        &[],
        &[(".env", "VALUE=from-default\n"), (".env.production", "VALUE=from-production\n")],
    );
    assert_eq!(var(&env, "VALUE"), Some("from-production".to_string()));
}

#[test]
fn positional_arguments_are_available_in_recipes() {
    let jf = justfile(
        r#"
        set next
        set positional-arguments

        run NAME:
            printf '%s\n' "$1"
        "#,
        &["run", "hello world"],
    );
    let env = Environment::new("/work".to_string(), Vec::new());
    let p = Executor::new(&jf, &env).run("run", &vec!["hello world".to_string()]);
    assert_eq!(command_texts(&p)[0].0, r#"printf '%s\n' "hello world""#);
}

#[test]
fn listing_recipes_shows_doc_comments() {
    let jf = justfile(
        r#"
        set next

        # Build the project
        build:
            cargo build

        # Run the tests
        test:
            cargo test
        "#,
        &["--list"],
    );
    let lines = list_recipes(&jf);
    assert_eq!(
        lines,
        vec![
            "Available recipes:".to_string(),
            "    build # Build the project".to_string(),
            "    test # Run the tests".to_string(),
        ]
    );
}

#[test]
fn listing_recipes_shows_parameters() {
    let jf = justfile(
        r#"
        set next

        deploy ENV=staging *ARGS:
            echo $ENV
        "#,
        &["--list"],
    );
    let lines = list_recipes(&jf);
    assert_eq!(lines[1], "    deploy ENV='staging' *ARGS");
}

#[test]
fn dry_run_prints_without_executing() {
    let jf = justfile(
        r#"
        set next

        build:
            touch should-not-exist
        "#,
        &["--dry-run"],
    );
    let env = Environment::new("/work".to_string(), Vec::new());
    let p = Executor::new(&jf, &env).dry_run(true).run("build", &Vec::new());
    assert_eq!(command_texts(&p), vec![("touch should-not-exist".to_string(), true, false)]);
}

#[test]
fn dry_run_does_not_create_files() {
    let jf = justfile(
        r#"
        set next

        build:
            FOO=$(touch should-not-exist)
            touch should-not-exist
        "#,
        &["--dry-run"],
    );
    let env = Environment::new("/work".to_string(), Vec::new());
    let p = Executor::new(&jf, &env).dry_run(true).run("build", &Vec::new());
    match &p.jobs[0].action {
        Action::Lines { steps, .. } => {
            assert!(matches!(&steps[0], Step::Assign { evaluate: false, .. }));
            assert!(matches!(&steps[1], Step::Command { run: false, .. }));
        }
        other => panic!("unexpected action {other:?}"),
    }
}

#[test]
fn an_unknown_recipe_is_an_error() {
    let jf = justfile(
        r#"
        set next

        build:
            echo build
        "#,
        &["nonexistent"],
    );
    let env = Environment::new("/work".to_string(), Vec::new());
    let p = Executor::new(&jf, &env).run("nonexistent", &Vec::new());
    assert!(p.jobs.is_empty());
    assert!(matches!(&p.error, Some(Error::RecipeNotFound(n)) if n == "nonexistent"));
}

#[test]
fn an_alias_resolves_to_its_target() {
    let jf = justfile(
        r#"
        set next

        alias b = build

        build:
            FOO=1
            echo built
        "#,
        &["b"],
    );
    let env = Environment::new("/work".to_string(), Vec::new());
    let p = Executor::new(&jf, &env).run("b", &Vec::new());
    assert_eq!(p.jobs.len(), 1);
    assert_eq!(p.jobs[0].recipe, "build");
    assert_eq!(command_texts(&p)[0].0, "echo built");
    assert_eq!(list_recipes(&jf)[4], "    b := build");
}

#[test]
fn a_shebang_recipe_in_a_dry_run_is_printed() {
    let jf = justfile(
        r#"
        set next

        greet NAME *REST:
            #!/bin/sh
            echo $NAME
            export X=1
        "#,
        &["--dry-run"],
    );
    let env = Environment::new("/work".to_string(), Vec::new());
    let args = vec!["it's me".to_string(), "a".to_string(), "b".to_string()];
    let p = Executor::new(&jf, &env).dry_run(true).run("greet", &args);
    match &p.jobs[0].action {
        Action::Script { script, run } => {
            assert!(!*run);
            assert_eq!(
                script,
                "#!/bin/sh\nNAME='it'\\''s me'\nREST='a b'\necho $NAME\nexport X=1\n"
            );
        }
        other => panic!("unexpected action {other:?}"),
    }
}

#[test]
fn a_dry_run_still_reports_an_unknown_recipe() {
    let jf = justfile(
        r#"
        set next

        build:
            echo build
        "#,
        &["nonexistent"],
    );
    let env = Environment::new("/work".to_string(), Vec::new());
    let p = Executor::new(&jf, &env).dry_run(true).run("nonexistent", &Vec::new());
    assert!(p.jobs.is_empty());
    assert!(matches!(&p.error, Some(Error::RecipeNotFound(n)) if n == "nonexistent"));
}

#[test]
fn dependencies_named_by_alias_run_first_in_listed_order() {
    let jf = justfile(
        r#"
        set next

        alias c = compile

        all: lint c test
            echo all

        lint:
            echo lint

        compile:
            echo compile

        test:
            echo test
        "#,
        &["all"],
    );
    let env = Environment::new("/work".to_string(), Vec::new());
    let p = Executor::new(&jf, &env).run("all", &Vec::new());
    assert!(p.error.is_none());
    let names: Vec<&str> = p.jobs.iter().map(|j| j.recipe.as_str()).collect();
    assert_eq!(names, vec!["lint", "compile", "test", "all"]);
}
