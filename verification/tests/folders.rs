//! Running recipes in another folder: `just <folder>/<recipe>`.
use just::dispatch::{route_without_justfile, Engine};
use just::paths::join_path;
use just::search::choose_justfile;
use just::v2::cli::{folder_arguments, recipe_invocation, split_folder_recipe};
use just::v2::environment::{dotenv_candidates, find_dotenv, parse_dotenv, Environment};
use just::v2::error::Error;
use just::v2::executor::{list_recipes, Action, Executor, Plan, Step};
use just::v2::parser::parse;


/// What `just <args>` resolves to for a folder-scoped first argument, given
/// the listing of each directory (relative to `/work`): the folder's
/// directory, its justfile, and the arguments left for the recipe.
fn resolve(args: &[&str], listings: &[(&str, Vec<(String, bool)>)]) -> Result<(String, String, Vec<String>), Error> {
    let arguments: Vec<String> = args.iter().filter(|a| !a.starts_with('-')).map(|a| a.to_string()).collect();
    let (dir, recipe) = split_folder_recipe(arguments.first().map(String::as_str)).unwrap();
    let dir = join_path("/work", &dir);
    let listing = listings
        .iter()
        .find(|(d, _)| join_path("/work", d) == dir)
        .map(|(_, l)| l.clone())
        .unwrap();
    match choose_justfile(&listing) {
        Some(name) => Ok((dir.clone(), join_path(&dir, &name), folder_arguments(&arguments, &recipe))),
        None => Err(Error::NoJustfileInDir(dir)),
    }
}

fn file(name: &str) -> (String, bool) {
    (name.to_string(), true)
}

fn run_folder(args: &[&str], listings: &[(&str, Vec<(String, bool)>)], text: &str) -> (String, Plan) {
    let (dir, path, arguments) = resolve(args, listings).unwrap();
    assert!(path.starts_with(&dir));
    let jf = parse(text).unwrap();
    let env = Environment::new(dir.clone(), Vec::new());
    let (name, rest) = recipe_invocation(&jf, &arguments).unwrap();
    (dir, Executor::new(&jf, &env).run(&name, &rest))
}

fn commands(p: &Plan) -> Vec<String> {
    let mut out = Vec::new();
    for job in &p.jobs {
        if let Action::Lines { steps, .. } = &job.action {
            for s in steps {
                if let Step::Command { text, .. } = s {
                    out.push(text.clone());
                }
            }
        }
    }
    out
}

#[test]
fn a_folder_prefixed_recipe_runs_from_that_folder() {
    let (dir, p) = run_folder(
        &["api/build"],
        &[("api", vec![file("justfile")]), ("", vec![file("justfile")])],
        "build:\n    FOO=api\n    echo $FOO\n",
    );
    assert_eq!(dir, "/work/api");
    assert_eq!(p.jobs[0].recipe, "build");
    assert_eq!(commands(&p), vec!["echo $FOO"]);
}

#[test]
fn nested_folder_paths_work() {
    let (dir, p) = run_folder(
        &["crates/web/serve"],
        &[("crates/web", vec![file("justfile")])],
        "serve:\n    FOO=web\n    echo $FOO\n",
    );
    assert_eq!(dir, "/work/crates/web");
    assert_eq!(p.jobs[0].recipe, "serve");
}

#[test]
fn a_trailing_slash_runs_the_folders_default_recipe() {
    let (_, p) = run_folder(
        &["api/"],
        &[("api", vec![file("justfile")])],
        "first:\n    FOO=1\n    echo first\n\nsecond:\n    echo second\n",
    );
    assert_eq!(p.jobs.len(), 1);
    assert_eq!(p.jobs[0].recipe, "first");
}

#[test]
fn the_recipe_runs_with_the_folder_as_working_directory() {
    let (dir, _) = run_folder(
        &["api/where"],
        &[("api", vec![file("justfile")])],
        "where:\n    FOO=1\n    basename $PWD\n",
    );
    let env = Environment::new(dir, Vec::new());
    assert_eq!(env.working_dir(), "/work/api");
    assert_eq!(env.get("PWD").cloned(), Some("/work/api".to_string()));
}

#[test]
fn relative_paths_resolve_against_the_folder() {
    let (dir, p) = run_folder(
        &["api/read"],
        &[("api", vec![file("justfile"), file("data.txt")])],
        "read:\n    FOO=1\n    cat data.txt\n",
    );
    assert_eq!(dir, "/work/api");
    assert_eq!(commands(&p), vec!["cat data.txt"]);
}

#[test]
fn a_dotenv_file_resolves_against_the_folder() {
    let candidates = dotenv_candidates("/work/api");
    assert_eq!(candidates[0], "/work/api/.env.local");
    assert_eq!(candidates[1], "/work/api/.env");
    let existing = vec!["/work/api/.env".to_string()];
    assert_eq!(find_dotenv("/work/api", &existing), Some("/work/api/.env".to_string()));
    let mut env = Environment::new("/work/api".to_string(), Vec::new());
    let jf = parse("show:\n    FOO=1\n    echo $SECRET\n").unwrap();
    env.setup(&jf.settings, &jf.exports, &parse_dotenv("SECRET=from-api\n"), &Vec::new());
    assert_eq!(env.get("SECRET").cloned(), Some("from-api".to_string()));
}

#[test]
fn listing_a_folders_recipes_works() {
    let (_, path, _) = resolve(&["-l", "api/"], &[("api", vec![file("justfile")])]).unwrap();
    assert_eq!(path, "/work/api/justfile");
    let jf = parse("# Build the API\nbuild:\n    FOO=1\n    echo build\n").unwrap();
    let lines = list_recipes(&jf);
    assert!(lines.iter().any(|l| l.contains("build")));
    assert!(!lines.iter().any(|l| l.contains("root")));
}

#[test]
fn arguments_pass_through_to_a_folder_scoped_recipe() {
    let (_, p) = run_folder(
        &["api/greet", "hello world"],
        &[("api", vec![file("justfile")])],
        "greet NAME:\n    echo $NAME\n",
    );
    assert_eq!(commands(&p), vec!["echo 'hello world'"]);
}

#[test]
fn the_folder_path_does_not_walk_up_to_a_parent() {
    let result = resolve(&["sub/build"], &[("sub", vec![]), ("", vec![file("justfile")])]);
    assert!(matches!(result, Err(Error::NoJustfileInDir(d)) if d == "/work/sub"));
    assert_eq!(route_without_justfile(true).engine, Engine::V2);
}
