//! Automatic environment setup: `.env` files, `node_modules/.bin`, cargo's
//! debug directory and virtualenvs.
use just::dispatch::{route_for_content, Engine};
use just::v2::ast::Justfile;
use just::v2::environment::{dotenv_candidates, parse_dotenv, Environment};
use just::v2::parser::parse;

fn unindent(text: &str) -> String {
    let text = text.strip_prefix('\n').unwrap_or(text);
    let indent = text
        .lines()
        .filter(|line| !line.trim().is_empty())
        .map(|line| line.len() - line.trim_start().len())
        .min()
        .unwrap_or(0);
    let mut result = String::new();
    for line in text.lines() {
        if line.len() >= indent {
            result.push_str(&line[indent..]);
        } else {
            result.push_str(line.trim_start());
        }
        result.push('\n');
    }
    result
}

fn argv(args: &[&str]) -> Vec<String> {
    let mut v = vec!["just".to_string()];
    v.extend(args.iter().map(|a| a.to_string()));
    v
}

fn justfile(text: &str, args: &[&str]) -> Justfile {
    let content = unindent(text);
    let route = route_for_content(&argv(args), "justfile".to_string(), &content);
    assert_eq!(route.engine, Engine::V2, "justfile:\n{content}");
    parse(&content).unwrap()
}


/// Whether `path` exists among `files` (paths under `/work`): a file, or a
/// directory holding one.
fn on_disk(files: &[(&str, &str)], path: &str) -> bool {
    files.iter().any(|(f, _)| {
        let full = format!("/work/{f}");
        full == path || full.starts_with(&format!("{path}/"))
    })
}

/// The environment the engine sets up for `jf` run from `wd`, given the
/// process environment and the files on disk, as the command line does it.
fn environment(jf: &Justfile, wd: &str, process: &[(&str, &str)], files: &[(&str, &str)]) -> Environment {
    let vars: Vec<(String, String)> =
        process.iter().map(|(k, v)| (k.to_string(), v.to_string())).collect();
    let mut env = Environment::new(wd.to_string(), vars);
    let existing: Vec<String> =
        dotenv_candidates(wd).into_iter().filter(|c| on_disk(files, c)).collect();
    let entries = match env.dotenv_file(&jf.settings, &existing) {
        Some(path) => files
            .iter()
            .find(|(f, _)| format!("/work/{f}") == path)
            .map(|(_, content)| parse_dotenv(content))
            .unwrap_or_default(),
        None => Vec::new(),
    };
    let probes = env.setup_probes(&jf.settings, &entries);
    let present: Vec<String> = probes.into_iter().filter(|p| on_disk(files, p)).collect();
    env.setup(&jf.settings, &jf.exports, &entries, &present);
    env
}

fn var(env: &Environment, name: &str) -> Option<String> {
    env.get(name).cloned()
}


const SHOW: &str = "show:\n    FOO=1\n    echo \"${VALUE:-unset}\"\n";

fn show_env(process: &[(&str, &str)], files: &[(&str, &str)]) -> Environment {
    environment(&justfile(SHOW, &[]), "/work", process, files)
}

#[test]
fn a_dotenv_file_is_loaded_automatically() {
    let env = show_env(&[], &[(".env", "VALUE=from-dotenv\n")]);
    assert_eq!(var(&env, "VALUE"), Some("from-dotenv".to_string()));
}

#[test]
fn dotenv_local_takes_precedence_over_dotenv() {
    let env = show_env(&[], &[(".env", "VALUE=from-dotenv\n"), (".env.local", "VALUE=from-local\n")]);
    assert_eq!(var(&env, "VALUE"), Some("from-local".to_string()));
}

#[test]
fn a_real_environment_variable_beats_a_dotenv_file() {
    let env = show_env(&[("VALUE", "from-environment")], &[(".env", "VALUE=from-dotenv\n")]);
    assert_eq!(var(&env, "VALUE"), Some("from-environment".to_string()));
}

#[test]
fn dotenv_comments_and_blank_lines_are_skipped() {
    let env = show_env(&[], &[(".env", "# a comment\n\nVALUE=from-dotenv\n")]);
    assert_eq!(var(&env, "VALUE"), Some("from-dotenv".to_string()));
}

#[test]
fn dotenv_values_may_be_quoted() {
    let env = show_env(&[], &[(".env", "VALUE=\"quoted value\"\n")]);
    assert_eq!(var(&env, "VALUE"), Some("quoted value".to_string()));
}

#[test]
fn a_dotenv_file_is_found_in_a_parent_directory() {
    let jf = justfile(SHOW, &[]);
    let env = environment(&jf, "/work/sub", &[], &[("sub/justfile", SHOW), (".env", "VALUE=from-parent\n")]);
    assert_eq!(var(&env, "VALUE"), Some("from-parent".to_string()));
}

#[test]
fn node_modules_bin_is_added_to_path() {
    let jf = justfile("show:\n    FOO=1\n    fake-tool\n", &[]);
    let env = environment(&jf, "/work", &[("PATH", "/usr/bin")], &[("node_modules/.bin/fake-tool", "")]);
    assert_eq!(var(&env, "PATH"), Some("/work/node_modules/.bin:/usr/bin".to_string()));
}

#[test]
fn node_modules_bin_is_absent_when_the_directory_does_not_exist() {
    let jf = justfile("show:\n    FOO=1\n    echo $PATH\n", &[]);
    let env = environment(&jf, "/work", &[("PATH", "/usr/bin")], &[]);
    let path = var(&env, "PATH").unwrap();
    assert!(!path.contains("node_modules"), "PATH should not mention node_modules: {path}");
}

#[test]
fn cargo_target_debug_is_added_to_path() {
    let jf = justfile("show:\n    FOO=1\n    fake-binary\n", &[]);
    let env = environment(&jf, "/work", &[("PATH", "/usr/bin")], &[("target/debug/fake-binary", "")]);
    assert_eq!(var(&env, "PATH"), Some("/usr/bin:/work/target/debug".to_string()));
}

#[test]
fn cargo_target_dir_is_respected() {
    let jf = justfile("show:\n    FOO=1\n    fake-binary\n", &[]);
    let env = environment(
        &jf,
        "/work",
        &[("PATH", "/usr/bin"), ("CARGO_TARGET_DIR", "/work/custom-target")],
        &[("custom-target/debug/fake-binary", "")],
    );
    assert_eq!(var(&env, "PATH"), Some("/usr/bin:/work/custom-target/debug".to_string()));
}

#[test]
fn a_virtualenv_is_activated_automatically() {
    let jf = justfile("show:\n    FOO=1\n    echo \"${VIRTUAL_ENV:-unset}\"\n", &[]);
    let env = environment(&jf, "/work", &[("PYTHONHOME", "/x")], &[(".venv/bin/activate", "")]);
    let virtual_env = var(&env, "VIRTUAL_ENV").unwrap();
    assert!(virtual_env.ends_with(".venv"), "VIRTUAL_ENV: {virtual_env}");
    assert_eq!(var(&env, "PYTHONHOME"), None);
}

#[test]
fn a_virtualenv_bin_directory_is_added_to_path() {
    let jf = justfile("show:\n    FOO=1\n    fake-python\n", &[]);
    let env = environment(
        &jf,
        "/work",
        &[("PATH", "/usr/bin")],
        &[(".venv/bin/activate", ""), (".venv/bin/fake-python", "")],
    );
    assert_eq!(var(&env, "PATH"), Some("/work/.venv/bin:/usr/bin".to_string()));
}

#[test]
fn a_venv_directory_is_detected() {
    let jf = justfile("show:\n    FOO=1\n    fake-python\n", &[]);
    let env = environment(
        &jf,
        "/work",
        &[("PATH", "/usr/bin")],
        &[("venv/bin/activate", ""), ("venv/bin/fake-python", "")],
    );
    assert_eq!(var(&env, "VIRTUAL_ENV"), Some("/work/venv".to_string()));
    assert_eq!(var(&env, "PATH"), Some("/work/venv/bin:/usr/bin".to_string()));
}

#[test]
fn a_uv_venv_directory_is_detected() {
    let jf = justfile("show:\n    FOO=1\n    fake-python\n", &[]);
    let env = environment(
        &jf,
        "/work",
        &[("PATH", "/usr/bin")],
        &[(".uv/venv/bin/activate", ""), (".uv/venv/bin/fake-python", "")],
    );
    assert_eq!(var(&env, "VIRTUAL_ENV"), Some("/work/.uv/venv".to_string()));
    assert_eq!(var(&env, "PATH"), Some("/work/.uv/venv/bin:/usr/bin".to_string()));
}

#[test]
fn the_working_directory_replaces_pwd_and_drops_oldpwd() {
    let env = Environment::new("/work".to_string(), vec![
        ("PWD".to_string(), "/elsewhere".to_string()),
        ("OLDPWD".to_string(), "/before".to_string()),
    ]);
    assert_eq!(var(&env, "PWD"), Some("/work".to_string()));
    assert_eq!(var(&env, "OLDPWD"), None);
    assert_eq!(env.working_dir(), "/work");
}

#[test]
fn a_dotenv_entry_never_overrides_an_existing_variable() {
    let mut env = Environment::new("/work".to_string(), vec![("A".to_string(), "1".to_string())]);
    let jf = parse("show:\n    FOO=1\n").unwrap();
    env.setup(&jf.settings, &jf.exports, &parse_dotenv("A=2\nB=3\nB=4\n"), &Vec::new());
    assert_eq!(var(&env, "A"), Some("1".to_string()));
    assert_eq!(var(&env, "B"), Some("3".to_string()));
}

#[test]
fn a_windows_virtualenv_puts_its_scripts_directory_on_path() {
    let jf = justfile("show:\n    FOO=1\n    fake-python\n", &[]);
    let files: &[(&str, &str)] = &[(".venv/Scripts/activate", ""), (".venv/Scripts/python", "")];
    let mut env = Environment::new("/work".to_string(), vec![("PATH".to_string(), "/usr/bin".to_string())]);
    env.set_windows(true);
    let probes = env.setup_probes(&jf.settings, &Vec::new());
    let present: Vec<String> = probes.into_iter().filter(|p| on_disk(files, p)).collect();
    env.setup(&jf.settings, &jf.exports, &Vec::new(), &present);
    assert_eq!(var(&env, "PATH"), Some("/work/.venv/Scripts:/usr/bin".to_string()));
    assert_eq!(var(&env, "VIRTUAL_ENV"), Some("/work/.venv".to_string()));
}
