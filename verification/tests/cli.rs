use just::v2::cli::{folder_arguments, split_folder_recipe};

fn pair(a: &str, b: &str) -> Option<(String, String)> {
    Some((a.to_string(), b.to_string()))
}

#[test]
fn splits_folder_scoped_recipes() {
    assert_eq!(split_folder_recipe(Some("build")), None);
    assert_eq!(split_folder_recipe(None), None);
    assert_eq!(split_folder_recipe(Some("/build")), None);
    assert_eq!(split_folder_recipe(Some("api/build")), pair("api", "build"));
    assert_eq!(split_folder_recipe(Some("api/")), pair("api", ""));
    assert_eq!(split_folder_recipe(Some("crates/api/build")), pair("crates/api", "build"));
    assert_eq!(split_folder_recipe(Some("../api/build")), pair("../api", "build"));
}

#[test]
fn a_trailing_slash_drops_the_folder_argument() {
    let args: Vec<String> = vec!["api/".into(), "x".into()];
    assert_eq!(folder_arguments(&args, ""), vec!["x".to_string()]);
    let args: Vec<String> = vec!["api/build".into(), "x".into()];
    assert_eq!(folder_arguments(&args, "build"), vec!["build".to_string(), "x".to_string()]);
}
