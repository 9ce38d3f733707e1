use just::v2::environment::{parse_dotenv_line, parse_dotenv_value, Environment};

#[test]
fn environment_test_expand_value() {
    let mut env = Environment::new("/tmp".to_string(), Vec::new());
    env.set("FOO".to_string(), "bar".to_string());
    env.set("PATH".to_string(), "/usr/bin".to_string());

    assert_eq!(env.expand_value("$FOO"), "bar");
    assert_eq!(env.expand_value("${FOO}"), "bar");
    assert_eq!(env.expand_value("prefix:$PATH"), "prefix:/usr/bin");
    assert_eq!(env.expand_value("$FOO/$PATH"), "bar//usr/bin");
}

fn parse(line: &str) -> Option<(String, String)> {
    parse_dotenv_line(line)
}

fn pair(key: &str, value: &str) -> Option<(String, String)> {
    Some((key.to_string(), value.to_string()))
}

#[test]
fn test_parse_dotenv_line() {
    assert_eq!(parse("URL=http://x.io"), pair("URL", "http://x.io"));
    assert_eq!(parse("URL = http://x.io"), pair("URL", "http://x.io"));
    assert_eq!(parse("  URL=http://x.io  "), pair("URL", "http://x.io"));
    assert_eq!(parse("URL=\"http://x.io\""), pair("URL", "http://x.io"));
    assert_eq!(parse("URL='http://x.io'"), pair("URL", "http://x.io"));

    assert_eq!(parse("URL=\"x\" # comment"), pair("URL", "x"));
    assert_eq!(parse("URL=x # comment"), pair("URL", "x"));
    assert_eq!(parse("URL=http://x.io/#frag"), pair("URL", "http://x.io/#frag"));

    assert_eq!(parse("URL=a=b"), pair("URL", "a=b"));
    assert_eq!(parse("URL=\"a b\""), pair("URL", "a b"));
    assert_eq!(parse("URL=\"unterminated"), pair("URL", "\"unterminated"));
    assert_eq!(parse("EMPTY="), pair("EMPTY", ""));

    assert_eq!(parse(""), None);
    assert_eq!(parse("   "), None);
    assert_eq!(parse("# URL=x"), None);
    assert_eq!(parse("URL"), None);
    assert_eq!(parse("=x"), None);
}

#[test]
fn dotenv_values_unwrap_quotes_and_comments() {
    assert_eq!(parse_dotenv_value("\"a b\" trailing"), "a b");
    assert_eq!(parse_dotenv_value("'x'"), "x");
    assert_eq!(parse_dotenv_value("\"unterminated"), "\"unterminated");
    assert_eq!(parse_dotenv_value("value # note"), "value");
    assert_eq!(parse_dotenv_value("value\t# note"), "value");
    assert_eq!(parse_dotenv_value("http://x.io/#frag"), "http://x.io/#frag");
    assert_eq!(parse_dotenv_value(""), "");
}

#[test]
fn text_without_a_dollar_expands_to_itself() {
    let mut env = Environment::new("/tmp".to_string(), Vec::new());
    env.set("FOO".to_string(), "bar".to_string());
    assert_eq!(env.expand_value("plain FOO text"), "plain FOO text");
    assert_eq!(env.expand_value("$MISSING-x"), "-x");
}
