use sludge_cicd::toml::{boolean_token, start_of_section_or_array, Toml, TomlError, Value};
use sludge_cicd::utils::next_line;

fn check_line(mut input: &str, line: Option<&str>, rest: &str) {
    assert_eq!(next_line(&mut input), line);
    assert_eq!(input, rest);
}

#[test]
fn toml_test_next_line() {
    check_line("a\nb", Some("a"), "b");
    check_line("abc", Some("abc"), "");
    check_line("\n", Some(""), "");
    check_line("\nxyz", Some(""), "xyz");
    check_line("", None, "");
}

#[test]
fn test_start_of_section() {
    assert_eq!(start_of_section_or_array("[section]"), Some("section"));
    assert_eq!(start_of_section_or_array("[[array]]"), Some("array"));
    assert_eq!(start_of_section_or_array(" [section]"), Some("section"));
    assert_eq!(start_of_section_or_array(" [[array]]"), Some("array"));
    assert_eq!(
        start_of_section_or_array("[section] # comment"),
        Some("section")
    );
    assert_eq!(
        start_of_section_or_array("[[array]] # comment"),
        Some("array")
    );
    assert_eq!(
        start_of_section_or_array(r#"[bla."*".asd]"#),
        Some(r#"bla."*".asd"#)
    );
}

#[test]
fn toml_test_sections() {
    let toml = Toml(
        r#"
            [[array]]
            a = 0
            [[array]]
            b = 1
            [empty]
            [package]
            version = "1.0.0"  # comment
            [dependencies]
            bla = { version = "*", path = "bla" }
            [target.x86_64-pc-windows-gnu."*".dependencies]
            eof = true
            "#,
    );

    let sections = toml
        .sections()
        .into_iter()
        .map(|(name, toml)| (name, toml.0))
        .collect::<Vec<_>>();
    assert_eq!(
        sections,
        vec![
            ("array", "a = 0"),
            ("array", "b = 1"),
            ("empty", ""),
            ("package", "version = \"1.0.0\"  # comment"),
            ("dependencies", "bla = { version = \"*\", path = \"bla\" }"),
            (
                "target.x86_64-pc-windows-gnu.\"*\".dependencies",
                "eof = true"
            ),
        ]
    );
}

fn field<'a>(text: &'a str, name: &str) -> Result<Option<&'a str>, TomlError> {
    match Toml(text).get_field(name) {
        Ok(Value::Str(s)) => Ok(Some(s)),
        Ok(Value::Bool(_)) => Ok(None),
        Err(e) => Err(e),
    }
}

fn flag(text: &str, name: &str) -> Option<bool> {
    match Toml(text).get_field(name) {
        Ok(Value::Bool(b)) => Some(b),
        _ => None,
    }
}

#[test]
fn get_field_reads_strings() {
    let text = "[package]\nname = \"demo\"\nversion = \"9.9.9\"  # trailing\n";
    assert_eq!(field(text, "name"), Ok(Some("demo")));
    assert_eq!(field(text, "version"), Ok(Some("9.9.9")));
    assert_eq!(field(text, "license"), Err(TomlError::NotFound));
    assert_eq!(field("  \t version   =   \"\"", "version"), Ok(Some("")));
    assert_eq!(field("version=\"1\"", "version"), Err(TomlError::NotFound));
    assert_eq!(field("", "version"), Err(TomlError::NotFound));
}

#[test]
fn get_field_takes_the_first_binding() {
    let text = "version = \"1\"\nversion = \"2\"\n";
    assert_eq!(field(text, "version"), Ok(Some("1")));
    // A binding to something that is no scalar is passed over.
    let text = "version = 7\nversion = \"2\"\n";
    assert_eq!(field(text, "version"), Ok(Some("2")));
    let text = "version = { workspace = true }\r\nversion = \"3\"\r\n";
    assert_eq!(field(text, "version"), Ok(Some("3")));
}

#[test]
fn get_field_reads_booleans() {
    assert_eq!(flag("publish = false", "publish"), Some(false));
    assert_eq!(flag("publish = true", "publish"), Some(true));
    assert_eq!(flag("publish = false# no", "publish"), Some(false));
    assert_eq!(flag("publish = true,", "publish"), Some(true));
    assert_eq!(flag("version.workspace = true", "version.workspace"), Some(true));
    assert_eq!(flag("publish = truest", "publish"), None);
    assert_eq!(flag("publish = falsé", "publish"), None);
    assert_eq!(flag("publish = True", "publish"), None);
    assert_eq!(flag("publish = \"true\"", "publish"), None);
}

#[test]
fn a_string_reaches_to_the_next_quote() {
    assert_eq!(
        field("description = \"hello world\"\n", "description"),
        Ok(Some("hello world"))
    );
    assert_eq!(
        field("description = \"  two  words \" # and a comment", "description"),
        Ok(Some("  two  words "))
    );
    assert_eq!(field("license = \"MIT OR Apache-2.0\"", "license"), Ok(Some("MIT OR Apache-2.0")));
    assert_eq!(field("name = \"a\"b\"", "name"), Ok(Some("a")));
    assert_eq!(field("name = \"a # b\" # c \"d\"", "name"), Ok(Some("a # b")));
    assert_eq!(field("name =\t\"\u{a0}\"\u{a0}", "name"), Ok(Some("\u{a0}")));
    assert_eq!(field("name = x \"y\"", "name"), Err(TomlError::NotFound));
    assert_eq!(field("name =", "name"), Err(TomlError::NotFound));
    assert_eq!(field("name = \u{a0} ", "name"), Err(TomlError::NotFound));
}

#[test]
fn get_field_rejects_unclosed_strings() {
    assert_eq!(
        field("description = \"two words", "description"),
        Err(TomlError::UnclosedString)
    );
    assert_eq!(
        field("description = \"two words\nlicense = \"MIT\"", "description"),
        Err(TomlError::UnclosedString)
    );
    assert_eq!(field("name = \"", "name"), Err(TomlError::UnclosedString));
    assert_eq!(
        field("name = \"x\" # c\nname = \"y", "name"),
        Ok(Some("x"))
    );
    assert_eq!(
        field("name = \"y\nname = \"x\"", "name"),
        Err(TomlError::UnclosedString)
    );
}

#[test]
fn value_as_str() {
    assert_eq!(Value::Str("x").as_str(), Some("x"));
    assert_eq!(Value::Bool(true).as_str(), None);
}

#[test]
fn section_finds_the_first_of_a_name() {
    let toml = Toml("[a]\nx = 1\n[workspace.package]\nversion = \"1.2.3\"\n[a]\ny = 2\n");
    assert_eq!(toml.section("a").map(|t| t.0), Some("x = 1"));
    assert_eq!(
        toml.section("workspace.package").map(|t| t.0),
        Some("version = \"1.2.3\"")
    );
    assert!(toml.section("b").is_none());
}

#[test]
fn header_needs_a_closing_bracket() {
    assert_eq!(start_of_section_or_array("[open"), None);
    assert_eq!(start_of_section_or_array("x [a]"), None);
    assert_eq!(start_of_section_or_array(""), None);
    assert_eq!(start_of_section_or_array("[ spaced ]"), Some("spaced"));
    assert_eq!(start_of_section_or_array("[[[x]]]"), Some("[x"));
    assert_eq!(start_of_section_or_array("\u{a0}[nbsp]\u{3000}"), Some("nbsp"));
}

#[test]
fn a_boolean_is_spelled_true_or_false() {
    let v: Vec<char> = "true false truefalse".chars().collect();
    assert_eq!(boolean_token(&v, 0, 4), Some(true));
    assert_eq!(boolean_token(&v, 5, 10), Some(false));
    assert_eq!(boolean_token(&v, 0, 3), None);
    assert_eq!(boolean_token(&v, 0, 5), None);
    assert_eq!(boolean_token(&v, 11, 20), None);
    assert_eq!(boolean_token(&v, 11, 15), Some(true));
    assert_eq!(boolean_token(&v, 4, 4), None);
    let w: Vec<char> = "True FALSE".chars().collect();
    assert_eq!(boolean_token(&w, 0, 4), None);
    assert_eq!(boolean_token(&w, 5, 10), None);
}
