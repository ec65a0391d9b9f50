use sludge_cicd::utils::next_line;

fn check(mut input: &str, line: Option<&str>, rest: &str) {
    assert_eq!(next_line(&mut input), line);
    assert_eq!(input, rest);
}

#[test]
fn utils_test_next_line() {
    check("a\nb", Some("a"), "b");
    check("abc", Some("abc"), "");
    check("\n", Some(""), "");
    check("\nxyz", Some(""), "xyz");
    check("", None, "");
}

#[test]
fn next_line_keeps_carriage_returns_and_wide_characters() {
    check("a\r\nb", Some("a\r"), "b");
    check("é\nü\n", Some("é"), "ü\n");
    check("\n\n", Some(""), "\n");
}
