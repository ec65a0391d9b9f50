use sludge_cicd::markdown::{start_of_section, Markdown};

fn split(text: &str, level: u8) -> Vec<(&str, &str)> {
    Markdown(text)
        .sections(level)
        .into_iter()
        .map(|(title, body)| (title, body.0))
        .collect()
}

#[test]
fn markdown_test_sections() {
    let markdown = r#"
                # 1
                bla
                ## 2.1
                ## 2.2
                aa
                ## 2.3

                - a
                - b
            "#;
    assert_eq!(
        split(markdown, 2),
        vec![
            ("2.1", ""),
            ("2.2", "aa"),
            ("2.3", "- a\n                - b"),
        ]
    );
    assert_eq!(split(markdown, 3), Vec::<(&str, &str)>::new());
}

#[test]
fn other_levels_stay_in_the_body() {
    let text = "# A\nintro\n## A.1\nx\n### deep\ny\n# B\n## B.1\n";
    assert_eq!(
        split(text, 1),
        vec![("A", "intro\n## A.1\nx\n### deep\ny"), ("B", "## B.1")]
    );
    assert_eq!(
        split(text, 2),
        vec![("A.1", "x\n### deep\ny\n# B"), ("B.1", "")]
    );
    assert_eq!(split(text, 3), vec![("deep", "y\n# B\n## B.1")]);
    assert_eq!(split("", 1), Vec::<(&str, &str)>::new());
    assert_eq!(split("no heading", 1), Vec::<(&str, &str)>::new());
}

#[test]
fn heading_level_is_exact() {
    assert_eq!(start_of_section(2, "## Title "), Some("Title"));
    assert_eq!(start_of_section(2, "  ##Title"), Some("Title"));
    assert_eq!(start_of_section(2, "### Title"), None);
    assert_eq!(start_of_section(2, "# Title"), None);
    assert_eq!(start_of_section(1, "#"), Some(""));
    assert_eq!(start_of_section(0, "Title"), None);
    assert_eq!(start_of_section(0, ""), None);
    assert_eq!(start_of_section(1, "# a # b"), Some("a # b"));
}

#[test]
fn a_body_splits_into_the_sections_inside_it() {
    let text = "intro\n## A\n  \n### a1\nx\n### a2\ny\n\n## B\nplain\n## C\n### c1\nz\n";
    let outer = split(text, 2);
    assert_eq!(
        outer,
        vec![("A", "### a1\nx\n### a2\ny"), ("B", "plain"), ("C", "### c1\nz")]
    );
    // Inside `A`, the last section ends where `A` ends.
    assert_eq!(split(outer[0].1, 3), vec![("a1", "x"), ("a2", "y")]);
    assert_eq!(split(outer[1].1, 3), Vec::<(&str, &str)>::new());
    assert_eq!(split(outer[2].1, 3), vec![("c1", "z")]);
    // In the whole text it runs on to the next heading of its level.
    assert_eq!(
        split(text, 3),
        vec![("a1", "x"), ("a2", "y\n\n## B\nplain\n## C"), ("c1", "z")]
    );
}

#[test]
fn trimming_changes_no_section() {
    let text = " \n\t ## A \nbody\n## B\n \n";
    assert_eq!(split(text, 2), split(text.trim(), 2));
    assert_eq!(split(text, 2), vec![("A", "body"), ("B", "")]);
    assert_eq!(split("  \n ", 2), split("", 2));
}
