use sludge_cicd::package::{sort_by_name, Package};
use sludge_cicd::text::{
    chars_lt, contains, ends_with, find, find_back, range_eq, split_words, to_chars,
    to_lowercase, trim_range, CharClass,
};

fn chars(s: &str) -> Vec<char> {
    s.chars().collect()
}

#[test]
fn to_chars_lists_the_characters() {
    assert_eq!(to_chars("aé\n"), vec!['a', 'é', '\n']);
    assert_eq!(to_chars(""), Vec::<char>::new());
}

#[test]
fn classes_hold_what_std_says() {
    for c in ['\t', '\n', '\u{b}', '\u{c}', '\r', ' ', '\u{85}', '\u{a0}', '\u{1680}', '\u{2000}',
        '\u{200a}', '\u{2028}', '\u{2029}', '\u{202f}', '\u{205f}', '\u{3000}', 'a', '0', '\u{200b}',
        '\u{180e}', '\u{8}', '\u{e}', '\u{feff}', '\u{1f}', '\u{2001}', '\u{200c}']
    {
        assert_eq!(CharClass::Whitespace.contains(c), c.is_whitespace(), "{c:?}");
        assert_eq!(CharClass::AsciiWhitespace.contains(c), c.is_ascii_whitespace(), "{c:?}");
        assert_eq!(CharClass::Alphanumeric.contains(c), c.is_alphanumeric(), "{c:?}");
        assert_eq!(CharClass::Is('a').contains(c), c == 'a');
    }
    assert!(CharClass::Alphanumeric.contains('é'));
    assert!(CharClass::Alphanumeric.contains('٣'));
    assert!(!CharClass::Alphanumeric.contains('-'));
}

#[test]
fn whitespace_matches_std_on_every_character() {
    for c in (0..=0x3100u32).filter_map(char::from_u32) {
        assert_eq!(CharClass::Whitespace.contains(c), c.is_whitespace(), "{c:?}");
    }
}

#[test]
fn find_stops_at_the_first_hit() {
    let v = chars("ab  cd ");
    assert_eq!(find(&v, 0, 7, CharClass::Whitespace, true), 2);
    assert_eq!(find(&v, 2, 7, CharClass::Whitespace, false), 4);
    assert_eq!(find(&v, 4, 6, CharClass::Whitespace, true), 6);
    assert_eq!(find(&v, 0, 7, CharClass::Is('x'), true), 7);
    assert_eq!(find(&v, 3, 3, CharClass::Is('a'), false), 3);
    assert_eq!(find_back(&v, 0, 7, CharClass::Whitespace, false), 6);
    assert_eq!(find_back(&v, 0, 4, CharClass::Whitespace, false), 2);
    assert_eq!(find_back(&v, 0, 7, CharClass::Is('x'), true), 0);
}

#[test]
fn trim_range_matches_trim() {
    for s in ["", " ", "a", " a", "a ", "  a b \n", "\u{a0}x\u{3000}", "\n\n", "\u{200b} "] {
        let v = chars(s);
        let (a, b) = trim_range(&v, 0, v.len());
        let trimmed: String = v[a..b].iter().collect();
        assert_eq!(trimmed, s.trim(), "{s:?}");
    }
    let v = chars("[ a ]");
    assert_eq!(trim_range(&v, 1, 4), (2, 3));
    assert_eq!(trim_range(&v, 1, 2), (2, 2));
}

#[test]
fn searching_matches_std() {
    let cases = [("", ""), ("abc", ""), ("abc", "abc"), ("abc", "bc"), ("abc", "ab"), ("abc", "b"),
        ("abc", "abcd"), ("abc", "ac"), ("aab", "ab"), ("", "a"), ("ababab", "bab")];
    for (s, p) in cases {
        let (v, w) = (chars(s), chars(p));
        assert_eq!(contains(&v, &w), s.contains(p), "{s:?} {p:?}");
        assert_eq!(ends_with(&v, 0, v.len(), &w), s.ends_with(p), "{s:?} {p:?}");
        assert_eq!(range_eq(&v, 0, v.len(), &w), s == p, "{s:?} {p:?}");
    }
    let v = chars("xxabcxx");
    assert!(range_eq(&v, 2, 5, &chars("abc")));
    assert!(ends_with(&v, 0, 5, &chars("bc")));
}

#[test]
fn names_are_ordered_like_strings() {
    let names = ["", "a", "ab", "b", "B", "a-b", "aé", "az", "mylib", "mylib-derive", "é", "\u{10000}"];
    for a in names {
        for b in names {
            assert_eq!(chars_lt(&chars(a), &chars(b)), a < b, "{a:?} {b:?}");
        }
    }
}

#[test]
fn lowercase_touches_ascii_only() {
    let lowered: String = to_lowercase(&chars("AbC-Z09 É[@`{")).iter().collect();
    assert_eq!(lowered, "AbC-Z09 É[@`{".to_ascii_lowercase());
    assert_eq!(lowered, "abc-z09 É[@`{");
}

#[test]
fn words_are_split_at_the_separators() {
    assert_eq!(split_words(" a  b\tc ", CharClass::AsciiWhitespace), vec!["a", "b", "c"]);
    assert_eq!(split_words("a\u{a0}b c", CharClass::AsciiWhitespace), vec!["a\u{a0}b", "c"]);
    assert_eq!(split_words("a\u{a0}b c", CharClass::Whitespace), vec!["a", "b", "c"]);
    assert_eq!(split_words("a,b,,c", CharClass::Is(',')), vec!["a", "b", "c"]);
    assert_eq!(split_words("", CharClass::Whitespace), Vec::<&str>::new());
    assert_eq!(split_words("word", CharClass::Whitespace), vec!["word"]);
}

fn package(name: &str, version: &str) -> Package {
    Package {
        name: name.to_string(),
        version: version.to_string(),
        changelog_path: None,
        release_notes: Some("notes".to_string()),
        manifest: "text".to_string(),
    }
}

#[test]
fn units_are_sorted_by_name() {
    let mut packages = vec![
        package("mylib", "1"),
        package("b", "2"),
        package("mylib-derive", "3"),
        package("a", "4"),
        package("B", "5"),
        package("b", "6"),
    ];
    sort_by_name(&mut packages);
    let shown: Vec<String> = packages.iter().map(|p| p.label()).collect();
    assert_eq!(shown, vec!["B@5", "a@4", "b@2", "b@6", "mylib@1", "mylib-derive@3"]);
    let mut none: Vec<Package> = Vec::new();
    sort_by_name(&mut none);
    assert!(none.is_empty());
}

#[test]
fn a_unit_is_shown_by_name_and_version() {
    let p = package("single-package", "2.2.2");
    assert_eq!(p.label(), "single-package@2.2.2");
    let q = p.clone();
    assert_eq!(q.name, p.name);
    assert_eq!(q.version, p.version);
    assert_eq!(q.release_notes, p.release_notes);
    assert_eq!(q.manifest, p.manifest);
    assert_eq!(q.changelog_path, p.changelog_path);
}
