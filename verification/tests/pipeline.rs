use sludge_cicd::package::Package;
use sludge_cicd::pipeline::{
    check_manifests, check_metadata, check_repository, command_words, parse_tags, plan_test,
    publish_command,
    release_command, tag_command, MetadataError, MetadataFailure, RepoError, Stage,
};

fn shown(check_only: bool, skip_docs: bool, sudo: bool) -> Vec<(Stage, String, bool)> {
    plan_test(check_only, skip_docs, sudo, "--all-features", "--no-deps")
        .into_iter()
        .map(|s| (s.stage, s.command, s.sudo))
        .collect()
}

#[test]
fn the_workspace_is_built_documented_and_tested() {
    assert_eq!(
        shown(false, false, false),
        vec![
            (Stage::Build, "cargo test --workspace --no-run --all-features".to_string(), false),
            (Stage::BuildDocs, "cargo doc --workspace --no-deps".to_string(), false),
            (Stage::Test, "cargo test --workspace --all-features".to_string(), false),
        ]
    );
    assert_eq!(
        shown(false, true, true),
        vec![
            (Stage::Build, "cargo test --workspace --no-run --all-features".to_string(), false),
            (Stage::Test, "cargo test --workspace --all-features".to_string(), true),
        ]
    );
}

#[test]
fn a_check_only_run_tests_nothing() {
    assert_eq!(
        shown(true, false, true),
        vec![
            (Stage::Check, "cargo check --workspace --all-features".to_string(), false),
            (Stage::BuildDocs, "cargo doc --workspace --no-deps".to_string(), false),
        ]
    );
    assert_eq!(
        shown(true, true, false),
        vec![(Stage::Check, "cargo check --workspace --all-features".to_string(), false)]
    );
}

#[test]
fn the_repository_has_to_be_untouched() {
    assert_eq!(check_repository("", "abc\n", "abc"), Ok(()));
    assert_eq!(check_repository(" \n\t", "  abc  ", "abc"), Ok(()));
    assert_eq!(check_repository("?? new.txt\n", "abc", "abc"), Err(RepoError::Dirty));
    assert_eq!(check_repository(" M lib.rs", "def", "abc"), Err(RepoError::Dirty));
    assert_eq!(check_repository("", "def", "abc"), Err(RepoError::WrongCommit));
    assert_eq!(check_repository("", "abc", "abc "), Err(RepoError::WrongCommit));
    assert_eq!(check_repository("", "", ""), Ok(()));
}

#[test]
fn a_unit_declares_description_and_license() {
    assert_eq!(check_metadata("description = \"d\"\nlicense = \"MIT\"\n"), Ok(()));
    assert_eq!(
        check_metadata("description.workspace = true\nlicense.workspace = true\n"),
        Ok(())
    );
    assert_eq!(check_metadata("license = \"MIT\"\n"), Err(MetadataError::MissingDescription));
    assert_eq!(check_metadata("description = \"d\"\n"), Err(MetadataError::MissingLicense));
    assert_eq!(check_metadata(""), Err(MetadataError::MissingDescription));
    assert_eq!(
        check_metadata("description = \"two words\"\nlicense = \"MIT OR Apache-2.0\"\n"),
        Ok(())
    );
    assert_eq!(
        check_metadata("description = \"two words\nlicense = \"MIT\"\n"),
        Err(MetadataError::UnclosedString)
    );
    assert_eq!(
        check_metadata("description = \"d\"\nlicense-file = \"L\"\nlicense.workspace = \"MIT OR\n"),
        Err(MetadataError::UnclosedString)
    );
}

fn package(name: &str, manifest: &str) -> Package {
    Package {
        name: name.to_string(),
        version: "1".to_string(),
        changelog_path: None,
        release_notes: None,
        manifest: manifest.to_string(),
    }
}

#[test]
fn the_first_unit_that_lacks_something_is_reported() {
    let good = "description = \"d\"\nlicense = \"MIT\"\n";
    let packages = vec![
        package("a", good),
        package("b", "description = \"d\"\n"),
        package("c", ""),
    ];
    assert_eq!(
        check_manifests(&packages),
        Err(MetadataFailure { unit: 1, error: MetadataError::MissingLicense })
    );
    assert_eq!(check_manifests(&packages[..1].to_vec()), Ok(()));
    assert_eq!(check_manifests(&Vec::new()), Ok(()));
}

#[test]
fn tags_are_the_words_of_the_listing() {
    assert_eq!(parse_tags("v1.0.0\nunit-v2.0.0\n"), vec!["v1.0.0", "unit-v2.0.0"]);
    assert_eq!(parse_tags("  a \t b\u{a0}c\r\n\n d  "), vec!["a", "b", "c", "d"]);
    assert_eq!(parse_tags(""), Vec::<String>::new());
    assert_eq!(parse_tags(" \n "), Vec::<String>::new());
}

#[test]
fn commands_are_spelled_out() {
    assert_eq!(
        publish_command("unit", "secret"),
        "cargo publish --no-verify -p unit --token secret"
    );
    assert_eq!(tag_command("v1.0.0"), "git tag v1.0.0");
    assert_eq!(
        release_command("unit-v1.0.0"),
        "gh release create unit-v1.0.0 --notes-file -"
    );
}

#[test]
fn a_command_line_is_a_program_and_its_arguments() {
    assert_eq!(
        command_words("  cargo test\t--workspace  --no-run "),
        vec!["cargo", "test", "--workspace", "--no-run"]
    );
    assert_eq!(command_words("git tag \u{a0} v1"), vec!["git", "tag", "v1"]);
    assert_eq!(command_words("a\u{a0}b"), vec!["a\u{a0}b"]);
    assert_eq!(command_words(" \n "), Vec::<&str>::new());
}
