use sludge_cicd::package::Package;
use sludge_cicd::publish::{
    already_released, make_collective_tag, make_unit_tag, plan_publish, publish_gate, Gate,
    PublishError, PublishPlan,
};

fn package(name: &str, version: &str, notes: Option<&str>) -> Package {
    Package {
        name: name.to_string(),
        version: version.to_string(),
        changelog_path: None,
        release_notes: notes.map(str::to_string),
        manifest: String::new(),
    }
}

fn tags(tags: &[&str]) -> Vec<String> {
    tags.iter().map(|t| t.to_string()).collect()
}

fn names(plan: &PublishPlan) -> Vec<&str> {
    plan.to_publish.iter().map(|p| p.name.as_str()).collect()
}

fn releases(plan: &PublishPlan) -> Vec<(&str, &str)> {
    plan.releases.iter().map(|r| (r.tag.as_str(), r.notes.as_str())).collect()
}

#[test]
fn tags_are_spelled_with_a_v() {
    assert_eq!(make_collective_tag("1.2.3"), "v1.2.3");
    assert_eq!(make_unit_tag("unit", "1.2.3"), "unit-v1.2.3");
    assert_eq!(make_collective_tag(""), "v");
}

#[test]
fn a_tag_of_either_kind_marks_a_release() {
    let unit = package("unit", "1.0.0", None);
    assert!(!already_released(&unit, &tags(&[])));
    assert!(already_released(&unit, &tags(&["x", "v1.0.0"])));
    assert!(already_released(&unit, &tags(&["unit-v1.0.0"])));
    assert!(!already_released(&unit, &tags(&["other-v1.0.0", "v1.0.00", "1.0.0", "unit-1.0.0"])));
}

#[test]
fn nothing_to_plan_without_units() {
    assert_eq!(
        plan_publish(&Vec::new(), &tags(&["v1"])).map(|_| ()),
        Err(PublishError::NoPackages)
    );
}

#[test]
fn one_tag_for_a_batch_of_one_version() {
    let packages = vec![package("a", "1.0.0", None), package("b", "1.0.0", None)];
    let plan = plan_publish(&packages, &tags(&["v0.9.0", "a-v0.9.9"])).unwrap();
    assert_eq!(names(&plan), vec!["a", "b"]);
    assert!(!plan.separate_tags);
    assert_eq!(plan.tags, vec!["v1.0.0"]);
    assert!(plan.releases.is_empty());
}

#[test]
fn separate_tags_for_mixed_versions() {
    let packages = vec![package("a", "1.0.0", Some("na")), package("b", "2.0.0", None)];
    let plan = plan_publish(&packages, &tags(&[])).unwrap();
    assert!(plan.separate_tags);
    assert_eq!(plan.tags, vec!["a-v1.0.0", "b-v2.0.0"]);
    assert_eq!(releases(&plan), vec![("a-v1.0.0", "na")]);
}

#[test]
fn separate_tags_once_a_tag_ends_in_the_version() {
    let packages = vec![package("a", "1.0.0", None), package("b", "1.0.0", None)];
    let plan = plan_publish(&packages, &tags(&["b-v1.0.0"])).unwrap();
    assert_eq!(names(&plan), vec!["a"]);
    assert!(plan.separate_tags);
    assert_eq!(plan.tags, vec!["a-v1.0.0"]);
    let plan = plan_publish(&packages, &tags(&["unrelated-1.0.0"])).unwrap();
    assert_eq!(names(&plan), vec!["a", "b"]);
    assert!(plan.separate_tags);
    assert_eq!(plan.tags, vec!["a-v1.0.0", "b-v1.0.0"]);
}

#[test]
fn the_batch_decides_on_the_version() {
    // What was released before does not count among the versions.
    let packages = vec![package("a", "1.0.0", None), package("b", "2.0.0", None)];
    let plan = plan_publish(&packages, &tags(&["b-v2.0.0"])).unwrap();
    assert_eq!(names(&plan), vec!["a"]);
    assert!(!plan.separate_tags);
    assert_eq!(plan.tags, vec!["v1.0.0"]);
}

#[test]
fn separate_tags_with_a_changelog_of_its_own() {
    let mut packages = vec![package("a", "1.0.0", Some("na")), package("b", "1.0.0", Some("nb"))];
    packages[1].changelog_path = Some("b/CHANGELOG.md".to_string());
    let plan = plan_publish(&packages, &tags(&[])).unwrap();
    assert!(plan.separate_tags);
    assert_eq!(releases(&plan), vec![("a-v1.0.0", "na"), ("b-v1.0.0", "nb")]);
    let plan = plan_publish(&packages, &tags(&["v1.0.0"])).unwrap();
    assert!(plan.to_publish.is_empty());
    assert!(plan.separate_tags);
    assert!(plan.tags.is_empty() && plan.releases.is_empty());
}

#[test]
fn shared_notes_are_merged() {
    let packages = vec![
        package("a", "1.0.0", Some("same")),
        package("b", "1.0.0", Some("same")),
        package("c", "1.0.0", None),
        package("d", "1.0.0", Some("other")),
        package("e", "1.0.0", Some("same")),
    ];
    let plan = plan_publish(&packages, &tags(&[])).unwrap();
    assert!(!plan.separate_tags);
    assert_eq!(
        releases(&plan),
        vec![(
            "v1.0.0",
            "# a 1.0.0\n\nsame\n\n# d 1.0.0\n\nother\n\n# e 1.0.0\n\nsame\n"
        )]
    );
    let plan = plan_publish(&packages[..3].to_vec(), &tags(&[])).unwrap();
    assert_eq!(releases(&plan), vec![("v1.0.0", "same\n")]);
    let plan = plan_publish(&packages[2..3].to_vec(), &tags(&[])).unwrap();
    assert!(plan.releases.is_empty());
}

#[test]
fn the_gate_asks_for_token_and_branch() {
    assert_eq!(publish_gate(true, "main"), Gate::Open);
    assert_eq!(publish_gate(false, "main"), Gate::NoToken);
    assert_eq!(publish_gate(false, "dev"), Gate::NoToken);
    assert_eq!(publish_gate(true, "dev"), Gate::NotOnMain);
    assert_eq!(publish_gate(true, "main "), Gate::NotOnMain);
    assert_eq!(publish_gate(true, ""), Gate::NotOnMain);
}

#[test]
fn a_shared_release_waits_for_a_token() {
    let packages = vec![package("a", "1.0.0", Some("na")), package("b", "1.0.0", None)];
    let shared = plan_publish(&packages, &tags(&[])).unwrap();
    assert!(!shared.separate_tags);
    assert!(shared.releases_withheld(false));
    assert!(!shared.releases_withheld(true));
    let separate = plan_publish(&packages, &tags(&["b-v1.0.0"])).unwrap();
    assert!(separate.separate_tags);
    assert_eq!(releases(&separate), vec![("a-v1.0.0", "na")]);
    assert!(!separate.releases_withheld(false));
    assert!(!separate.releases_withheld(true));
    let none = plan_publish(&packages[1..].to_vec(), &tags(&[])).unwrap();
    assert!(none.releases.is_empty());
    assert!(!none.releases_withheld(false));
}
