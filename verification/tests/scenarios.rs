use sludge_cicd::notes::{extract_release_notes, NotesError};
use sludge_cicd::package::Package;
use sludge_cicd::pipeline::{check_manifests, parse_tags, plan_test, MetadataError, Stage};
use sludge_cicd::publish::{plan_publish, publish_gate, Gate, PublishPlan};
use sludge_cicd::workspace::{is_excluded, Directory, ScanError, Workspace};

const EXCLUDED: &str = "sludge-cicd-test-projects";

/// A directory tree held in memory: every directory with its files.
struct Tree {
    root: String,
    files: Vec<(String, String)>,
}

impl Tree {
    fn new(root: &str) -> Tree {
        Tree { root: root.to_string(), files: Vec::new() }
    }

    fn file(mut self, path: &str, text: &str) -> Tree {
        self.files.push((format!("{}/{}", self.root, path), text.to_string()));
        self
    }

    fn read(&self, path: &str) -> Option<String> {
        self.files.iter().find(|(p, _)| p == path).map(|(_, text)| text.clone())
    }

    fn parent(path: &str) -> &str {
        &path[..path.rfind('/').unwrap()]
    }

    /// The directories of the tree, the root first, without what lies below
    /// an excluded directory.
    fn walk(&self) -> Vec<Directory> {
        let mut paths: Vec<String> = vec![self.root.clone()];
        for (file, _) in &self.files {
            let mut dir = Tree::parent(file).to_string();
            let mut chain = Vec::new();
            while dir.len() > self.root.len() {
                chain.push(dir.clone());
                dir = Tree::parent(&dir).to_string();
            }
            chain.reverse();
            for dir in chain {
                let below_excluded = paths
                    .iter()
                    .chain(std::iter::once(&dir))
                    .any(|p| dir.starts_with(&format!("{p}/")) && is_excluded(p, EXCLUDED));
                let hidden = (self.root.len()..dir.len())
                    .filter(|&i| dir.as_bytes()[i] == b'/')
                    .any(|i| is_excluded(&dir[..i], EXCLUDED));
                if !below_excluded && !hidden && !paths.contains(&dir) {
                    paths.push(dir);
                }
            }
        }
        paths
            .into_iter()
            .map(|path| Directory {
                manifest: self.read(&format!("{path}/Cargo.toml")),
                changelog: self
                    .read(&format!("{path}/CHANGELOG.md"))
                    .map(|_| format!("{path}/CHANGELOG.md")),
                path,
            })
            .collect()
    }
}

fn label(package: &Package) -> String {
    package.label()
}

fn labels(packages: &[Package]) -> Vec<String> {
    packages.iter().map(label).collect()
}

fn workspace(tree: &Tree) -> Workspace {
    let manifest = tree.read(&format!("{}/Cargo.toml", tree.root));
    let changelog = tree
        .read(&format!("{}/CHANGELOG.md", tree.root))
        .map(|_| format!("{}/CHANGELOG.md", tree.root));
    Workspace::new(tree.root.clone(), manifest.as_deref(), changelog).unwrap()
}

fn find_packages(tree: &Tree) -> Result<Vec<Package>, ScanError> {
    workspace(tree)
        .find_packages(&tree.walk())
        .map_err(|failure| failure.error)
}

/// Everything up to the plan, with the messages of a run for its errors.
fn init(tree: &Tree) -> Result<Vec<Package>, String> {
    let ws = workspace(tree);
    let mut packages = ws
        .find_packages(&tree.walk())
        .map_err(|failure| format!("{:?}", failure.error))?;
    let paths: Vec<Option<String>> = packages
        .iter()
        .map(|p| ws.changelog_for(p).map(str::to_string))
        .collect();
    let documents: Vec<Option<String>> = paths
        .iter()
        .map(|path| path.as_ref().map(|path| tree.read(path).unwrap()))
        .collect();
    extract_release_notes(&mut packages, &documents).map_err(|failure| {
        let package = label(&packages[failure.unit]);
        let path = paths[failure.unit].clone().unwrap();
        match failure.error {
            NotesError::MissingEntry => {
                format!("changelog at '{path}' does not contain an entry for {package}")
            }
            NotesError::AmbiguousEntry => {
                format!("changelog '{path}' contains multiple entries for {package}")
            }
            NotesError::MissingNamedEntry => {
                format!("changelog '{path}' is missing an entry for {package}")
            }
        }
    })?;
    Ok(packages)
}

fn run(tree: &Tree, tags: &[&str]) -> Result<PublishPlan, String> {
    let packages = init(tree)?;
    check_manifests(&packages).map_err(|failure| {
        let name = &packages[failure.unit].name;
        match failure.error {
            MetadataError::MissingDescription => {
                format!("package `{name}` is missing a description field")
            }
            MetadataError::MissingLicense => format!("package `{name}` is missing a license field"),
            MetadataError::UnclosedString => format!("unclosed string in the manifest of `{name}`"),
        }
    })?;
    let tags = parse_tags(&tags.join("\n"));
    plan_publish(&packages, &tags).map_err(|e| format!("{e:?}"))
}

fn releases(plan: &PublishPlan) -> Vec<(String, String)> {
    plan.releases.iter().map(|r| (r.tag.clone(), r.notes.clone())).collect()
}

fn manifest(name: &str, version: &str, rest: &str) -> String {
    format!(
        "[package]\nname = \"{name}\"\n{version}\nedition = \"2021\"\ndescription = \"test\"\nlicense = \"0BSD\"\n{rest}"
    )
}

fn version(v: &str) -> String {
    format!("version = \"{v}\"")
}

fn single_package_tree() -> Tree {
    Tree::new("single-package")
        .file("Cargo.toml", &manifest("single-package", &version("2.2.2"), ""))
        .file("src/lib.rs", "")
}

#[test]
fn does_not_find_test_packages() {
    let tree = Tree::new("sludge-cicd")
        .file("Cargo.toml", &manifest("sludge-cicd", &version("0.1.0"), ""))
        .file(
            "sludge-cicd-test-projects/single-package/Cargo.toml",
            &manifest("single-package", &version("2.2.2"), ""),
        )
        .file(
            "sludge-cicd-test-projects/graph/a/Cargo.toml",
            &manifest("a", &version("0.1.0"), ""),
        );
    let packages = find_packages(&tree).unwrap();
    assert_eq!(packages.len(), 1, "{:?}", labels(&packages));
    assert_eq!(packages[0].name, "sludge-cicd");
}

#[test]
fn project_dir_does_not_exist() {
    let tree = Tree::new("does-not-exist");
    assert_eq!(find_packages(&tree).unwrap_err(), ScanError::MissingRootManifest);
    let ws = Workspace::new("does-not-exist".to_string(), None, None).unwrap();
    assert_eq!(
        ws.find_packages(&Vec::new()).map(|p| labels(&p)).map_err(|f| f.error),
        Err(ScanError::MissingRootManifest)
    );
}

#[test]
fn project_dir_has_no_manifest() {
    let tree = Tree::new("empty").file("README.md", "nothing");
    assert_eq!(find_packages(&tree).unwrap_err(), ScanError::MissingRootManifest);
    let tree = Tree::new("empty").file("sub/Cargo.toml", &manifest("sub", &version("1.0.0"), ""));
    assert_eq!(find_packages(&tree).unwrap_err(), ScanError::MissingRootManifest);
}

#[test]
fn missing_metadata() {
    let tree = Tree::new("no-license").file(
        "Cargo.toml",
        "[package]\nname = \"mypkg\"\nversion = \"0.1.0\"\ndescription = \"test\"\n",
    );
    assert_eq!(
        run(&tree, &[]).map(|_| ()),
        Err("package `mypkg` is missing a license field".to_string())
    );
    let tree = Tree::new("no-description").file(
        "Cargo.toml",
        "[package]\nname = \"mypkg\"\nversion = \"0.1.0\"\nlicense = \"0BSD\"\n",
    );
    assert_eq!(
        run(&tree, &[]).map(|_| ()),
        Err("package `mypkg` is missing a description field".to_string())
    );
}

#[test]
fn single_package() {
    let tree = single_package_tree();
    assert_eq!(labels(&find_packages(&tree).unwrap()), vec!["single-package@2.2.2"]);

    let plan = run(&tree, &[]).unwrap();
    assert_eq!(labels(&plan.to_publish), vec!["single-package@2.2.2"]);
    assert!(!plan.separate_tags);
    assert_eq!(plan.tags, vec!["v2.2.2"]);
    assert!(plan.releases.is_empty());

    let plan = run(&tree, &["v2.2.1"]).unwrap();
    assert_eq!(labels(&plan.to_publish), vec!["single-package@2.2.2"]);
    assert!(!plan.separate_tags);
    assert_eq!(plan.tags, vec!["v2.2.2"]);
    assert!(plan.releases.is_empty());
}

#[test]
fn single_package_existing_tag() {
    let tree = single_package_tree();
    let plan = run(&tree, &["v2.2.2"]).unwrap();
    assert!(plan.to_publish.is_empty());
    assert!(plan.tags.is_empty());
    assert!(plan.releases.is_empty());
    let plan = run(&tree, &["single-package-v2.2.2"]).unwrap();
    assert!(plan.to_publish.is_empty());
    assert!(plan.tags.is_empty());
    assert!(plan.releases.is_empty());
}

#[test]
fn single_package_sudo() {
    let steps = plan_test(false, false, true, "", "");
    let shown: Vec<(Stage, &str, bool)> = steps
        .iter()
        .map(|s| (s.stage, s.command.trim(), s.sudo))
        .collect();
    assert_eq!(
        shown,
        vec![
            (Stage::Build, "cargo test --workspace --no-run", false),
            (Stage::BuildDocs, "cargo doc --workspace", false),
            (Stage::Test, "cargo test --workspace", true),
        ]
    );
    let plan = run(&single_package_tree(), &[]).unwrap();
    assert_eq!(labels(&plan.to_publish), vec!["single-package@2.2.2"]);
    assert_eq!(plan.tags, vec!["v2.2.2"]);
    assert_eq!(publish_gate(true, "main"), Gate::Open);
}

fn inheritance_tree(root: &str, root_manifest: &str) -> Tree {
    Tree::new(root)
        .file("Cargo.toml", root_manifest)
        .file(
            "version-workspace/Cargo.toml",
            &manifest("version-workspace", "version.workspace = true", ""),
        )
        .file(
            "version-normal/Cargo.toml",
            &manifest("version-normal", &version("4.5.6"), ""),
        )
}

#[test]
fn workspace_inheritance() {
    let first = inheritance_tree(
        "workspace-inheritance",
        "[workspace]\nmembers = [\"version-normal\", \"version-workspace\"]\npackage.version = \"555.222.333\"\n",
    );
    let second = inheritance_tree(
        "workspace-inheritance2",
        "[workspace]\nmembers = [\"version-normal\", \"version-workspace\"]\n\n[workspace.package]\nversion = \"555.222.333\"\n",
    );
    for tree in [first, second] {
        assert_eq!(
            labels(&find_packages(&tree).unwrap()),
            vec!["version-normal@4.5.6", "version-workspace@555.222.333"]
        );
        let plan = run(&tree, &[]).unwrap();
        assert_eq!(
            labels(&plan.to_publish),
            vec!["version-normal@4.5.6", "version-workspace@555.222.333"]
        );
        assert!(plan.separate_tags);
        assert_eq!(
            plan.tags,
            vec!["version-normal-v4.5.6", "version-workspace-v555.222.333"]
        );
        assert!(plan.releases.is_empty());
    }
}

fn synced_derive_tree() -> Tree {
    Tree::new("synced-derive")
        .file("Cargo.toml", "[workspace]\nmembers = [\"mylib\", \"mylib-derive\"]\n")
        .file(
            "mylib/Cargo.toml",
            &manifest(
                "mylib",
                &version("0.1.2"),
                "\n[dependencies]\nmylib-derive = { version = \"=0.1.2\", path = \"../mylib-derive\" }\n",
            ),
        )
        .file(
            "mylib-derive/Cargo.toml",
            &manifest("mylib-derive", &version("0.1.2"), "\n[lib]\nproc-macro = true\n"),
        )
}

#[test]
fn synced_derive() {
    let tree = synced_derive_tree();
    assert_eq!(
        labels(&find_packages(&tree).unwrap()),
        vec!["mylib-derive@0.1.2", "mylib@0.1.2"]
    );

    let plan = run(&tree, &[]).unwrap();
    assert_eq!(labels(&plan.to_publish), vec!["mylib-derive@0.1.2", "mylib@0.1.2"]);
    assert!(!plan.separate_tags);
    assert_eq!(plan.tags, vec!["v0.1.2"]);

    let plan = run(&tree, &["v0.1.2"]).unwrap();
    assert!(plan.to_publish.is_empty());
    assert!(plan.tags.is_empty());

    let plan = run(&tree, &["mylib-v0.1.2"]).unwrap();
    assert_eq!(labels(&plan.to_publish), vec!["mylib-derive@0.1.2"]);
    assert!(plan.separate_tags);
    assert_eq!(plan.tags, vec!["mylib-derive-v0.1.2"]);
}

fn graph_tree() -> Tree {
    Tree::new("graph")
        .file("Cargo.toml", "[workspace]\nmembers = [\"a\", \"b\", \"c\", \"d\"]\n")
        .file("a/Cargo.toml", &manifest("a", &version("0.1.0"), ""))
        .file(
            "b/Cargo.toml",
            &manifest(
                "b",
                &version("0.1.0"),
                "\n[dependencies]\na = { version = \"0.1.0\", path = \"../a\" }\n\n[dev-dependencies]\nd.path = \"../d\"\nd.version = \"0.1.0\"\n",
            ),
        )
        .file(
            "c/Cargo.toml",
            &manifest(
                "c",
                &version("0.1.0"),
                "\n[build-dependencies]\na.workspace = true\n",
            ),
        )
        .file("d/Cargo.toml", &manifest("d", &version("0.1.0"), ""))
}

#[test]
fn dep_graph() {
    let plan = run(&graph_tree(), &[]).unwrap();
    assert_eq!(
        labels(&plan.to_publish),
        vec!["a@0.1.0", "d@0.1.0", "b@0.1.0", "c@0.1.0"]
    );
    assert!(!plan.separate_tags);
    assert_eq!(plan.tags, vec!["v0.1.0"]);
    assert!(plan.releases.is_empty());
}

const TOPLEVEL_NOTES: &str =
    "- Toplevel Bla\n\n### blabla 1.0.0\n\n```rust\n{\n    code example :)\n}\n```";

fn nonvirtual_tree() -> Tree {
    Tree::new("nonvirtual-workspace-changelog")
        .file(
            "Cargo.toml",
            &manifest(
                "toplevel",
                &version("1.0.0"),
                "\n[workspace]\nmembers = [\"subpackage\"]\n",
            ),
        )
        .file(
            "CHANGELOG.md",
            &format!(
                "# Changelog\n\n## subpackage 1.0.0\n\n- Subpackage Bla\n\n## toplevel 1.0.0\n\n{TOPLEVEL_NOTES}\n"
            ),
        )
        .file(
            "subpackage/Cargo.toml",
            &manifest("subpackage", &version("1.0.0"), ""),
        )
}

#[test]
fn nonvirtual_workspace_changelog() {
    let tree = nonvirtual_tree();
    let plan = run(&tree, &[]).unwrap();
    assert_eq!(labels(&plan.to_publish), vec!["subpackage@1.0.0", "toplevel@1.0.0"]);
    assert!(!plan.separate_tags);
    assert_eq!(plan.tags, vec!["v1.0.0"]);
    assert_eq!(
        releases(&plan),
        vec![(
            "v1.0.0".to_string(),
            format!(
                "# subpackage 1.0.0\n\n- Subpackage Bla\n\n# toplevel 1.0.0\n\n{TOPLEVEL_NOTES}\n"
            )
        )]
    );

    let plan = run(&tree, &["subpackage-v1.0.0"]).unwrap();
    assert_eq!(labels(&plan.to_publish), vec!["toplevel@1.0.0"]);
    assert!(plan.separate_tags);
    assert_eq!(plan.tags, vec!["toplevel-v1.0.0"]);
    assert_eq!(
        releases(&plan),
        vec![("toplevel-v1.0.0".to_string(), TOPLEVEL_NOTES.to_string())]
    );
}

#[test]
fn single_package_changelog() {
    let tree = Tree::new("single-package-changelog")
        .file("Cargo.toml", &manifest("mypackage", &version("0.1.0"), ""))
        .file(
            "CHANGELOG.md",
            "# Changelog\n\n## Unreleased\n\n## 0.1.0\n\nNotes for 0.1.0\n\n## 0.0.1\n\nOld notes\n",
        );
    let plan = run(&tree, &[]).unwrap();
    assert_eq!(labels(&plan.to_publish), vec!["mypackage@0.1.0"]);
    assert!(!plan.separate_tags);
    assert_eq!(plan.tags, vec!["v0.1.0"]);
    assert_eq!(
        releases(&plan),
        vec![("v0.1.0".to_string(), "Notes for 0.1.0\n".to_string())]
    );
}

#[test]
fn multiple_changelogs() {
    let tree = Tree::new("workspace-with-package-changelog")
        .file("Cargo.toml", "[workspace]\nmembers = [\"a\", \"b\"]\n")
        .file("a/Cargo.toml", &manifest("a", &version("0.1.0"), ""))
        .file("a/CHANGELOG.md", "# Changelog\n\n## 0.1.0\n\n- entry for `a`\n")
        .file("b/Cargo.toml", &manifest("b", &version("0.1.0"), ""))
        .file("b/CHANGELOG.md", "# Changelog\n\n## 0.1.0\n\n- entry for `b`\n");
    let plan = run(&tree, &[]).unwrap();
    assert_eq!(labels(&plan.to_publish), vec!["a@0.1.0", "b@0.1.0"]);
    assert!(plan.separate_tags);
    assert_eq!(plan.tags, vec!["a-v0.1.0", "b-v0.1.0"]);
    assert_eq!(
        releases(&plan),
        vec![
            ("a-v0.1.0".to_string(), "- entry for `a`".to_string()),
            ("b-v0.1.0".to_string(), "- entry for `b`".to_string()),
        ]
    );
}

#[test]
fn changelog_shared() {
    let tree = Tree::new("changelog-shared")
        .file("Cargo.toml", "[workspace]\nmembers = [\"derive\", \"shared\"]\n")
        .file(
            "CHANGELOG.md",
            "# Changelog\n\n## 0.1.0\n\n- shared changelog for `derive` and `shared`\n",
        )
        .file("derive/Cargo.toml", &manifest("derive", &version("0.1.0"), ""))
        .file("shared/Cargo.toml", &manifest("shared", &version("0.1.0"), ""));
    let notes = "- shared changelog for `derive` and `shared`";

    let plan = run(&tree, &[]).unwrap();
    assert_eq!(labels(&plan.to_publish), vec!["derive@0.1.0", "shared@0.1.0"]);
    assert!(!plan.separate_tags);
    assert_eq!(plan.tags, vec!["v0.1.0"]);
    assert_eq!(releases(&plan), vec![("v0.1.0".to_string(), format!("{notes}\n"))]);

    let plan = run(&tree, &["shared-v0.1.0"]).unwrap();
    assert_eq!(labels(&plan.to_publish), vec!["derive@0.1.0"]);
    assert!(plan.separate_tags);
    assert_eq!(plan.tags, vec!["derive-v0.1.0"]);
    assert_eq!(
        releases(&plan),
        vec![("derive-v0.1.0".to_string(), notes.to_string())]
    );
}

#[test]
fn changelog_version_missing() {
    let tree = Tree::new("sludge-cicd-test-projects/changelog-version-missing")
        .file("Cargo.toml", &manifest("mypkg", &version("0.1.1"), ""))
        .file("CHANGELOG.md", "# Changelog\n\n## 0.1.0\n\n- first release\n");
    assert_eq!(
        run(&tree, &[]).map(|_| ()),
        Err(
            "changelog at 'sludge-cicd-test-projects/changelog-version-missing/CHANGELOG.md' does not contain an entry for mypkg@0.1.1"
                .to_string()
        )
    );
}
