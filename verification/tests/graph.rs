use sludge_cicd::dependencies::{dependency_graph, sort_packages};
use sludge_cicd::graph::{publish_order, DependencyCycle};
use sludge_cicd::package::Package;

/// Whether `order` holds every node once, each behind what it depends on.
fn is_valid(graph: &[Vec<usize>], order: &[usize]) -> bool {
    let place = |x: usize| order.iter().position(|&y| y == x);
    order.len() == graph.len()
        && (0..graph.len()).all(|x| place(x).is_some())
        && (0..graph.len()).all(|i| graph[i].iter().all(|&j| place(j) < place(i)))
}

#[test]
fn orders_dependencies_first() {
    let graph = vec![vec![], vec![0, 3], vec![0], vec![]];
    let order = publish_order(&graph).unwrap();
    assert_eq!(order, vec![0, 3, 1, 2]);
    assert!(is_valid(&graph, &order));
}

#[test]
fn orders_chains_and_diamonds() {
    let chain = vec![vec![1], vec![2], vec![3], vec![]];
    assert_eq!(publish_order(&chain).unwrap(), vec![3, 2, 1, 0]);
    let diamond = vec![vec![1, 2], vec![3], vec![3], vec![]];
    let order = publish_order(&diamond).unwrap();
    assert!(is_valid(&diamond, &order));
    let unrelated = vec![vec![], vec![], vec![]];
    let order = publish_order(&unrelated).unwrap();
    assert!(is_valid(&unrelated, &order));
    assert_eq!(publish_order(&Vec::new()).unwrap(), Vec::<usize>::new());
}

#[test]
fn a_cycle_is_an_error() {
    assert_eq!(publish_order(&vec![vec![1], vec![0]]), Err(DependencyCycle));
    assert_eq!(publish_order(&vec![vec![0]]), Err(DependencyCycle));
    // Nodes off the cycle do not save the order.
    assert_eq!(
        publish_order(&vec![vec![], vec![2], vec![3], vec![1], vec![0]]),
        Err(DependencyCycle)
    );
    assert_eq!(
        publish_order(&vec![vec![1], vec![2], vec![1]]),
        Err(DependencyCycle)
    );
}

fn package(name: &str, manifest: &str) -> Package {
    Package {
        name: name.to_string(),
        version: "0.1.0".to_string(),
        changelog_path: None,
        release_notes: None,
        manifest: manifest.to_string(),
    }
}

fn names(packages: &[Package]) -> Vec<&str> {
    packages.iter().map(|p| p.name.as_str()).collect()
}

fn sorted(packages: Vec<Package>) -> Result<Vec<String>, DependencyCycle> {
    sort_packages(packages).map(|out| out.iter().map(|p| p.name.clone()).collect())
}

#[test]
fn units_come_after_what_they_need() {
    let packages = vec![
        package("d", ""),
        package("c", "[dependencies]\na = \"0.1\"\n"),
        package("b", "[dependencies]\na = { path = \"../a\" }\nd.workspace = true\n"),
        package("a", "[package]\nname = \"a\"\n"),
    ];
    assert_eq!(sorted(packages), Ok(vec!["a".into(), "d".into(), "b".into(), "c".into()]));
}

#[test]
fn the_graph_follows_the_dependency_tables() {
    let packages = vec![
        package("a", "[package]\nb = \"1\"\n[features]\nc = []\n"),
        package("b", "[dev-dependencies]\n  a.version = \"1\"\na = \"again\"\n[build-dependencies]\nc = \"1\""),
        package("c", "[target.'cfg(unix)'.dependencies]\na = \"1\"\nC = \"1\"\nserde = \"1\"\nb\n"),
        package("d", "[dependencies.a]\nversion = \"1\"\n[dependenciesx]\nb = \"1\"\n"),
    ];
    let graph = dependency_graph(&packages);
    assert_eq!(graph, vec![vec![], vec![0, 2], vec![0], vec![]]);
    assert_eq!(names(&sort_packages(packages).unwrap()), vec!["a", "c", "b", "d"]);
}

#[test]
fn a_unit_does_not_need_itself() {
    let packages = vec![package("a", "[dev-dependencies]\na = { path = \".\" }\n")];
    assert_eq!(dependency_graph(&packages), vec![Vec::<usize>::new()]);
    assert_eq!(sorted(packages), Ok(vec!["a".into()]));
}

#[test]
fn units_that_need_each_other_cannot_be_ordered() {
    let packages = vec![
        package("a", "[dependencies]\nb = \"1\"\n"),
        package("b", "[dev-dependencies]\na = \"1\"\n"),
        package("c", ""),
    ];
    assert_eq!(sorted(packages), Err(DependencyCycle));
    assert_eq!(sorted(Vec::new()), Ok(Vec::new()));
}

#[test]
fn the_order_of_discovery_does_not_matter() {
    let units = || {
        vec![
            package("a", ""),
            package("b", "[dependencies]\na = \"1\"\nd = \"1\"\n"),
            package("c", "[dependencies]\na = \"1\"\n"),
            package("d", ""),
        ]
    };
    let expected = sorted(units());
    assert_eq!(expected, Ok(vec!["a".into(), "d".into(), "b".into(), "c".into()]));
    let mut reversed = units();
    reversed.reverse();
    assert_eq!(sorted(reversed), expected);
    let mut rotated = units();
    rotated.rotate_left(2);
    assert_eq!(sorted(rotated), expected);
    rotated = units();
    rotated.swap(0, 3);
    rotated.swap(1, 2);
    rotated.rotate_left(1);
    assert_eq!(sorted(rotated), expected);
}
