use nix_build_graph::derivation::Derivation;
use nix_build_graph::graph::DrvGraph;
use nix_build_graph::maps::SortedMap;
use nix_build_graph::paths::DrvPath;

fn path(name: &str) -> DrvPath {
    DrvPath(name.to_string())
}

fn drv(name: &str, inputs: &[&str]) -> Derivation {
    Derivation {
        path: path(name),
        inputs: inputs.iter().map(|input| (path(input), vec![])).collect(),
        outputs: SortedMap::new(),
        env: SortedMap::new(),
    }
}

/// `d` needs `b` and `c`, which need `a`; `e` stands alone.
fn diamond() -> Vec<Derivation> {
    vec![
        drv("d", &["b", "c"]),
        drv("b", &["a"]),
        drv("e", &[]),
        drv("a", &[]),
        drv("c", &["a"]),
    ]
}

fn sorted(paths: Vec<DrvPath>) -> Vec<String> {
    let mut names: Vec<String> = paths.into_iter().map(|path| path.0).collect();
    names.sort();
    names
}

fn waits(graph: &DrvGraph) -> Vec<String> {
    let names = sorted(graph.drv_paths());
    let mut pairs = Vec::new();
    for a in &names {
        for b in &names {
            if graph.depends_on(&path(a), &path(b)) {
                pairs.push(format!("{}{}", a, b));
            }
        }
    }
    pairs
}

#[test]
fn graph_knows_who_waits_for_whom() {
    let drvs = diamond();
    assert!(DrvGraph::fits(&drvs));
    let graph = DrvGraph::new(drvs);
    assert_eq!(graph.len(), 5);
    assert_eq!(sorted(graph.drv_paths()), ["a", "b", "c", "d", "e"]);
    assert_eq!(waits(&graph), ["ba", "ca", "da", "db", "dc"]);
    assert!(graph.has_no_dependencies(&path("a")));
    assert!(graph.has_no_dependencies(&path("e")));
    assert!(!graph.has_no_dependencies(&path("b")));
    assert_eq!(graph.recursive_dependant_count(&path("a")), 3);
    assert_eq!(graph.recursive_dependant_count(&path("b")), 1);
    assert_eq!(graph.recursive_dependant_count(&path("d")), 0);
    assert_eq!(graph.drv(&path("d")).inputs.len(), 2);
    assert!(graph.contains(&path("a")));
    assert!(!graph.contains(&path("x")));
    assert!(!graph.depends_on(&path("x"), &path("a")));
    assert!(!graph.depends_on(&path("a"), &path("a")));
}

#[test]
fn order_of_derivations_does_not_matter() {
    let mut drvs = diamond();
    let one = DrvGraph::new(diamond());
    drvs.reverse();
    let other = DrvGraph::new(drvs);
    assert_eq!(waits(&one), waits(&other));
    assert_eq!(sorted(one.drv_paths()), sorted(other.drv_paths()));
}

#[test]
fn last_derivation_with_a_path_counts() {
    let graph = DrvGraph::new(vec![drv("a", &["b"]), drv("b", &[]), drv("a", &[])]);
    assert_eq!(graph.len(), 2);
    assert!(graph.has_no_dependencies(&path("a")));
}

#[test]
fn removal_keeps_the_rest() {
    let mut graph = DrvGraph::new(diamond());
    graph.remove(&path("b"));
    assert_eq!(graph.len(), 4);
    assert!(!graph.contains(&path("b")));
    assert_eq!(waits(&graph), ["ca", "da", "dc"]);
    assert_eq!(graph.recursive_dependant_count(&path("a")), 2);
    graph.remove(&path("c"));
    assert!(graph.has_no_dependencies(&path("d")));
    assert_eq!(waits(&graph), ["da"]);
    graph.remove(&path("a"));
    assert_eq!(waits(&graph), Vec::<String>::new());
}

#[test]
fn everything_that_waits_is_removed() {
    let mut graph = DrvGraph::new(diamond());
    assert!(graph.recursive_dependants_in_graph(&path("b")));
    graph.remove_recursive_dependants(&path("b"));
    assert_eq!(sorted(graph.drv_paths()), ["a", "b", "c", "e"]);
    assert_eq!(graph.recursive_dependant_count(&path("b")), 0);
    assert_eq!(graph.recursive_dependant_count(&path("a")), 2);
    graph.remove_recursive_dependants(&path("a"));
    assert_eq!(sorted(graph.drv_paths()), ["a", "e"]);
    graph.remove_recursive_dependants(&path("e"));
    assert_eq!(graph.len(), 2);
}

#[test]
fn removals_add_up_in_any_order() {
    let mut one = DrvGraph::new(diamond());
    one.remove(&path("b"));
    one.remove(&path("e"));
    let mut other = DrvGraph::new(diamond());
    other.remove(&path("e"));
    other.remove(&path("b"));
    assert_eq!(waits(&one), waits(&other));
    assert_eq!(sorted(one.drv_paths()), sorted(other.drv_paths()));
}

#[test]
fn something_always_waits_for_nothing() {
    let mut graph = DrvGraph::new(diamond());
    while graph.len() > 0 {
        let free: Vec<DrvPath> = graph
            .drv_paths()
            .into_iter()
            .filter(|path| graph.has_no_dependencies(path))
            .collect();
        assert!(!free.is_empty());
        graph.remove(&free[0]);
    }
}

#[test]
fn what_is_needed_must_be_there() {
    assert!(!DrvGraph::fits(&vec![drv("a", &["b"])]));
    assert!(DrvGraph::fits(&vec![drv("a", &["b"]), drv("b", &[])]));
    assert!(DrvGraph::fits(&vec![drv("a", &["b"]), drv("a", &[])]));
    assert!(DrvGraph::fits(&vec![]));
    assert_eq!(DrvGraph::new(vec![]).len(), 0);
}

#[test]
fn long_chains_are_followed() {
    let names: Vec<String> = (0..200).map(|i| format!("{:03}", i)).collect();
    let mut drvs = vec![drv(&names[0], &[])];
    for i in 1..names.len() {
        drvs.push(drv(&names[i], &[&names[i - 1]]));
    }
    let graph = DrvGraph::new(drvs);
    assert_eq!(graph.recursive_dependant_count(&path("000")), 199);
    assert!(graph.depends_on(&path("199"), &path("000")));
    assert!(!graph.depends_on(&path("000"), &path("199")));
}

#[test]
fn circles_do_not_keep_the_graph_from_being_made() {
    let graph = DrvGraph::new(vec![drv("a", &["b"]), drv("b", &["a"]), drv("c", &["a"])]);
    assert!(graph.depends_on(&path("a"), &path("b")));
    assert!(graph.depends_on(&path("b"), &path("a")));
    assert!(graph.depends_on(&path("c"), &path("a")));
    assert!(!graph.depends_on(&path("a"), &path("c")));
}
