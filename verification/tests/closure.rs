use nix_build_graph::closure::DrvClosure;
use nix_build_graph::derivation::Derivation;
use nix_build_graph::graph::DrvGraph;
use nix_build_graph::maps::SortedMap;
use nix_build_graph::paths::DrvPath;

fn path(name: &str) -> DrvPath {
    DrvPath(name.to_string())
}

fn drv(name: &str, inputs: &[&str]) -> Derivation {
    Derivation {
        path: path(name),
        inputs: inputs.iter().map(|input| (path(input), vec![])).collect(),
        outputs: SortedMap::new(),
        env: SortedMap::new(),
    }
}

fn file(name: &str) -> Derivation {
    match name {
        "d" => drv("d", &["b", "c", "a"]),
        "b" => drv("b", &["a"]),
        "c" => drv("c", &["a", "b"]),
        "x" => drv("x", &["c", "y"]),
        other => drv(other, &[]),
    }
}

fn walk(closure: &mut DrvClosure, root: &str) -> Vec<String> {
    let mut read = Vec::new();
    closure.add_root(&file(root));
    while let Some(next) = closure.next() {
        closure.supply(file(next.as_str()));
        read.push(next.0);
    }
    read
}

fn names(closure: &DrvClosure) -> Vec<String> {
    closure.drvs().into_iter().map(|drv| drv.path.0).collect()
}

#[test]
fn inputs_are_read_once_and_in_depth() {
    let mut closure = DrvClosure::new();
    assert_eq!(walk(&mut closure, "d"), ["b", "a", "c"]);
    assert_eq!(names(&closure), ["d", "b", "a", "c"]);
}

#[test]
fn several_roots_share_what_they_need() {
    let mut closure = DrvClosure::new();
    walk(&mut closure, "d");
    assert_eq!(walk(&mut closure, "x"), ["y"]);
    assert_eq!(walk(&mut closure, "a"), Vec::<String>::new());
    assert_eq!(names(&closure), ["d", "b", "a", "c", "x", "y"]);
}

#[test]
fn what_was_met_is_closed_under_inputs() {
    let mut closure = DrvClosure::new();
    walk(&mut closure, "x");
    let drvs = closure.drvs();
    assert!(DrvGraph::fits(&drvs));
    let graph = DrvGraph::new(drvs);
    assert_eq!(graph.len(), 5);
    assert!(graph.depends_on(&path("x"), &path("a")));
    assert!(!graph.contains(&path("d")));
}

#[test]
fn met_derivations_are_found() {
    let mut closure = DrvClosure::new();
    walk(&mut closure, "b");
    assert_eq!(closure.get(&path("b")).map(|drv| drv.inputs.len()), Some(1));
    assert!(closure.get(&path("d")).is_none());
}

#[test]
fn unfinished_walk_is_not_closed() {
    let mut closure = DrvClosure::new();
    closure.add_root(&file("b"));
    assert_eq!(closure.next(), Some(path("a")));
    assert_eq!(closure.next(), Some(path("a")));
    assert!(!DrvGraph::fits(&closure.drvs()));
}

#[test]
fn failed_reading_is_not_undone() {
    let mut closure = DrvClosure::new();
    closure.add_root(&file("d"));
    assert_eq!(closure.next(), Some(path("b")));
    closure.supply(file("b"));
    assert_eq!(closure.next(), Some(path("a")));
    closure.give_up();
    assert_eq!(closure.next(), None);
    assert_eq!(names(&closure), ["d", "b"]);
    closure.add_root(&file("d"));
    assert_eq!(closure.next(), None);
    assert_eq!(names(&closure), ["d", "b"]);
    assert!(!DrvGraph::fits(&closure.drvs()));
}

#[test]
fn another_root_is_walked_after_a_failure() {
    let mut closure = DrvClosure::new();
    closure.add_root(&file("b"));
    assert_eq!(closure.next(), Some(path("a")));
    closure.give_up();
    assert_eq!(walk(&mut closure, "x"), ["c", "a", "y"]);
    assert_eq!(names(&closure), ["b", "x", "c", "a", "y"]);
}
