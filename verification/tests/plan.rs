use nix_build_graph::cache::CacheStatus;
use nix_build_graph::derivation::Derivation;
use nix_build_graph::graph::DrvGraph;
use nix_build_graph::maps::{SortedMap, TextMap};
use nix_build_graph::paths::DrvPath;
use nix_build_graph::plan::{plan, select_up_to, statuses_fit};

fn path(name: &str) -> DrvPath {
    DrvPath(name.to_string())
}

fn drv(name: &str, inputs: &[&str]) -> Derivation {
    Derivation {
        path: path(name),
        inputs: inputs.iter().map(|input| (path(input), vec![])).collect(),
        outputs: SortedMap::new(),
        env: SortedMap::new(),
    }
}

/// `top` needs `mid`, which needs `low`, which needs `base`; `side` needs `base`.
fn drvs() -> Vec<Derivation> {
    vec![
        drv("top", &["mid", "side"]),
        drv("mid", &["low"]),
        drv("low", &["base"]),
        drv("side", &["base"]),
        drv("base", &[]),
    ]
}

fn attrs() -> SortedMap<Derivation> {
    let mut attrs = SortedMap::new();
    attrs.insert("x".to_string(), drv("top", &["mid", "side"]));
    attrs.insert("m".to_string(), drv("mid", &["low"]));
    attrs
}

fn statuses(built: &[(&str, CacheStatus)]) -> TextMap<CacheStatus> {
    let mut statuses = TextMap::new();
    for drv in drvs() {
        statuses.insert(drv.path.0, CacheStatus::NotBuilt);
    }
    for (name, status) in built {
        statuses.insert(name.to_string(), *status);
    }
    statuses
}

fn planned(up_to: &[&str], built: &[(&str, CacheStatus)]) -> Vec<String> {
    let attrs = attrs();
    let statuses = statuses(built);
    let up_to: Vec<String> = up_to.iter().map(|attr| attr.to_string()).collect();
    let selected = match select_up_to(&attrs, &up_to) {
        Ok(selected) => selected,
        Err(error) => panic!("{}", error.message()),
    };
    let mut graph = DrvGraph::new(drvs());
    assert!(statuses_fit(&graph, &statuses));
    plan(&mut graph, &statuses, &attrs, &selected);
    let mut names: Vec<String> = graph.drv_paths().into_iter().map(|path| path.0).collect();
    names.sort();
    names
}

#[test]
fn attributes_are_selected() {
    let attrs = attrs();
    let paths = |drvs: Vec<&Derivation>| -> Vec<String> {
        drvs.iter().map(|drv| drv.path.0.clone()).collect()
    };
    match select_up_to(&attrs, &vec![]) {
        Ok(all) => assert_eq!(paths(all), ["mid", "top"]),
        Err(error) => panic!("{}", error.message()),
    }
    match select_up_to(&attrs, &vec!["x".to_string(), "m".to_string(), "x".to_string()]) {
        Ok(some) => assert_eq!(paths(some), ["top", "mid", "top"]),
        Err(error) => panic!("{}", error.message()),
    }
}

#[test]
fn missing_attribute_is_reported() {
    let attrs = attrs();
    let wanted = vec!["x".to_string(), "gone".to_string(), "also".to_string()];
    match select_up_to(&attrs, &wanted) {
        Ok(_) => panic!("found"),
        Err(error) => {
            assert_eq!(error.attr, "gone");
            assert_eq!(error.message(), "attribute 'gone' not found");
        }
    }
}

#[test]
fn what_an_awaited_attribute_waits_for_is_planned() {
    assert_eq!(planned(&["x"], &[]), ["base", "low"]);
    assert_eq!(planned(&[], &[]), ["base", "low"]);
}

#[test]
fn nothing_is_planned_if_no_attribute_is_awaited() {
    assert_eq!(planned(&["m"], &[]), Vec::<String>::new());
}

#[test]
fn what_is_found_is_not_planned() {
    assert_eq!(planned(&["x"], &[("base", CacheStatus::Cached)]), ["low"]);
    assert_eq!(planned(&["x"], &[("low", CacheStatus::Local)]), ["base"]);
    assert_eq!(
        planned(&["x"], &[("mid", CacheStatus::Local)]),
        Vec::<String>::new()
    );
    assert_eq!(
        planned(&["x"], &[("top", CacheStatus::Cached)]),
        Vec::<String>::new()
    );
}

#[test]
fn statuses_must_fit_the_graph() {
    let graph = DrvGraph::new(drvs());
    assert!(statuses_fit(&graph, &statuses(&[])));
    assert!(!statuses_fit(&graph, &TextMap::new()));
    assert!(!statuses_fit(&graph, &statuses(&[("other", CacheStatus::Local)])));
    assert!(statuses_fit(&graph, &statuses(&[("other", CacheStatus::NotBuilt)])));
}
