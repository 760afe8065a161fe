use nix_build_graph::derivation::Derivation;
use nix_build_graph::graph::DrvGraph;
use nix_build_graph::maps::SortedMap;
use nix_build_graph::paths::DrvPath;
use nix_build_graph::schedule::{BuildStatus, Scheduler, Step};

fn path(name: &str) -> DrvPath {
    DrvPath(name.to_string())
}

fn drv(name: &str, inputs: &[&str], local: bool) -> Derivation {
    let mut env = SortedMap::new();
    if local {
        env.insert("preferLocalBuild".to_string(), "1".to_string());
    }
    Derivation {
        path: path(name),
        inputs: inputs.iter().map(|input| (path(input), vec![])).collect(),
        outputs: SortedMap::new(),
        env,
    }
}

fn diamond() -> DrvGraph {
    DrvGraph::new(vec![
        drv("d", &["b", "c"], false),
        drv("b", &["a"], false),
        drv("c", &["a"], false),
        drv("a", &[], false),
        drv("e", &[], false),
    ])
}

fn started(scheduler: &mut Scheduler) -> String {
    match scheduler.next() {
        Step::Start(path) => path.0,
        step => panic!("{:?}", step),
    }
}

fn waits(scheduler: &mut Scheduler) -> bool {
    matches!(scheduler.next(), Step::Wait)
}

fn finished(scheduler: &mut Scheduler) -> bool {
    matches!(scheduler.next(), Step::Finished)
}

#[test]
fn most_awaited_is_built_first() {
    let mut scheduler = Scheduler::new(diamond(), 1, 1, false);
    assert_eq!(started(&mut scheduler), "a");
    assert!(waits(&mut scheduler));
    let completion = scheduler.complete(&path("a"), true);
    assert_eq!(completion.status, BuildStatus::Success);
    assert_eq!(completion.new_length, None);
    assert_eq!(started(&mut scheduler), "c");
    assert!(waits(&mut scheduler));
    scheduler.complete(&path("c"), true);
    assert_eq!(started(&mut scheduler), "b");
    scheduler.complete(&path("b"), true);
    assert_eq!(started(&mut scheduler), "e");
    scheduler.complete(&path("e"), true);
    assert_eq!(started(&mut scheduler), "d");
    assert!(waits(&mut scheduler));
    scheduler.complete(&path("d"), true);
    assert!(finished(&mut scheduler));
    assert!(finished(&mut scheduler));
}

#[test]
fn limits_hold_for_each_kind() {
    let graph = DrvGraph::new(vec![
        drv("a", &[], false),
        drv("b", &[], false),
        drv("c", &[], true),
        drv("d", &[], true),
        drv("e", &[], true),
    ]);
    let mut scheduler = Scheduler::new(graph, 1, 2, false);
    assert_eq!(started(&mut scheduler), "e");
    assert_eq!(started(&mut scheduler), "d");
    assert_eq!(started(&mut scheduler), "b");
    assert!(waits(&mut scheduler));
    scheduler.complete(&path("d"), true);
    assert_eq!(started(&mut scheduler), "c");
    assert!(waits(&mut scheduler));
    scheduler.complete(&path("b"), true);
    assert_eq!(started(&mut scheduler), "a");
    assert!(waits(&mut scheduler));
}

#[test]
fn nothing_starts_without_room() {
    let mut scheduler = Scheduler::new(diamond(), 0, 5, false);
    assert!(waits(&mut scheduler));
}

#[test]
fn first_failure_is_the_end() {
    let mut scheduler = Scheduler::new(diamond(), 2, 1, false);
    assert_eq!(started(&mut scheduler), "a");
    assert_eq!(started(&mut scheduler), "e");
    let completion = scheduler.complete(&path("a"), false);
    assert_eq!(completion.status, BuildStatus::Failure);
    assert_eq!(completion.new_length, None);
    assert!(finished(&mut scheduler));
}

#[test]
fn other_builds_go_on_after_a_failure() {
    let graph = DrvGraph::new(vec![
        drv("a", &[], false),
        drv("b", &[], false),
        drv("c", &["b"], false),
    ]);
    let mut scheduler = Scheduler::new(graph, 1, 1, true);
    assert_eq!(started(&mut scheduler), "b");
    assert!(scheduler.can_complete(&path("b"), true));
    scheduler.complete(&path("b"), true);
    assert_eq!(started(&mut scheduler), "c");
    let completion = scheduler.complete(&path("c"), false);
    assert_eq!(completion.status, BuildStatus::Failure);
    assert_eq!(completion.new_length, Some(2));
    assert!(scheduler.remaining_in_graph());
    assert_eq!(started(&mut scheduler), "a");
    scheduler.complete(&path("a"), true);
    assert!(finished(&mut scheduler));
}

#[test]
fn what_waits_for_a_failure_leaves_the_graph() {
    let mut scheduler = Scheduler::new(diamond(), 1, 1, true);
    assert_eq!(started(&mut scheduler), "a");
    assert!(scheduler.remaining_in_graph());
    assert!(scheduler.can_complete(&path("a"), false));
    scheduler.complete(&path("a"), false);
    assert!(!scheduler.remaining_in_graph());
}

#[test]
fn only_builds_in_progress_can_end() {
    let mut scheduler = Scheduler::new(diamond(), 1, 1, true);
    assert!(!scheduler.can_complete(&path("a"), true));
    assert_eq!(started(&mut scheduler), "a");
    assert!(scheduler.can_complete(&path("a"), true));
    assert!(!scheduler.can_complete(&path("e"), true));
    assert!(!scheduler.can_complete(&path("x"), false));
}

#[test]
fn everything_is_built_once_and_after_what_it_needs() {
    let mut scheduler = Scheduler::new(diamond(), 3, 1, false);
    let mut order: Vec<String> = Vec::new();
    let mut running: Vec<String> = Vec::new();
    loop {
        match scheduler.next() {
            Step::Finished => break,
            Step::Start(path) => {
                assert!(running.len() < 3);
                running.push(path.0.clone());
                order.push(path.0);
            }
            Step::Wait => {
                assert!(!running.is_empty());
                let done = running.remove(0);
                scheduler.complete(&path(&done), true);
            }
        }
    }
    assert!(running.is_empty());
    assert_eq!(order, ["a", "e", "c", "b", "d"]);
}

#[test]
fn empty_graph_is_finished_at_once() {
    let mut scheduler = Scheduler::new(DrvGraph::new(vec![]), 1, 1, false);
    assert!(finished(&mut scheduler));
}

#[test]
fn runs_end_with_everything_tried() {
    let mut scheduler = Scheduler::new(diamond(), 2, 1, true);
    let mut running: Vec<String> = Vec::new();
    let mut ended: Vec<String> = Vec::new();
    let mut events = 0;
    loop {
        assert!(scheduler.remaining_in_graph());
        match scheduler.next() {
            Step::Finished => break,
            Step::Start(path) => running.push(path.0),
            Step::Wait => {
                let done = running.remove(0);
                let succeeded = done != "d" && done != "e";
                scheduler.complete(&path(&done), succeeded);
                assert!(!ended.contains(&done));
                ended.push(done);
            }
        }
        events += 1;
    }
    assert_eq!(events, 10);
    ended.sort();
    assert_eq!(ended, ["a", "b", "c", "d", "e"]);
}
