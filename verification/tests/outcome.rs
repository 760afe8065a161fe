use nix_build_graph::derivation::Derivation;
use nix_build_graph::eval::{collect_attrs, EvalLine, EvalStep};
use nix_build_graph::maps::{SortedMap, TextMap};
use nix_build_graph::outcome::{
    abort_message, after_build, attr_by_drv, build_args, build_failure, paths_to_upload, summarize,
    AfterBuild, BuildArg, Summary,
};
use nix_build_graph::paths::{DrvPath, StorePath};
use nix_build_graph::schedule::BuildStatus;

fn drv(name: &str, env: &[(&str, &str)]) -> Derivation {
    let mut outputs = SortedMap::new();
    outputs.insert("out".to_string(), StorePath(format!("{}-out", name)));
    let mut variables = SortedMap::new();
    for (key, value) in env {
        variables.insert(key.to_string(), value.to_string());
    }
    Derivation {
        path: DrvPath(name.to_string()),
        inputs: vec![],
        outputs,
        env: variables,
    }
}

fn attrs() -> TextMap<String> {
    let mut by_attr = SortedMap::new();
    by_attr.insert("b".to_string(), drv("one", &[]));
    by_attr.insert("a".to_string(), drv("one", &[]));
    by_attr.insert("c".to_string(), drv("two", &[]));
    attr_by_drv(&by_attr)
}

#[test]
fn last_attribute_of_a_derivation_counts() {
    let attrs = attrs();
    assert_eq!(attrs.len(), 2);
    assert_eq!(attrs.get("one"), Some(&"b".to_string()));
    assert_eq!(attrs.get("two"), Some(&"c".to_string()));
    assert_eq!(attrs.get("three"), None);
}

#[test]
fn outputs_of_attributes_are_uploaded() {
    let attrs = attrs();
    assert_eq!(
        paths_to_upload(&drv("one", &[]), &attrs),
        vec![StorePath("one-out".to_string())]
    );
    assert_eq!(paths_to_upload(&drv("three", &[]), &attrs), vec![]);
    assert_eq!(paths_to_upload(&drv("one", &[("outputHash", "x")]), &attrs), vec![]);
    assert_eq!(paths_to_upload(&drv("two", &[("allowSubstitutes", "")]), &attrs), vec![]);
}

#[test]
fn failures_end_everything_or_are_ignored() {
    assert_eq!(after_build(BuildStatus::Success, true), AfterBuild::Upload);
    assert_eq!(after_build(BuildStatus::Success, false), AfterBuild::Upload);
    assert_eq!(after_build(BuildStatus::Failure, true), AfterBuild::Ignore);
    assert_eq!(after_build(BuildStatus::Failure, false), AfterBuild::Abort);
}

#[test]
fn errors_name_the_derivation() {
    let path = DrvPath("/a.drv".to_string());
    assert_eq!(abort_message(&path), "Failed to build /a.drv");
    assert_eq!(build_failure(&path), "Failed to build '/a.drv'");
}

fn shown(args: Vec<BuildArg>) -> Vec<String> {
    args.into_iter()
        .map(|arg| match arg {
            BuildArg::Text(text) => text,
            BuildArg::OutPath => "LINK".to_string(),
        })
        .collect()
}

#[test]
fn build_command_gets_its_arguments() {
    let path = DrvPath("/a.drv".to_string());
    assert_eq!(shown(build_args(&path, true)), ["--out-link", "LINK", "/a.drv"]);
    assert_eq!(shown(build_args(&path, false)), ["--no-out-link", "/a.drv"]);
}

#[test]
fn builds_are_counted() {
    let mut statuses = TextMap::new();
    assert_eq!(
        summarize(3, &statuses),
        Summary { total: 3, built: 0, failed: 0, canceled: 3 }
    );
    statuses.insert("a".to_string(), BuildStatus::Success);
    statuses.insert("b".to_string(), BuildStatus::Failure);
    statuses.insert("c".to_string(), BuildStatus::Success);
    assert_eq!(
        summarize(7, &statuses),
        Summary { total: 7, built: 2, failed: 1, canceled: 4 }
    );
    statuses.insert("c".to_string(), BuildStatus::Failure);
    assert_eq!(
        summarize(3, &statuses),
        Summary { total: 3, built: 1, failed: 2, canceled: 0 }
    );
}

fn line(error: Option<&str>, drv_path: Option<&str>) -> EvalLine {
    EvalLine {
        attr: "x".to_string(),
        error: error.map(|text| text.to_string()),
        drv_path: drv_path.map(|path| DrvPath(path.to_string())),
    }
}

#[test]
fn evaluated_attributes_are_read() {
    match line(None, Some("/a.drv")).step() {
        EvalStep::Read { attr, drv_path } => {
            assert_eq!(attr, "x");
            assert_eq!(drv_path.as_str(), "/a.drv");
        }
        step => panic!("{:?}", step),
    }
}

#[test]
fn attributes_with_errors_are_left_out() {
    for drv_path in [None, Some("/a.drv")] {
        match line(Some("bad"), drv_path).step() {
            EvalStep::LeaveOut { attr, error } => {
                assert_eq!(attr, "x");
                assert_eq!(error, "bad");
            }
            step => panic!("{:?}", step),
        }
    }
}

#[test]
fn last_derivation_of_an_attribute_counts() {
    let map = collect_attrs(vec![
        ("b".to_string(), drv("one", &[])),
        ("a".to_string(), drv("two", &[])),
        ("b".to_string(), drv("three", &[])),
    ]);
    assert_eq!(map.len(), 2);
    assert_eq!(map.key_at(0), "a");
    assert_eq!(map.get("a").map(|drv| drv.path.as_str()), Some("two"));
    assert_eq!(map.get("b").map(|drv| drv.path.as_str()), Some("three"));
    assert_eq!(collect_attrs(vec![]).len(), 0);
}
