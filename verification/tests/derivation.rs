use nix_build_graph::aterm::ErrorKind;
use nix_build_graph::derivation::Derivation;
use nix_build_graph::paths::{DrvPath, StorePath};

fn parsed(outputs: &str, env: &str) -> Derivation {
    let text = format!("Derive([{}],[],[],\"s\",\"b\",[],[{}])", outputs, env);
    match Derivation::parse(DrvPath("/a.drv".to_string()), &text) {
        Ok(drv) => drv,
        Err(error) => panic!("{:?}", error),
    }
}

#[test]
fn last_of_several_counts() {
    let drv = parsed(
        r#"("out","/1","",""),("dev","/2","",""),("out","/3","","")"#,
        r#"("a","1"),("a","2")"#,
    );
    assert_eq!(drv.path.as_str(), "/a.drv");
    assert_eq!(drv.outputs.len(), 2);
    assert_eq!(drv.outputs.get("out"), Some(&StorePath("/3".to_string())));
    assert_eq!(drv.outputs.get("dev"), Some(&StorePath("/2".to_string())));
    assert_eq!(drv.env.get("a"), Some(&"2".to_string()));
    assert_eq!(drv.env.get("b"), None);
    assert_eq!(drv.main_output(), Some(&StorePath("/3".to_string())));
}

#[test]
fn broken_files_are_refused() {
    match Derivation::parse(DrvPath("/a.drv".to_string()), "nothing") {
        Ok(_) => panic!("read"),
        Err(error) => {
            assert_eq!(error.input, "nothing");
            assert_eq!(error.code, ErrorKind::Tag);
        }
    }
}

#[test]
fn local_builds_ask_for_it() {
    assert!(parsed("", r#"("preferLocalBuild","1")"#).is_local());
    assert!(!parsed("", r#"("preferLocalBuild","")"#).is_local());
    assert!(!parsed("", r#"("preferLocalBuild","true")"#).is_local());
    assert!(!parsed("", "").is_local());
}

#[test]
fn outputs_are_uploaded_in_the_order_of_their_names() {
    let outputs = r#"("out","/1","",""),("dev","/2","",""),("lib","/3","","")"#;
    let drv = parsed(outputs, "");
    let all = vec![
        StorePath("/2".to_string()),
        StorePath("/3".to_string()),
        StorePath("/1".to_string()),
    ];
    assert_eq!(drv.outputs_to_upload(true), all);
    assert_eq!(drv.outputs_to_upload(false), all);
    let fixed = parsed(outputs, r#"("outputHash","x")"#);
    assert_eq!(fixed.outputs_to_upload(true), vec![]);
    assert_eq!(fixed.outputs_to_upload(false), all);
    let refused = parsed(outputs, r#"("allowSubstitutes","")"#);
    assert_eq!(refused.outputs_to_upload(false), vec![]);
    let allowed = parsed(outputs, r#"("allowSubstitutes","1")"#);
    assert_eq!(allowed.outputs_to_upload(true), all);
}

#[test]
fn derivation_without_out_has_no_main_output() {
    assert_eq!(parsed(r#"("dev","/2","","")"#, "").main_output(), None);
}

#[test]
fn clone_says_the_same() {
    let drv = parsed(r#"("out","/1","","")"#, r#"("a","1")"#);
    let copy = drv.clone();
    assert_eq!(copy.path, drv.path);
    assert_eq!(copy.inputs, drv.inputs);
    assert_eq!(copy.outputs.get("out"), drv.outputs.get("out"));
    assert_eq!(copy.env.get("a"), drv.env.get("a"));
}
