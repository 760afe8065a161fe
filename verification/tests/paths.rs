use nix_build_graph::paths::{DrvPath, OutputName, StorePath};

const HASH: &str = "0123456789abcdfghijklmnpqrsvwxyz";

#[test]
fn store_path_has_hash_and_name() {
    let path = StorePath(format!("/nix/store/{}-hello-2.12", HASH));
    assert!(path.has_hash_part());
    assert!(path.has_name_part());
    assert_eq!(path.hash_part(), HASH);
    assert_eq!(path.get_name(), "hello-2.12");
    assert_eq!(path.as_str(), format!("/nix/store/{}-hello-2.12", HASH));
}

#[test]
fn hash_and_name_make_up_the_last_component() {
    let path = StorePath(format!("/a/b/{}-x", HASH));
    let last = format!("{}-{}", path.hash_part(), path.get_name());
    assert!(path.as_str().ends_with(&last));
    assert_eq!(path.as_str().len(), "/a/b/".len() + last.len());
}

#[test]
fn drv_path_name_is_without_ending() {
    let path = DrvPath(format!("/nix/store/{}-hello-2.12.drv", HASH));
    assert!(path.has_name_part());
    assert_eq!(path.get_name(), "hello-2.12");
}

#[test]
fn empty_names() {
    let path = StorePath(format!("/{}-", HASH));
    assert!(path.has_name_part());
    assert_eq!(path.get_name(), "");
    let path = DrvPath(format!("/{}-.drv", HASH));
    assert!(path.has_name_part());
    assert_eq!(path.get_name(), "");
}

#[test]
fn paths_without_parts_are_told_apart() {
    assert!(!StorePath("no-slash".to_string()).has_hash_part());
    assert!(!StorePath("/short".to_string()).has_hash_part());
    assert!(!StorePath("/short".to_string()).has_name_part());
    assert!(StorePath(format!("/{}", HASH)).has_hash_part());
    assert!(!StorePath(format!("/{}", HASH)).has_name_part());
    assert!(!DrvPath(format!("/{}-.dr", HASH)).has_name_part());
    let across = format!("/{}é-x", &HASH[..31]);
    assert!(!StorePath(across).has_hash_part());
}

#[test]
fn clones_are_equal() {
    let path = StorePath("/a".to_string());
    assert_eq!(path.clone(), path);
    let path = DrvPath("/a.drv".to_string());
    assert_eq!(path.clone(), path);
    let name = OutputName("out".to_string());
    assert_eq!(name.clone(), name);
}

#[test]
fn names_and_hashes_may_hold_any_characters() {
    let hash = "éééééééééééééééé";
    let path = StorePath(format!("/d/{}-näme", hash));
    assert_eq!(path.hash_part(), hash);
    assert_eq!(path.get_name(), "näme");
    let path = DrvPath(format!("/d/{}-näme.drv", hash));
    assert_eq!(path.get_name(), "näme");
    let path = DrvPath(format!("/d/{}-näméé", hash));
    assert_eq!(path.get_name(), "näm");
}
