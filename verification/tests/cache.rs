use nix_build_graph::cache::{
    collect_statuses, narinfo_filename, needs_upload, CacheProbe, CacheStatus, ProbeStep, StatusCache, UploadOutput,
    UploadStep,
};
use nix_build_graph::derivation::Derivation;
use nix_build_graph::maps::SortedMap;
use nix_build_graph::paths::{DrvPath, StorePath};

const HASH: &str = "0123456789abcdfghijklmnpqrsvwxyz";

fn store_path() -> StorePath {
    StorePath(format!("/nix/store/{}-hello", HASH))
}

fn plain(name: &str) -> StorePath {
    StorePath(name.to_string())
}

fn probe(substituters: &[&str]) -> CacheProbe {
    CacheProbe::new(
        store_path(),
        substituters.iter().map(|url| url.to_string()).collect(),
    )
}

fn asked(probe: &CacheProbe) -> Option<String> {
    match probe.step() {
        ProbeStep::Ask(url) => url,
        step => panic!("{:?}", step),
    }
}

#[test]
fn narinfo_is_named_after_the_hash() {
    assert_eq!(narinfo_filename(&store_path()), format!("{}.narinfo", HASH));
}

#[test]
fn urls_are_joined() {
    assert_eq!(
        asked(&probe(&["https://cache.nixos.org"])),
        Some(format!("https://cache.nixos.org/{}.narinfo", HASH))
    );
    assert_eq!(
        asked(&probe(&["https://example.org/a/b"])),
        Some(format!("https://example.org/a/{}.narinfo", HASH))
    );
    assert_eq!(
        asked(&probe(&["https://example.org/a/b/?q=1"])),
        Some(format!("https://example.org/a/b/{}.narinfo", HASH))
    );
    assert_eq!(asked(&probe(&["not a url"])), None);
    assert_eq!(asked(&probe(&["mailto:a@example.org"])), None);
}

#[test]
fn caches_are_asked_in_order_until_one_has_the_path() {
    let mut probe = probe(&["https://a.org", "https://b.org", "https://c.org"]);
    assert_eq!(asked(&probe), Some(format!("https://a.org/{}.narinfo", HASH)));
    probe.answer(false);
    assert_eq!(asked(&probe), Some(format!("https://b.org/{}.narinfo", HASH)));
    probe.answer(true);
    assert!(matches!(probe.step(), ProbeStep::Found));
    assert_eq!(probe.status(false), CacheStatus::Cached);
    assert_eq!(probe.status(true), CacheStatus::Cached);
}

#[test]
fn path_that_no_cache_has_is_looked_for() {
    let mut missing = probe(&["https://a.org"]);
    missing.answer(false);
    assert!(matches!(missing.step(), ProbeStep::Look));
    assert_eq!(missing.status(true), CacheStatus::Local);
    assert_eq!(missing.status(false), CacheStatus::NotBuilt);
    let none = probe(&[]);
    assert!(matches!(none.step(), ProbeStep::Look));
    assert_eq!(none.status(true), CacheStatus::Local);
}

#[test]
fn cells_are_filled_once() {
    let mut cache = StatusCache::new();
    let a = cache.cell_for(&plain("/a"));
    let b = cache.cell_for(&plain("/b"));
    assert_ne!(a, b);
    assert_eq!(cache.cell_for(&plain("/a")), a);
    assert_eq!(cache.content(a), None);
    assert_eq!(cache.fill(a, CacheStatus::NotBuilt), CacheStatus::NotBuilt);
    assert_eq!(cache.fill(a, CacheStatus::Cached), CacheStatus::NotBuilt);
    assert_eq!(cache.content(a), Some(CacheStatus::NotBuilt));
    assert_eq!(cache.content(b), None);
}

#[test]
fn marks_replace_what_was_known() {
    let mut cache = StatusCache::new();
    let first = cache.cell_for(&plain("/a"));
    cache.fill(first, CacheStatus::NotBuilt);
    cache.mark_local(&plain("/a"));
    let second = cache.cell_for(&plain("/a"));
    assert_ne!(first, second);
    assert_eq!(cache.content(second), Some(CacheStatus::Local));
    assert_eq!(cache.content(first), Some(CacheStatus::NotBuilt));
    cache.mark_cached(&plain("/a"));
    let third = cache.cell_for(&plain("/a"));
    assert_eq!(cache.content(third), Some(CacheStatus::Cached));
    let other = cache.cell_for(&plain("/b"));
    assert_eq!(cache.content(other), None);
}

#[test]
fn all_outputs_of_a_derivation_are_marked() {
    let mut outputs = SortedMap::new();
    outputs.insert("out".to_string(), plain("/1"));
    outputs.insert("dev".to_string(), plain("/2"));
    let drv = Derivation {
        path: DrvPath("/a.drv".to_string()),
        inputs: vec![],
        outputs,
        env: SortedMap::new(),
    };
    let mut cache = StatusCache::new();
    cache.mark_outputs_local(&drv);
    for path in ["/1", "/2"] {
        let cell = cache.cell_for(&plain(path));
        assert_eq!(cache.content(cell), Some(CacheStatus::Local));
    }
    let cell = cache.cell_for(&plain("/3"));
    assert_eq!(cache.content(cell), None);
}

#[test]
fn uploads_end_with_the_output_of_the_command() {
    let mut cache = StatusCache::new();
    assert_eq!(cache.upload_output(&plain("/a"), UploadOutput::Line), UploadStep::Read);
    assert_eq!(cache.upload_output(&plain("/a"), UploadOutput::Error), UploadStep::Fail);
    let cell = cache.cell_for(&plain("/a"));
    assert_eq!(cache.content(cell), None);
    assert_eq!(cache.upload_output(&plain("/a"), UploadOutput::End), UploadStep::Done);
    let cell = cache.cell_for(&plain("/a"));
    assert_eq!(cache.content(cell), Some(CacheStatus::Cached));
}

#[test]
fn cached_paths_need_no_upload() {
    assert!(needs_upload(CacheStatus::NotBuilt));
    assert!(needs_upload(CacheStatus::Local));
    assert!(!needs_upload(CacheStatus::Cached));
}

#[test]
fn last_status_of_a_derivation_counts() {
    let statuses = collect_statuses(vec![
        (DrvPath("/a.drv".to_string()), CacheStatus::NotBuilt),
        (DrvPath("/b.drv".to_string()), CacheStatus::Cached),
        (DrvPath("/a.drv".to_string()), CacheStatus::Local),
    ]);
    assert_eq!(statuses.len(), 2);
    assert_eq!(statuses.get("/a.drv"), Some(&CacheStatus::Local));
    assert_eq!(statuses.get("/b.drv"), Some(&CacheStatus::Cached));
}
