//! What follows from the end of builds: what is uploaded, whether the work goes on, and what is
//! reported at the end.

use crate::derivation::Derivation;
use crate::maps::{SortedMap, TextMap};
use crate::paths::{DrvPath, StorePath};
use crate::plan;
use crate::schedule::BuildStatus;
use vstd::prelude::*;

verus! {

/// The attribute of each derivation: of several with the same derivation the last in the order
/// of texts.
pub fn attr_by_drv(drv_by_attr: &SortedMap<Derivation>) -> (attrs: TextMap<String>)
    ensures
        drv_by_attr.lists_its_keys(),
        attrs@.dom() == plan::attr_paths(drv_by_attr@),
        forall|path: Seq<char>| #[trigger]
            attrs@.contains_key(path) ==> is_last_attr(
                drv_by_attr.keys(),
                drv_by_attr@,
                path,
                attrs@[path]@,
            ),
        forall|i: int|
            0 <= i < drv_by_attr.keys().len() && (forall|j: int|
                i < j < drv_by_attr.keys().len() ==> drv_by_attr@[#[trigger] drv_by_attr.keys()[j]]@.path
                    != drv_by_attr@[drv_by_attr.keys()[i]]@.path) ==> {
                let path = drv_by_attr@[#[trigger] drv_by_attr.keys()[i]]@.path;
                &&& attrs@.contains_key(path)
                &&& attrs@[path]@ == drv_by_attr.keys()[i]
            },
{
    let n = drv_by_attr.len();
    let ghost keys = drv_by_attr.keys();
    let mut attrs: TextMap<String> = TextMap::new();
    for i in 0..n
        invariant
            n == keys.len(),
            keys == drv_by_attr.keys(),
            forall|path: Seq<char>| #[trigger]
                attrs@.contains_key(path) ==> is_last_attr(
                    keys.take(i as int),
                    drv_by_attr@,
                    path,
                    attrs@[path]@,
                ),
            forall|j: int|
                0 <= j < i ==> attrs@.contains_key(drv_by_attr@[#[trigger] keys[j]]@.path),
    {
        let ghost before = attrs@;
        let drv = drv_by_attr.value_at(i);
        let attr = drv_by_attr.key_at(i);
        attrs.insert(drv.path.0.clone(), attr.to_owned());
        proof {
            let taken = keys.take(i as int);
            let more = keys.take(i + 1);
            assert forall|path: Seq<char>| #[trigger] attrs@.contains_key(path) implies is_last_attr(
                more,
                drv_by_attr@,
                path,
                attrs@[path]@,
            ) by {
                if path == drv.path@ {
                    assert(more[i as int] == attrs@[path]@);
                } else {
                    assert(before.contains_key(path));
                    let k = choose|k: int|
                        #![trigger taken[k]]
                        is_last_at(taken, drv_by_attr@, path, before[path]@, k);
                    assert(more[k] == taken[k]);
                    assert(is_last_at(more, drv_by_attr@, path, attrs@[path]@, k)) by {
                        assert forall|j: int| k < j < more.len() implies drv_by_attr@[#[trigger] more[j]]@.path
                            != path by {
                            if j < i {
                                assert(more[j] == taken[j]);
                            }
                        }
                    }
                }
            }
        }
    }
    proof {
        assert(keys.take(n as int) =~= keys);
        let all = plan::attr_paths(drv_by_attr@);
        assert forall|path: Seq<char>| attrs@.contains_key(path) == all.contains(path) by {
            if attrs@.contains_key(path) {
                let k = choose|k: int|
                    #![trigger keys[k]]
                    is_last_at(keys, drv_by_attr@, path, attrs@[path]@, k);
                assert(keys.to_set().contains(keys[k]));
                assert(drv_by_attr@.contains_key(keys[k]));
            }
            if all.contains(path) {
                let attr = choose|attr: Seq<char>| #[trigger]
                    drv_by_attr@.contains_key(attr) && drv_by_attr@[attr]@.path == path;
                assert(keys.to_set().contains(attr));
                let k = keys.index_of(attr);
                assert(attrs@.contains_key(drv_by_attr@[keys[k]]@.path));
            }
        }
        assert(attrs@.dom() =~= all);
        assert forall|i: int|
            0 <= i < keys.len() && (forall|j: int|
                i < j < keys.len() ==> drv_by_attr@[#[trigger] keys[j]]@.path
                    != drv_by_attr@[keys[i]]@.path) implies {
            let path = drv_by_attr@[#[trigger] keys[i]]@.path;
            &&& attrs@.contains_key(path)
            &&& attrs@[path]@ == keys[i]
        } by {
            let path = drv_by_attr@[keys[i]]@.path;
            assert(keys.to_set().contains(keys[i]));
            assert(drv_by_attr@.contains_key(keys[i]));
            assert(all.contains(path));
            law_last_attribute_is_unique(keys, drv_by_attr@, path, attrs@[path]@, i);
        }
    }
    attrs
}

/// The last attribute of a derivation is the one behind which no other has the same derivation.
pub proof fn law_last_attribute_is_unique(
    keys: Seq<Seq<char>>,
    drv_by_attr: Map<Seq<char>, Derivation>,
    path: Seq<char>,
    attr: Seq<char>,
    i: int,
)
    requires
        is_last_attr(keys, drv_by_attr, path, attr),
        0 <= i < keys.len(),
        drv_by_attr[keys[i]]@.path == path,
        forall|j: int| i < j < keys.len() ==> drv_by_attr[#[trigger] keys[j]]@.path != path,
    ensures
        attr == keys[i],
{
    let k = choose|k: int| #![trigger keys[k]] is_last_at(keys, drv_by_attr, path, attr, k);
    if k < i {
        assert(drv_by_attr[keys[i]]@.path != path);
    } else if i < k {
        assert(drv_by_attr[keys[k]]@.path != path);
    }
}

/// Whether the attribute at a place has the given derivation, and none behind it has.
pub open spec fn is_last_at(
    keys: Seq<Seq<char>>,
    drv_by_attr: Map<Seq<char>, Derivation>,
    path: Seq<char>,
    attr: Seq<char>,
    k: int,
) -> bool {
    &&& 0 <= k < keys.len()
    &&& keys[k] == attr
    &&& drv_by_attr[attr]@.path == path
    &&& forall|j: int| k < j < keys.len() ==> drv_by_attr[#[trigger] keys[j]]@.path != path
}

/// Whether an attribute is the last of those with the given derivation.
pub open spec fn is_last_attr(
    keys: Seq<Seq<char>>,
    drv_by_attr: Map<Seq<char>, Derivation>,
    path: Seq<char>,
    attr: Seq<char>,
) -> bool {
    exists|k: int| #![trigger keys[k]] is_last_at(keys, drv_by_attr, path, attr, k)
}

/// What is to be done after a build ended.
#[derive(Debug, Clone, Copy, PartialEq, Eq, Structural)]
pub enum AfterBuild {
    /// The outputs are on this machine now and may be uploaded.
    Upload,
    /// Nothing is to be done.
    Ignore,
    /// Everything ends with an error.
    Abort,
}

/// What is to be done after a build ended.
pub fn after_build(status: BuildStatus, keep_going: bool) -> (after: AfterBuild)
    ensures
        after == match status {
            BuildStatus::Success => AfterBuild::Upload,
            BuildStatus::Failure => if keep_going {
                AfterBuild::Ignore
            } else {
                AfterBuild::Abort
            },
        },
{
    match status {
        BuildStatus::Success => AfterBuild::Upload,
        BuildStatus::Failure => if keep_going {
            AfterBuild::Ignore
        } else {
            AfterBuild::Abort
        },
    }
}

/// The paths that are to be uploaded for a derivation, if they exist: those of a derivation of
/// an attribute, unless its outputs have a fixed hash or must not be substituted.
pub fn paths_to_upload(drv: &Derivation, attrs: &TextMap<String>) -> (paths: Vec<StorePath>)
    ensures
        attrs@.contains_key(drv@.path) ==> drv.outputs.lists_its_keys(),
        paths.deep_view() == if attrs@.contains_key(drv@.path) && drv@.may_upload(true) {
            drv.output_paths()
        } else {
            Seq::empty()
        },
        paths@.len() == if !attrs@.contains_key(drv@.path) || drv@.env.contains_key("outputHash"@)
            || (drv@.env.contains_key("allowSubstitutes"@) && drv@.env["allowSubstitutes"@]
            != "1"@) {
            0
        } else {
            drv.outputs.keys().len()
        },
        forall|i: int|
            0 <= i < paths@.len() ==> (#[trigger] paths@[i])@
                == drv@.outputs[drv.outputs.keys()[i]],
{
    if attrs.contains_key(drv.path.as_str()) {
        drv.outputs_to_upload(true)
    } else {
        let paths: Vec<StorePath> = Vec::new();
        assert(paths.deep_view() =~= Seq::<Seq<char>>::empty());
        paths
    }
}

/// The error that ends everything after a build failed.
pub fn abort_message(drv_path: &DrvPath) -> (message: String)
    ensures
        message@ == "Failed to build "@ + drv_path@,
{
    let mut message = "Failed to build ".to_owned();
    message.append(drv_path.as_str());
    message
}

/// The error of a build that failed.
pub fn build_failure(drv_path: &DrvPath) -> (message: String)
    ensures
        message@ == "Failed to build '"@ + drv_path@ + "'"@,
{
    let mut message = "Failed to build '".to_owned();
    message.append(drv_path.as_str());
    message.append("'");
    message
}

/// An argument of the command that builds a derivation.
#[derive(Debug)]
pub enum BuildArg {
    Text(String),
    /// The path of the link to the outputs.
    OutPath,
}

/// The arguments of the command that builds a derivation.
pub fn build_args(drv_path: &DrvPath, has_out_path: bool) -> (args: Vec<BuildArg>)
    ensures
        if has_out_path {
            &&& args@.len() == 3
            &&& args@[0] matches BuildArg::Text(flag)
            &&& flag@ == "--out-link"@
            &&& args@[1] is OutPath
            &&& args@[2] matches BuildArg::Text(path)
            &&& path@ == drv_path@
        } else {
            &&& args@.len() == 2
            &&& args@[0] matches BuildArg::Text(flag)
            &&& flag@ == "--no-out-link"@
            &&& args@[1] matches BuildArg::Text(path)
            &&& path@ == drv_path@
        },
{
    let mut args: Vec<BuildArg> = Vec::new();
    if has_out_path {
        args.push(BuildArg::Text("--out-link".to_owned()));
        args.push(BuildArg::OutPath);
    } else {
        args.push(BuildArg::Text("--no-out-link".to_owned()));
    }
    args.push(BuildArg::Text(drv_path.as_str().to_owned()));
    args
}

/// The derivations whose build ended in a given way.
pub open spec fn ended(statuses: Map<Seq<char>, BuildStatus>, status: BuildStatus) -> Set<
    Seq<char>,
> {
    Set::new(|path: Seq<char>| statuses.contains_key(path) && statuses[path] == status)
}

/// What is reported at the end.
#[derive(Debug, Clone, Copy, PartialEq, Eq, Structural)]
pub struct Summary {
    pub total: usize,
    pub built: usize,
    pub failed: usize,
    pub canceled: usize,
}

/// How many of `total` builds succeeded, failed, or did not come to an end.
pub fn summarize(total: usize, statuses: &TextMap<BuildStatus>) -> (summary: Summary)
    requires
        statuses@.dom().len() <= total,
    ensures
        summary.total == total,
        summary.built == ended(statuses@, BuildStatus::Success).len(),
        summary.failed == ended(statuses@, BuildStatus::Failure).len(),
        summary.canceled == total - summary.built - summary.failed,
        summary.built + summary.failed == statuses@.dom().len(),
{
    let n = statuses.len();
    let ghost keys = statuses.keys();
    let mut built: usize = 0;
    let mut failed: usize = 0;
    let ghost good = Set::<Seq<char>>::empty();
    let ghost bad = Set::<Seq<char>>::empty();
    for i in 0..n
        invariant
            n == keys.len(),
            keys == statuses.keys(),
            keys.no_duplicates(),
            good.finite(),
            bad.finite(),
            built == good.len(),
            failed == bad.len(),
            built + failed == i,
            forall|path: Seq<char>| #[trigger]
                good.contains(path) == (keys.take(i as int).contains(path) && statuses@[path]
                    == BuildStatus::Success),
            forall|path: Seq<char>| #[trigger]
                bad.contains(path) == (keys.take(i as int).contains(path) && statuses@[path]
                    == BuildStatus::Failure),
    {
        let ghost key = keys[i as int];
        let ghost taken = keys.take(i as int);
        proof {
            assert(!taken.contains(key)) by {
                if taken.contains(key) {
                    let k = taken.index_of(key);
                    assert(keys[k] == keys[i as int]);
                }
            }
            assert(!good.contains(key));
            assert(!bad.contains(key));
            assert forall|path: Seq<char>| keys.take(i + 1).contains(path) == (taken.contains(path)
                || path == key) by {
                assert(keys.take(i + 1) =~= taken.push(key));
                if taken.contains(path) {
                    let k = taken.index_of(path);
                    assert(keys.take(i + 1)[k] == path);
                }
                assert(keys.take(i + 1)[i as int] == key);
            }
        }
        match *statuses.value_at(i) {
            BuildStatus::Success => {
                built += 1;
                proof {
                    good = good.insert(key);
                }
            },
            BuildStatus::Failure => {
                failed += 1;
                proof {
                    bad = bad.insert(key);
                }
            },
        }
    }
    proof {
        assert(keys.take(n as int) =~= keys);
        assert forall|path: Seq<char>| statuses@.contains_key(path) == keys.contains(path) by {
            assert(keys.to_set().contains(path) == keys.contains(path));
        }
        assert(good =~= ended(statuses@, BuildStatus::Success));
        assert(bad =~= ended(statuses@, BuildStatus::Failure));
    }
    Summary { total, built, failed, canceled: total - built - failed }
}

/// A build counts among those that ended as its status says, and among no others. One more build
/// that ended counts once, where its status says.
pub proof fn law_every_build_counts_once(
    statuses: Map<Seq<char>, BuildStatus>,
    path: Seq<char>,
    status: BuildStatus,
)
    requires
        statuses.dom().finite(),
        !statuses.contains_key(path),
    ensures
        ended(statuses.insert(path, status), status).len() == ended(statuses, status).len() + 1,
        forall|other: BuildStatus|
            other != status ==> #[trigger] ended(statuses.insert(path, status), other) == ended(
                statuses,
                other,
            ),
        ended(statuses.insert(path, status), status).contains(path),
{
    let after = statuses.insert(path, status);
    assert(ended(statuses, status).subset_of(statuses.dom()));
    vstd::set_lib::lemma_set_subset_finite(statuses.dom(), ended(statuses, status));
    assert(ended(after, status) =~= ended(statuses, status).insert(path));
    assert forall|other: BuildStatus| other != status implies #[trigger] ended(after, other)
        == ended(statuses, other) by {
        assert(ended(after, other) =~= ended(statuses, other));
    }
}

/// Where nothing ended, nothing counts.
pub proof fn law_nothing_ended_counts_nothing(status: BuildStatus)
    ensures
        ended(Map::empty(), status).len() == 0,
{
    assert(ended(Map::empty(), status) =~= Set::empty());
}

} // verus!
