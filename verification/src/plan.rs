//! What is to be built: of everything that the wanted derivations need, the part that some
//! attribute waits for and that is found nowhere yet.

use crate::cache::CacheStatus;
use crate::derivation::{Derivation, DerivationModel};
use crate::graph::{DrvGraph, GraphModel};
use crate::graph_laws;
use crate::maps::{SortedMap, TextMap};
use crate::paths::DrvPath;
use vstd::prelude::*;

verus! {

/// An attribute that was asked for is not there.
#[derive(Debug)]
pub struct AttributeNotFound {
    pub attr: String,
}

impl AttributeNotFound {
    /// The error in words.
    pub fn message(&self) -> (message: String)
        ensures
            message@ == "attribute '"@ + self.attr@ + "' not found"@,
    {
        let mut message = "attribute '".to_owned();
        message.append(self.attr.as_str());
        message.append("' not found");
        message
    }
}

/// The derivations up to which everything is to be available: those of the given attributes, or
/// those of all attributes if none is given.
pub fn select_up_to<'a>(drv_by_attr: &'a SortedMap<Derivation>, up_to: &Vec<String>) -> (result:
    Result<Vec<&'a Derivation>, AttributeNotFound>)
    ensures
        drv_by_attr.lists_its_keys(),
        match result {
            Ok(drvs) => if up_to@.len() == 0 {
                &&& drvs@.len() == drv_by_attr.keys().len()
                &&& forall|i: int|
                    0 <= i < drvs@.len() ==> *(#[trigger] drvs@[i])
                        == drv_by_attr@[drv_by_attr.keys()[i]]
            } else {
                &&& drvs@.len() == up_to@.len()
                &&& forall|i: int|
                    0 <= i < drvs@.len() ==> drv_by_attr@.contains_key(up_to@[i]@) && *(
                    #[trigger] drvs@[i]) == drv_by_attr@[up_to@[i]@]
            },
            Err(error) => exists|i: int|
                0 <= i < up_to@.len() && error.attr@ == (#[trigger] up_to@[i])@
                    && !drv_by_attr@.contains_key(up_to@[i]@) && forall|j: int|
                    0 <= j < i ==> drv_by_attr@.contains_key((#[trigger] up_to@[j])@),
        },
{
    let mut drvs: Vec<&'a Derivation> = Vec::new();
    let n = drv_by_attr.len();
    if up_to.len() == 0 {
        for i in 0..n
            invariant
                n == drv_by_attr.keys().len(),
                drvs@.len() == i,
                forall|j: int|
                    0 <= j < i ==> *(#[trigger] drvs@[j]) == drv_by_attr@[drv_by_attr.keys()[j]],
        {
            drvs.push(drv_by_attr.value_at(i));
        }
    } else {
        for i in 0..up_to.len()
            invariant
                drv_by_attr.lists_its_keys(),
                drvs@.len() == i,
                forall|j: int|
                    0 <= j < i ==> drv_by_attr@.contains_key((#[trigger] up_to@[j])@) && *drvs@[j]
                        == drv_by_attr@[up_to@[j]@],
        {
            match drv_by_attr.get(up_to[i].as_str()) {
                Some(drv) => {
                    drvs.push(drv);
                },
                None => {
                    let error = AttributeNotFound { attr: up_to[i].clone() };
                    assert(error.attr@ == up_to@[i as int]@);
                    return Err(error);
                },
            }
        }
        assert forall|i: int| 0 <= i < drvs@.len() implies drv_by_attr@.contains_key(up_to@[i]@) && *(
        #[trigger] drvs@[i]) == drv_by_attr@[up_to@[i]@] by {
            assert(drv_by_attr@.contains_key(up_to@[i]@));
        }
    }
    Ok(drvs)
}

/// The derivations that are found somewhere.
pub open spec fn built(statuses: Map<Seq<char>, CacheStatus>) -> Set<Seq<char>> {
    Set::new(
        |path: Seq<char>| statuses.contains_key(path) && statuses[path] != CacheStatus::NotBuilt,
    )
}

/// The paths of derivations.
pub open spec fn paths_of(drvs: Seq<DerivationModel>) -> Set<Seq<char>> {
    drvs.map_values(|drv: DerivationModel| drv.path).to_set()
}

/// The paths of the derivations of all attributes.
pub open spec fn attr_paths(drv_by_attr: Map<Seq<char>, Derivation>) -> Set<Seq<char>> {
    Set::new(
        |path: Seq<char>|
            exists|attr: Seq<char>| #[trigger]
                drv_by_attr.contains_key(attr) && drv_by_attr[attr]@.path == path,
    )
}

/// The derivations of attributes that are to be available: those that are found nowhere and for
/// which one of `up_to` waits.
pub open spec fn should_be_available(
    graph: GraphModel,
    statuses: Map<Seq<char>, CacheStatus>,
    attrs: Set<Seq<char>>,
    up_to: Set<Seq<char>>,
) -> Set<Seq<char>> {
    Set::new(
        |path: Seq<char>|
            attrs.contains(path) && statuses[path] == CacheStatus::NotBuilt && exists|
                wanted: Seq<char>,
            | #[trigger] up_to.contains(wanted) && graph.depends(wanted, path),
    )
}

/// The derivations for which none of `available` waits.
pub open spec fn not_to_build(graph: GraphModel, available: Set<Seq<char>>) -> Set<Seq<char>> {
    Set::new(
        |path: Seq<char>|
            graph.has(path) && forall|other: Seq<char>| #[trigger]
                available.contains(other) ==> !graph.depends(other, path),
    )
}

/// The graph of what is to be built.
pub open spec fn planned(
    graph: GraphModel,
    statuses: Map<Seq<char>, CacheStatus>,
    attrs: Set<Seq<char>>,
    up_to: Set<Seq<char>>,
) -> GraphModel {
    let unbuilt = graph.without(built(statuses));
    unbuilt.without(
        not_to_build(unbuilt, should_be_available(unbuilt, statuses, attrs, up_to)),
    )
}

/// Takes derivations out of a graph.
fn remove_all(graph: &mut DrvGraph, paths: &Vec<DrvPath>)
    requires
        old(graph).wf(),
        paths.deep_view().no_duplicates(),
        paths.deep_view().to_set().subset_of(old(graph)@.drvs.dom()),
    ensures
        final(graph).wf(),
        final(graph)@ == old(graph)@.without(paths.deep_view().to_set()),
{
    let ghost before = graph@;
    let ghost all = paths.deep_view();
    proof {
        assert(all.take(0).to_set() =~= Set::<Seq<char>>::empty());
        graph.lemma_tables();
        graph_laws::lemma_nothing_removed(before);
    }
    for i in 0..paths.len()
        invariant
            graph.wf(),
            all == paths.deep_view(),
            all.no_duplicates(),
            all.to_set().subset_of(before.drvs.dom()),
            graph@ == before.without(all.take(i as int).to_set()),
    {
        let ghost done = all.take(i as int);
        let ghost path = all[i as int];
        let ghost only = Set::<Seq<char>>::empty().insert(path);
        proof {
            assert(path == paths@[i as int]@);
            assert(all.to_set().contains(path));
            assert(before.has(path));
            assert(!done.contains(path)) by {
                if done.contains(path) {
                    let k = done.index_of(path);
                    assert(all[k] == all[i as int]);
                }
            }
        }
        graph.remove(&paths[i]);
        proof {
            graph_laws::law_removals_add_up(before, done.to_set(), only);
            assert(all.take(i + 1) =~= done.push(path));
            let more = all.take(i + 1).to_set();
            assert forall|x: Seq<char>| more.contains(x) == done.to_set().union(only).contains(x) by {
                if done.contains(x) {
                    let k = done.index_of(x);
                    assert(all.take(i + 1)[k] == x);
                }
                assert(all.take(i + 1)[i as int] == path);
            }
            assert(more =~= done.to_set().union(only));
        }
    }
    assert(all.take(paths.len() as int) =~= all);
}

/// The derivations that are found somewhere.
fn built_paths(statuses: &TextMap<CacheStatus>) -> (paths: Vec<DrvPath>)
    ensures
        paths.deep_view().no_duplicates(),
        paths.deep_view().to_set() == built(statuses@),
{
    let n = statuses.len();
    let ghost keys = statuses.keys();
    let mut paths: Vec<DrvPath> = Vec::new();
    for i in 0..n
        invariant
            n == keys.len(),
            keys == statuses.keys(),
            keys.no_duplicates(),
            keys.to_set() == statuses@.dom(),
            paths.deep_view().no_duplicates(),
            forall|path: Seq<char>| #[trigger]
                paths.deep_view().contains(path) == (keys.take(i as int).contains(path)
                    && statuses@[path] != CacheStatus::NotBuilt),
    {
        let ghost before = paths.deep_view();
        let ghost key = keys[i as int];
        let ghost taken = keys.take(i as int);
        assert(!taken.contains(key)) by {
            if taken.contains(key) {
                let k = taken.index_of(key);
                assert(keys[k] == keys[i as int]);
            }
        }
        if *statuses.value_at(i) != CacheStatus::NotBuilt {
            paths.push(DrvPath(statuses.key_at(i).to_owned()));
            assert(paths.deep_view() =~= before.push(key));
            assert(!before.contains(key));
            assert(before.push(key).no_duplicates());
        }
        proof {
            assert(keys.take(i + 1) =~= taken.push(key));
            assert forall|path: Seq<char>| #[trigger] paths.deep_view().contains(path) == (keys.take(
                i + 1,
            ).contains(path) && statuses@[path] != CacheStatus::NotBuilt) by {
                assert(keys.take(i + 1).contains(path) == (taken.contains(path) || path == key)) by {
                    if taken.contains(path) {
                        let k = taken.index_of(path);
                        assert(keys.take(i + 1)[k] == path);
                    }
                    assert(keys.take(i + 1)[i as int] == key);
                }
                assert(before.contains(path) == (taken.contains(path) && statuses@[path]
                    != CacheStatus::NotBuilt));
                if before.contains(path) {
                    let k = before.index_of(path);
                    assert(paths.deep_view()[k] == path);
                }
                if statuses@[key] != CacheStatus::NotBuilt {
                    assert(paths.deep_view()[before.len() as int] == key);
                }
            }
        }
    }
    proof {
        assert(keys.take(n as int) =~= keys);
        assert forall|path: Seq<char>| paths.deep_view().to_set().contains(path) == built(
            statuses@,
        ).contains(path) by {
            assert(keys.to_set().contains(path) == keys.contains(path));
            assert(paths.deep_view().contains(path) == (keys.contains(path) && statuses@[path]
                != CacheStatus::NotBuilt));
        }
        assert(paths.deep_view().to_set() =~= built(statuses@));
    }
    paths
}

/// The derivations of attributes that are to be available.
fn available_paths(
    graph: &DrvGraph,
    statuses: &TextMap<CacheStatus>,
    drv_by_attr: &SortedMap<Derivation>,
    up_to: &Vec<&Derivation>,
) -> (paths: Vec<DrvPath>)
    requires
        graph.wf(),
        graph@.drvs.dom().subset_of(statuses@.dom()),
    ensures
        paths.deep_view().to_set() == should_be_available(
            graph@,
            statuses@,
            attr_paths(drv_by_attr@),
            paths_of(roots(up_to@)),
        ),
{
    let n = drv_by_attr.len();
    let ghost keys = drv_by_attr.keys();
    let ghost wanted = paths_of(roots(up_to@));
    let ghost is_available = |path: Seq<char>|
        statuses@[path] == CacheStatus::NotBuilt && exists|w: Seq<char>| #[trigger]
            wanted.contains(w) && graph@.depends(w, path);
    let mut paths: Vec<DrvPath> = Vec::new();
    for i in 0..n
        invariant
            graph.wf(),
            graph@.drvs.dom().subset_of(statuses@.dom()),
            n == keys.len(),
            keys == drv_by_attr.keys(),
            keys.to_set() == drv_by_attr@.dom(),
            wanted == paths_of(roots(up_to@)),
            is_available == (|path: Seq<char>|
                statuses@[path] == CacheStatus::NotBuilt && exists|w: Seq<char>| #[trigger]
                    wanted.contains(w) && graph@.depends(w, path)),
            forall|path: Seq<char>| #[trigger]
                paths.deep_view().contains(path) == (is_available(path) && exists|j: int|
                    0 <= j < i && drv_by_attr@[#[trigger] keys[j]]@.path == path),
    {
        let ghost before = paths.deep_view();
        let drv = drv_by_attr.value_at(i);
        let ghost key = keys[i as int];
        assert(drv_by_attr@[key]@.path == drv.path@);
        let awaited = some_depends_on(graph, up_to, &drv.path);
        let mut taken = false;
        if awaited {
            assert(graph@.has(drv.path@));
            assert(graph@.drvs.dom().contains(drv.path@));
            if let Some(status) = statuses.get(drv.path.as_str()) {
                if *status == CacheStatus::NotBuilt {
                    paths.push(drv.path.clone());
                    taken = true;
                    assert(paths.deep_view() =~= before.push(drv.path@));
                }
            }
        }
        proof {
            assert(taken == is_available(drv.path@));
            assert forall|path: Seq<char>| #[trigger] paths.deep_view().contains(path) == (
            is_available(path) && exists|j: int|
                0 <= j < i + 1 && drv_by_attr@[#[trigger] keys[j]]@.path == path) by {
                let earlier = exists|j: int|
                    0 <= j < i && drv_by_attr@[#[trigger] keys[j]]@.path == path;
                let now = exists|j: int|
                    0 <= j < i + 1 && drv_by_attr@[#[trigger] keys[j]]@.path == path;
                assert(now == (earlier || path == drv.path@)) by {
                    if earlier {
                        let j = choose|j: int|
                            0 <= j < i && drv_by_attr@[#[trigger] keys[j]]@.path == path;
                        assert(drv_by_attr@[keys[j]]@.path == path);
                    }
                    if path == drv.path@ {
                        assert(drv_by_attr@[keys[i as int]]@.path == path);
                    }
                }
                assert(before.contains(path) == (is_available(path) && earlier));
                if taken {
                    assert(paths.deep_view().contains(path) == (before.contains(path) || path
                        == drv.path@)) by {
                        if before.contains(path) {
                            let k = before.index_of(path);
                            assert(paths.deep_view()[k] == path);
                        }
                        assert(paths.deep_view()[before.len() as int] == drv.path@);
                    }
                }
            }
        }
    }
    proof {
        let attrs = attr_paths(drv_by_attr@);
        let all = should_be_available(graph@, statuses@, attrs, wanted);
        assert forall|path: Seq<char>| paths.deep_view().to_set().contains(path) == all.contains(
            path,
        ) by {
            let listed = exists|j: int|
                0 <= j < n && drv_by_attr@[#[trigger] keys[j]]@.path == path;
            assert(listed == attrs.contains(path)) by {
                if listed {
                    let j = choose|j: int|
                        0 <= j < n && drv_by_attr@[#[trigger] keys[j]]@.path == path;
                    assert(keys.to_set().contains(keys[j]));
                    assert(drv_by_attr@.contains_key(keys[j]));
                }
                if attrs.contains(path) {
                    let attr = choose|attr: Seq<char>| #[trigger]
                        drv_by_attr@.contains_key(attr) && drv_by_attr@[attr]@.path == path;
                    assert(keys.to_set().contains(attr));
                    let j = keys.index_of(attr);
                    assert(drv_by_attr@[keys[j]]@.path == path);
                }
            }
            assert(paths.deep_view().contains(path) == (is_available(path) && listed));
        }
        assert(paths.deep_view().to_set() =~= all);
    }
    paths
}

/// The derivations behind references.
pub open spec fn roots(drvs: Seq<&Derivation>) -> Seq<DerivationModel> {
    drvs.map_values(|drv: &Derivation| drv@)
}

/// Whether one of `drvs` waits for a derivation.
fn some_depends_on(graph: &DrvGraph, drvs: &Vec<&Derivation>, path: &DrvPath) -> (some: bool)
    requires
        graph.wf(),
    ensures
        some == exists|wanted: Seq<char>| #[trigger]
            paths_of(roots(drvs@)).contains(wanted) && graph@.depends(wanted, path@),
{
    let ghost names = roots(drvs@).map_values(|drv: DerivationModel| drv.path);
    for i in 0..drvs.len()
        invariant
            graph.wf(),
            names == roots(drvs@).map_values(|drv: DerivationModel| drv.path),
            forall|j: int| 0 <= j < i ==> !graph@.depends(#[trigger] names[j], path@),
    {
        assert(names[i as int] == drvs@[i as int].path@);
        if graph.depends_on(&drvs[i].path, path) {
            assert(names.to_set().contains(names[i as int]));
            assert(paths_of(roots(drvs@)).contains(names[i as int]));
            return true;
        }
    }
    assert forall|wanted: Seq<char>| #[trigger]
        paths_of(roots(drvs@)).contains(wanted) implies !graph@.depends(wanted, path@) by {
        let k = names.index_of(wanted);
        assert(names[k] == wanted);
    }
    false
}

/// The derivations for which none of `available` waits.
fn unneeded_paths(graph: &DrvGraph, available: &Vec<DrvPath>) -> (paths: Vec<DrvPath>)
    requires
        graph.wf(),
    ensures
        paths.deep_view().no_duplicates(),
        paths.deep_view().to_set() == not_to_build(graph@, available.deep_view().to_set()),
{
    let all = graph.drv_paths();
    let ghost names = all.deep_view();
    let ghost gone = not_to_build(graph@, available.deep_view().to_set());
    let mut paths: Vec<DrvPath> = Vec::new();
    for i in 0..all.len()
        invariant
            graph.wf(),
            names == all.deep_view(),
            names.no_duplicates(),
            names.to_set() == graph@.drvs.dom(),
            gone == not_to_build(graph@, available.deep_view().to_set()),
            paths.deep_view().no_duplicates(),
            forall|path: Seq<char>| #[trigger]
                paths.deep_view().contains(path) == (names.take(i as int).contains(path)
                    && gone.contains(path)),
    {
        let ghost before = paths.deep_view();
        let ghost name = names[i as int];
        let ghost taken = names.take(i as int);
        proof {
            assert(name == all@[i as int]@);
            assert(names.to_set().contains(name));
            assert(graph@.has(name));
            assert(!taken.contains(name)) by {
                if taken.contains(name) {
                    let k = taken.index_of(name);
                    assert(names[k] == names[i as int]);
                }
            }
        }
        if none_depends_on(graph, available, &all[i]) {
            paths.push(all[i].clone());
            assert(paths.deep_view() =~= before.push(name));
            assert(!before.contains(name));
            assert(before.push(name).no_duplicates());
        }
        proof {
            assert(names.take(i + 1) =~= taken.push(name));
            assert forall|path: Seq<char>| #[trigger] paths.deep_view().contains(path) == (
            names.take(i + 1).contains(path) && gone.contains(path)) by {
                assert(names.take(i + 1).contains(path) == (taken.contains(path) || path == name))
                    by {
                    if taken.contains(path) {
                        let k = taken.index_of(path);
                        assert(names.take(i + 1)[k] == path);
                    }
                    assert(names.take(i + 1)[i as int] == name);
                }
                assert(before.contains(path) == (taken.contains(path) && gone.contains(path)));
                if before.contains(path) {
                    let k = before.index_of(path);
                    assert(paths.deep_view()[k] == path);
                }
                if gone.contains(name) {
                    assert(paths.deep_view()[before.len() as int] == name);
                }
            }
        }
    }
    proof {
        assert(names.take(all.len() as int) =~= names);
        assert forall|path: Seq<char>| paths.deep_view().to_set().contains(path) == gone.contains(
            path,
        ) by {
            assert(names.to_set().contains(path) == names.contains(path));
            assert(paths.deep_view().contains(path) == (names.contains(path) && gone.contains(
                path,
            )));
        }
        assert(paths.deep_view().to_set() =~= gone);
    }
    paths
}

/// Whether none of `available` waits for a derivation.
fn none_depends_on(graph: &DrvGraph, available: &Vec<DrvPath>, path: &DrvPath) -> (none: bool)
    requires
        graph.wf(),
    ensures
        none == forall|other: Seq<char>| #[trigger]
            available.deep_view().to_set().contains(other) ==> !graph@.depends(other, path@),
{
    let ghost names = available.deep_view();
    for i in 0..available.len()
        invariant
            graph.wf(),
            names == available.deep_view(),
            forall|j: int| 0 <= j < i ==> !graph@.depends(#[trigger] names[j], path@),
    {
        assert(names[i as int] == available@[i as int]@);
        if graph.depends_on(&available[i], path) {
            assert(names.to_set().contains(names[i as int]));
            return false;
        }
    }
    assert forall|other: Seq<char>| #[trigger]
        names.to_set().contains(other) implies !graph@.depends(other, path@) by {
        let k = names.index_of(other);
        assert(names[k] == other);
    }
    true
}

/// Whether there is a status for everything in a graph, and nothing outside it is built.
pub fn statuses_fit(graph: &DrvGraph, statuses: &TextMap<CacheStatus>) -> (fit: bool)
    requires
        graph.wf(),
    ensures
        fit == (graph@.drvs.dom().subset_of(statuses@.dom()) && built(statuses@).subset_of(
            graph@.drvs.dom(),
        )),
{
    let all = graph.drv_paths();
    let ghost names = all.deep_view();
    for i in 0..all.len()
        invariant
            names == all.deep_view(),
            names.to_set() == graph@.drvs.dom(),
            forall|j: int| 0 <= j < i ==> statuses@.contains_key(#[trigger] names[j]),
    {
        assert(names[i as int] == all@[i as int]@);
        if !statuses.contains_key(all[i].as_str()) {
            assert(names.to_set().contains(names[i as int]));
            return false;
        }
    }
    assert(graph@.drvs.dom().subset_of(statuses@.dom())) by {
        assert forall|path: Seq<char>| graph@.drvs.dom().contains(path) implies statuses@.dom().contains(
        path) by {
            assert(names.to_set().contains(path));
            let k = names.index_of(path);
            assert(names[k] == path);
        }
    }
    let done = built_paths(statuses);
    let ghost done_names = done.deep_view();
    for i in 0..done.len()
        invariant
            graph.wf(),
            done_names == done.deep_view(),
            done_names.to_set() == built(statuses@),
            forall|j: int| 0 <= j < i ==> graph@.has(#[trigger] done_names[j]),
    {
        assert(done_names[i as int] == done@[i as int]@);
        if !graph.contains(&done[i]) {
            assert(done_names.to_set().contains(done_names[i as int]));
            return false;
        }
    }
    assert forall|path: Seq<char>| built(statuses@).contains(path) implies graph@.drvs.dom().contains(
    path) by {
        assert(done_names.to_set().contains(path));
        let k = done_names.index_of(path);
        assert(graph@.has(done_names[k]));
    }
    true
}

/// Leaves in a graph what is to be built: what is found nowhere and what a derivation of an
/// attribute waits for that is itself waited for by one of `up_to`.
pub fn plan(
    graph: &mut DrvGraph,
    statuses: &TextMap<CacheStatus>,
    drv_by_attr: &SortedMap<Derivation>,
    up_to: &Vec<&Derivation>,
)
    requires
        old(graph).wf(),
        old(graph)@.drvs.dom().subset_of(statuses@.dom()),
        built(statuses@).subset_of(old(graph)@.drvs.dom()),
    ensures
        final(graph).wf(),
        final(graph)@ == planned(
            old(graph)@,
            statuses@,
            attr_paths(drv_by_attr@),
            paths_of(roots(up_to@)),
        ),
        forall|i: int, attr: Seq<char>, path: Seq<char>|
            0 <= i < up_to@.len() && drv_by_attr@.contains_key(attr) && statuses@[path]
                == CacheStatus::NotBuilt && awaited(
                old(graph)@.without(found_somewhere(statuses@)),
                #[trigger] up_to@[i],
                #[trigger] drv_by_attr@[attr],
                path,
            ) ==> #[trigger] final(graph)@.has(path),
        forall|path: Seq<char>| #[trigger]
            final(graph)@.has(path) ==> old(graph)@.has(path) && statuses@[path]
                == CacheStatus::NotBuilt && exists|i: int, attr: Seq<char>|
                0 <= i < up_to@.len() && drv_by_attr@.contains_key(attr) && awaited(
                    old(graph)@.without(found_somewhere(statuses@)),
                    #[trigger] up_to@[i],
                    #[trigger] drv_by_attr@[attr],
                    path,
                ),
{
    let done = built_paths(statuses);
    remove_all(graph, &done);
    let available = available_paths(graph, statuses, drv_by_attr, up_to);
    let unneeded = unneeded_paths(graph, &available);
    remove_all(graph, &unneeded);
    proof {
        assert(graph@ == planned(
            old(graph)@,
            statuses@,
            attr_paths(drv_by_attr@),
            paths_of(roots(up_to@)),
        ));
        assert forall|i: int, attr: Seq<char>, path: Seq<char>|
            0 <= i < up_to@.len() && drv_by_attr@.contains_key(attr) && statuses@[path]
                == CacheStatus::NotBuilt && awaited(
                old(graph)@.without(found_somewhere(statuses@)),
                #[trigger] up_to@[i],
                #[trigger] drv_by_attr@[attr],
                path,
            ) implies #[trigger] graph@.has(path) by {
            law_what_is_awaited_is_planned(
                old(graph)@,
                statuses@,
                drv_by_attr@,
                up_to@,
                i,
                attr,
                path,
            );
        }
        assert forall|path: Seq<char>| #[trigger] graph@.has(path) implies old(graph)@.has(path) && statuses@[path] == CacheStatus::NotBuilt
            && exists|i: int, attr: Seq<char>|
            0 <= i < up_to@.len() && drv_by_attr@.contains_key(attr) && awaited(
                old(graph)@.without(found_somewhere(statuses@)),
                #[trigger] up_to@[i],
                #[trigger] drv_by_attr@[attr],
                path,
            ) by {
            let (i, attr) = law_what_is_planned_is_awaited(
                old(graph)@,
                statuses@,
                drv_by_attr@,
                up_to@,
                path,
            );
            assert(awaited(
                old(graph)@.without(found_somewhere(statuses@)),
                up_to@[i],
                drv_by_attr@[attr],
                path,
            ));
        }
    }
}

/// What is planned is what is found nowhere and what is waited for by a derivation that is to
/// be available.
pub proof fn law_planned_is_what_is_waited_for(
    graph: GraphModel,
    statuses: Map<Seq<char>, CacheStatus>,
    attrs: Set<Seq<char>>,
    up_to: Set<Seq<char>>,
    path: Seq<char>,
)
    requires
        graph.drvs.dom().subset_of(statuses.dom()),
    ensures
        planned(graph, statuses, attrs, up_to).has(path) == {
            let unbuilt = graph.without(built(statuses));
            &&& graph.has(path)
            &&& statuses[path] == CacheStatus::NotBuilt
            &&& exists|other: Seq<char>| #[trigger]
                should_be_available(unbuilt, statuses, attrs, up_to).contains(other)
                    && unbuilt.depends(other, path)
        },
{
    if graph.has(path) {
        assert(graph.drvs.dom().contains(path));
    }
}

/// The plan leaves nothing out: what a planned derivation waits for is planned too, unless it
/// is found somewhere, and the planned derivation still waits for it.
pub proof fn law_plan_leaves_nothing_out(
    graph: GraphModel,
    statuses: Map<Seq<char>, CacheStatus>,
    attrs: Set<Seq<char>>,
    up_to: Set<Seq<char>>,
    path: Seq<char>,
    other: Seq<char>,
)
    requires
        graph_laws::coherent(graph),
        graph.drvs.dom().subset_of(statuses.dom()),
        planned(graph, statuses, attrs, up_to).has(path),
        graph.depends(path, other),
        statuses[other] == CacheStatus::NotBuilt,
    ensures
        planned(graph, statuses, attrs, up_to).depends(path, other),
        graph_laws::coherent(planned(graph, statuses, attrs, up_to)),
{
    let unbuilt = graph.without(built(statuses));
    let available = should_be_available(unbuilt, statuses, attrs, up_to);
    let gone = not_to_build(unbuilt, available);
    graph_laws::law_removal_keeps_the_rest(graph, built(statuses));
    graph_laws::law_removal_keeps_the_rest(unbuilt, gone);
    law_planned_is_what_is_waited_for(graph, statuses, attrs, up_to, path);
    assert(unbuilt.depends(path, other));
    let first = choose|a: Seq<char>| #[trigger]
        available.contains(a) && unbuilt.depends(a, path);
    assert(unbuilt.rec_dependencies[first].contains(path));
    assert(unbuilt.rec_dependencies[path].contains(other));
    assert(unbuilt.depends(first, other));
    assert(!gone.contains(other));
    assert(!gone.contains(path));
}

/// The derivations that a cache or this machine has.
pub open spec fn found_somewhere(statuses: Map<Seq<char>, CacheStatus>) -> Set<Seq<char>> {
    Set::new(
        |path: Seq<char>|
            statuses.contains_key(path) && (statuses[path] == CacheStatus::Cached || statuses[path]
                == CacheStatus::Local),
    )
}

/// Whether `wanted` waits for the derivation of an attribute, and that one waits for `path`.
pub open spec fn awaited(
    graph: GraphModel,
    wanted: &Derivation,
    attr_drv: Derivation,
    path: Seq<char>,
) -> bool {
    &&& graph.has(wanted.path@)
    &&& graph.has(attr_drv.path@)
    &&& graph.has(path)
    &&& graph.rec_dependencies[wanted.path@].contains(attr_drv.path@)
    &&& graph.rec_dependencies[attr_drv.path@].contains(path)
}

/// Whichever of the wanted derivations waits for the derivation of whichever attribute: what that
/// one waits for is planned, if it is found nowhere.
pub proof fn law_what_is_awaited_is_planned(
    graph: GraphModel,
    statuses: Map<Seq<char>, CacheStatus>,
    drv_by_attr: Map<Seq<char>, Derivation>,
    up_to: Seq<&Derivation>,
    i: int,
    attr: Seq<char>,
    path: Seq<char>,
)
    requires
        graph.drvs.dom().subset_of(statuses.dom()),
        0 <= i < up_to.len(),
        drv_by_attr.contains_key(attr),
        statuses[path] == CacheStatus::NotBuilt,
        awaited(
            graph.without(found_somewhere(statuses)),
            up_to[i],
            drv_by_attr[attr],
            path,
        ),
    ensures
        planned(
            graph,
            statuses,
            attr_paths(drv_by_attr),
            paths_of(roots(up_to)),
        ).has(path),
{
    let unbuilt = graph.without(built(statuses));
    assert(built(statuses) =~= found_somewhere(statuses));
    let wanted = up_to[i].path@;
    let between = drv_by_attr[attr].path@;
    let names = roots(up_to).map_values(|drv: DerivationModel| drv.path);
    assert(names[i] == wanted);
    assert(names.to_set().contains(wanted));
    assert(paths_of(roots(up_to)).contains(wanted));
    assert(attr_paths(drv_by_attr).contains(between));
    assert(graph.drvs.dom().contains(between));
    assert(unbuilt.depends(wanted, between));
    let available = should_be_available(
        unbuilt,
        statuses,
        attr_paths(drv_by_attr),
        paths_of(roots(up_to)),
    );
    assert(available.contains(between));
    assert(unbuilt.depends(between, path));
}

/// What is planned is found nowhere, and some wanted derivation waits for the derivation of an
/// attribute that waits for it.
pub proof fn law_what_is_planned_is_awaited(
    graph: GraphModel,
    statuses: Map<Seq<char>, CacheStatus>,
    drv_by_attr: Map<Seq<char>, Derivation>,
    up_to: Seq<&Derivation>,
    path: Seq<char>,
) -> (place: (int, Seq<char>))
    requires
        graph.drvs.dom().subset_of(statuses.dom()),
        planned(
            graph,
            statuses,
            attr_paths(drv_by_attr),
            paths_of(roots(up_to)),
        ).has(path),
    ensures
        graph.has(path),
        statuses[path] == CacheStatus::NotBuilt,
        0 <= place.0 < up_to.len(),
        drv_by_attr.contains_key(place.1),
        awaited(
            graph.without(found_somewhere(statuses)),
            up_to[place.0],
            drv_by_attr[place.1],
            path,
        ),
{
    let unbuilt = graph.without(built(statuses));
    assert(built(statuses) =~= found_somewhere(statuses));
    let wanted = paths_of(roots(up_to));
    let available = should_be_available(unbuilt, statuses, attr_paths(drv_by_attr), wanted);
    assert(graph.drvs.dom().contains(path));
    let between = choose|a: Seq<char>| #[trigger]
        available.contains(a) && unbuilt.depends(a, path);
    assert(available.contains(between) && unbuilt.depends(between, path));
    let attr = choose|attr: Seq<char>| #[trigger]
        drv_by_attr.contains_key(attr) && drv_by_attr[attr]@.path == between;
    let start = choose|w: Seq<char>| #[trigger]
        wanted.contains(w) && unbuilt.depends(w, between);
    let names = roots(up_to).map_values(|drv: DerivationModel| drv.path);
    assert(names.to_set().contains(start));
    let i = names.index_of(start);
    assert(names[i] == start);
    assert(up_to[i].path@ == start);
    (i, attr)
}

/// In terms of the graph before anything is taken out: if none of the three is found anywhere, a
/// wanted derivation waits for that of an attribute, and that one for a third, the third is
/// planned.
pub proof fn law_plan_follows_the_graph(
    graph: GraphModel,
    statuses: Map<Seq<char>, CacheStatus>,
    drv_by_attr: Map<Seq<char>, Derivation>,
    up_to: Seq<&Derivation>,
    i: int,
    attr: Seq<char>,
    path: Seq<char>,
)
    requires
        graph_laws::coherent(graph),
        graph.drvs.dom().subset_of(statuses.dom()),
        0 <= i < up_to.len(),
        drv_by_attr.contains_key(attr),
        graph.drvs.contains_key(up_to[i].path@),
        graph.drvs.contains_key(drv_by_attr[attr].path@),
        graph.rec_dependencies[up_to[i].path@].contains(drv_by_attr[attr].path@),
        graph.rec_dependencies[drv_by_attr[attr].path@].contains(path),
        statuses[up_to[i].path@] == CacheStatus::NotBuilt,
        statuses[drv_by_attr[attr].path@] == CacheStatus::NotBuilt,
        statuses[path] == CacheStatus::NotBuilt,
    ensures
        planned(
            graph,
            statuses,
            attr_paths(drv_by_attr),
            paths_of(roots(up_to)),
        ).has(path),
{
    let found = found_somewhere(statuses);
    let rest = graph.without(found);
    graph_laws::law_removal_keeps_the_rest(graph, found);
    assert(graph.has(drv_by_attr[attr].path@));
    assert(graph.drvs.dom().contains(path));
    assert(rest.has(up_to[i].path@) && rest.has(drv_by_attr[attr].path@) && rest.has(path));
    law_what_is_awaited_is_planned(graph, statuses, drv_by_attr, up_to, i, attr, path);
}

} // verus!
