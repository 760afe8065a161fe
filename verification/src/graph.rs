//! The graph of derivations that are still to be built: which ones a derivation waits for, and
//! which ones wait for it.

use crate::derivation::{Derivation, DerivationModel};
use crate::fx;
use crate::graph_laws;
use crate::maps::TextMap;
use crate::paths::DrvPath;
use crate::reach;
use crate::search;
use fxhash::{FxHashMap, FxHashSet};
use vstd::prelude::*;

verus! {

/// What a graph says, by the paths of its derivations.
#[verifier::ext_equal]
pub struct GraphModel {
    /// The derivations in the graph.
    pub drvs: Map<Seq<char>, DerivationModel>,
    /// The derivations that one waits for.
    pub dependencies: Map<Seq<char>, Set<Seq<char>>>,
    /// The derivations that wait for one.
    pub dependants: Map<Seq<char>, Set<Seq<char>>>,
    /// The derivations that one waits for, directly or through others.
    pub rec_dependencies: Map<Seq<char>, Set<Seq<char>>>,
    /// The derivations that wait for one, directly or through others.
    pub rec_dependants: Map<Seq<char>, Set<Seq<char>>>,
}

impl GraphModel {
    /// Whether a derivation is in the graph.
    pub open spec fn has(self, path: Seq<char>) -> bool {
        self.drvs.contains_key(path)
    }

    /// Whether `path` waits for `other`, directly or through others, and both are in the graph.
    pub open spec fn depends(self, path: Seq<char>, other: Seq<char>) -> bool {
        self.has(path) && self.has(other) && self.rec_dependencies[path].contains(other)
    }

    /// The graph without the derivations in `gone`: nobody waits for them any more. Who waits
    /// for whom among the others stays, also where it was through one that is gone.
    pub open spec fn without(self, gone: Set<Seq<char>>) -> GraphModel {
        let stays = |path: Seq<char>| self.has(path) && !gone.contains(path);
        GraphModel {
            drvs: Map::new(stays, |path: Seq<char>| self.drvs[path]),
            dependencies: Map::new(
                stays,
                |path: Seq<char>| self.dependencies[path].difference(gone),
            ),
            dependants: Map::new(stays, |path: Seq<char>| self.dependants[path].difference(gone)),
            rec_dependencies: Map::new(
                stays,
                |path: Seq<char>|
                    Set::new(
                        |other: Seq<char>|
                            self.rec_dependencies[path].contains(other) && !(gone.contains(other)
                                && self.rec_dependants[other].contains(path)),
                    ),
            ),
            rec_dependants: Map::new(
                stays,
                |path: Seq<char>|
                    Set::new(
                        |other: Seq<char>|
                            self.rec_dependants[path].contains(other) && !(gone.contains(other)
                                && self.rec_dependencies[other].contains(path)),
                    ),
            ),
        }
    }
}

/// The derivations of a sequence by their paths: of several with one path the last counts.
pub open spec fn by_path(drvs: Seq<DerivationModel>) -> Map<Seq<char>, DerivationModel>
    decreases drvs.len(),
{
    if drvs.len() == 0 {
        Map::empty()
    } else {
        by_path(drvs.drop_last()).insert(drvs.last().path, drvs.last())
    }
}

/// The derivations in a vector.
pub open spec fn models(drvs: Seq<Derivation>) -> Seq<DerivationModel> {
    drvs.map_values(|drv: Derivation| drv@)
}

/// Whether every derivation that one of `drvs` needs is among them.
pub open spec fn closed_under_inputs(drvs: Map<Seq<char>, DerivationModel>) -> bool {
    forall|path: Seq<char>, input: Seq<char>|
        #![trigger drvs[path].needs(input)]
        drvs.contains_key(path) && drvs[path].needs(input) ==> drvs.contains_key(input)
}

/// A step from a derivation to one that it needs.
pub open spec fn needing(drvs: Map<Seq<char>, DerivationModel>) -> spec_fn(
    Seq<char>,
    Seq<char>,
) -> bool {
    |path: Seq<char>, input: Seq<char>| drvs.contains_key(path) && drvs[path].needs(input)
}

/// The derivations that `path` needs.
pub open spec fn needed_by(drvs: Map<Seq<char>, DerivationModel>, path: Seq<char>) -> Set<
    Seq<char>,
> {
    Set::new(|input: Seq<char>| drvs[path].needs(input))
}

/// The derivations that need `path`.
pub open spec fn needers_of(drvs: Map<Seq<char>, DerivationModel>, path: Seq<char>) -> Set<
    Seq<char>,
> {
    Set::new(|other: Seq<char>| drvs.contains_key(other) && drvs[other].needs(path))
}

/// Whether a graph is one of `drvs`. What it notes beyond direct needs is true, and it is all
/// there is for a derivation from which (or to which) no way runs into a circle.
pub open spec fn is_graph_of(graph: GraphModel, drvs: Map<Seq<char>, DerivationModel>) -> bool {
    let step = needing(drvs);
    &&& graph.drvs == drvs
    &&& graph.dependencies.dom() == drvs.dom()
    &&& graph.dependants.dom() == drvs.dom()
    &&& graph.rec_dependencies.dom() == drvs.dom()
    &&& graph.rec_dependants.dom() == drvs.dom()
    &&& forall|path: Seq<char>| #[trigger]
        drvs.contains_key(path) ==> {
            &&& graph.dependencies[path] == needed_by(drvs, path)
            &&& graph.dependants[path] == needers_of(drvs, path)
            &&& needed_by(drvs, path).subset_of(graph.rec_dependencies[path])
            &&& needers_of(drvs, path).subset_of(graph.rec_dependants[path])
        }
    &&& forall|path: Seq<char>, other: Seq<char>|
        drvs.contains_key(path) && #[trigger] graph.rec_dependencies[path].contains(other)
            ==> reach::reaches(step, path, other)
    &&& forall|path: Seq<char>, other: Seq<char>|
        drvs.contains_key(path) && #[trigger] graph.rec_dependants[path].contains(other)
            ==> reach::reaches(step, other, path)
    &&& forall|path: Seq<char>, other: Seq<char>|
        drvs.contains_key(path) && reach::ends(step, path) && #[trigger] reach::reaches(
            step,
            path,
            other,
        ) ==> graph.rec_dependencies[path].contains(other)
    &&& forall|path: Seq<char>, other: Seq<char>|
        drvs.contains_key(path) && reach::ends(reach::reversed(step), path)
            && #[trigger] reach::reaches(step, other, path) ==> graph.rec_dependants[path].contains(
            other,
        )
}

/// The graph of derivations that are still to be built. Inside, a derivation is a number: its
/// place in `drv_paths`.
#[derive(Debug)]
pub struct DrvGraph {
    drv_paths: Vec<DrvPath>,
    idx_by_drv_path: FxHashMap<String, u32>,
    drvs: Vec<Derivation>,
    drv_dependencies: Vec<FxHashSet<u32>>,
    drv_dependants: Vec<FxHashSet<u32>>,
    drv_recursive_dependencies: Vec<FxHashSet<u32>>,
    drv_recursive_dependants: Vec<FxHashSet<u32>>,
}

/// The paths of a set of numbers.
spec fn named(paths: Seq<DrvPath>, numbers: Set<u32>) -> Set<Seq<char>> {
    numbers.map(|i: u32| paths[i as int]@)
}

/// The sets of a table by the paths of the derivations in the graph.
spec fn table(paths: Seq<DrvPath>, index: Map<Seq<char>, u32>, rows: Seq<Set<u32>>) -> Map<
    Seq<char>,
    Set<Seq<char>>,
> {
    Map::new(
        |path: Seq<char>| index.contains_key(path),
        |path: Seq<char>| named(paths, rows[index[path] as int]),
    )
}

impl View for DrvGraph {
    type V = GraphModel;

    closed spec fn view(&self) -> GraphModel {
        let paths = self.drv_paths@;
        let index = self.index();
        GraphModel {
            drvs: Map::new(
                |path: Seq<char>| index.contains_key(path),
                |path: Seq<char>| self.drvs@[index[path] as int]@,
            ),
            dependencies: table(paths, index, search::sets(self.drv_dependencies@)),
            dependants: table(paths, index, search::sets(self.drv_dependants@)),
            rec_dependencies: table(
                paths,
                index,
                search::sets(self.drv_recursive_dependencies@),
            ),
            rec_dependants: table(paths, index, search::sets(self.drv_recursive_dependants@)),
        }
    }
}

/// Whether no two paths are the same.
spec fn distinct(paths: Seq<DrvPath>) -> bool {
    forall|i: int, j: int|
        #![trigger paths[i], paths[j]]
        0 <= i < j < paths.len() ==> paths[i]@ != paths[j]@
}

impl DrvGraph {
    /// The numbers of the derivations in the graph.
    spec fn index(&self) -> Map<Seq<char>, u32> {
        fx::index_entries(self.idx_by_drv_path)
    }

    /// Whether the derivation with a number is in the graph.
    spec fn live(&self, i: u32) -> bool {
        i < self.drv_paths@.len() && self.index().contains_key(self.drv_paths@[i as int]@)
    }

    /// What holds of the parts of a graph taken together.
    pub closed spec fn wf(&self) -> bool {
        let n = self.drv_paths@.len();
        let dependencies = search::sets(self.drv_dependencies@);
        let dependants = search::sets(self.drv_dependants@);
        &&& n <= 0x1_0000_0000
        &&& self.drvs@.len() == n
        &&& self.drv_dependencies@.len() == n
        &&& self.drv_dependants@.len() == n
        &&& self.drv_recursive_dependencies@.len() == n
        &&& self.drv_recursive_dependants@.len() == n
        &&& distinct(self.drv_paths@)
        &&& forall|i: int| 0 <= i < n ==> (#[trigger] self.drvs@[i])@.path == self.drv_paths@[i]@
        &&& forall|path: Seq<char>| #[trigger]
            self.index().contains_key(path) ==> self.index()[path] < n
                && self.drv_paths@[self.index()[path] as int]@ == path
        &&& search::inside(dependencies)
        &&& search::inside(dependants)
        &&& search::inside(search::sets(self.drv_recursive_dependencies@))
        &&& search::inside(search::sets(self.drv_recursive_dependants@))
        &&& forall|i: u32, j: u32|
            self.live(i) && #[trigger] dependencies[i as int].contains(j) ==> self.live(j)
                && dependants[j as int].contains(i)
        &&& forall|i: u32, j: u32|
            self.live(i) && #[trigger] dependants[i as int].contains(j) ==> self.live(j)
                && dependencies[j as int].contains(i)
    }
}

/// A path is among the paths of a set of numbers if its own number is in the set.
proof fn lemma_named(paths: Seq<DrvPath>, numbers: Set<u32>, i: u32)
    requires
        distinct(paths),
        i < paths.len(),
        forall|j: u32| #[trigger] numbers.contains(j) ==> j < paths.len(),
    ensures
        named(paths, numbers).contains(paths[i as int]@) == numbers.contains(i),
{
    let name = |i: u32| paths[i as int]@;
    if numbers.contains(i) {
        assert(name(i) == paths[i as int]@);
    }
    if named(paths, numbers).contains(paths[i as int]@) {
        let j = choose|j: u32| #[trigger] numbers.contains(j) && name(j) == paths[i as int]@;
        assert(paths[j as int]@ == paths[i as int]@);
        if j < i {
            assert(paths[j as int]@ != paths[i as int]@);
        } else if i < j {
            assert(paths[i as int]@ != paths[j as int]@);
        }
    }
}

/// Only paths of numbers are named.
proof fn lemma_named_has_number(paths: Seq<DrvPath>, numbers: Set<u32>, path: Seq<char>) -> (i: u32)
    requires
        named(paths, numbers).contains(path),
    ensures
        numbers.contains(i),
        paths[i as int]@ == path,
{
    let name = |i: u32| paths[i as int]@;
    choose|j: u32| #[trigger] numbers.contains(j) && name(j) == path
}

/// There are as many paths as numbers.
proof fn lemma_named_len(paths: Seq<DrvPath>, numbers: Set<u32>)
    requires
        distinct(paths),
        forall|j: u32| #[trigger] numbers.contains(j) ==> j < paths.len(),
    ensures
        named(paths, numbers).len() == numbers.len(),
        named(paths, numbers).finite(),
{
    let name = |i: u32| paths[i as int]@;
    search::lemma_visited_is_small(numbers, paths.len());
    assert(vstd::relations::injective_on(name, numbers)) by {
        assert forall|a: u32, b: u32|
            numbers.contains(a) && numbers.contains(b) && #[trigger] name(a) == #[trigger] name(
                b,
            ) implies a == b by {
            if a < b {
                assert(paths[a as int]@ != paths[b as int]@);
            } else if b < a {
                assert(paths[b as int]@ != paths[a as int]@);
            }
        }
    }
    vstd::set_lib::lemma_map_size(numbers, named(paths, numbers), name);
    numbers.lemma_map_finite(name);
}

/// Takes `gone` out of the given rows of a table.
fn drop_from_rows(rows: &mut Vec<FxHashSet<u32>>, which: &Vec<u32>, gone: u32)
    requires
        forall|k: int| 0 <= k < which@.len() ==> (#[trigger] which@[k]) < old(rows)@.len(),
    ensures
        final(rows)@.len() == old(rows)@.len(),
        forall|j: int|
            0 <= j < old(rows)@.len() ==> (#[trigger] final(rows)@[j])@ == if which@.contains(
                j as u32,
            ) && j <= u32::MAX {
                old(rows)@[j]@.remove(gone)
            } else {
                old(rows)@[j]@
            },
{
    for i in 0..which.len()
        invariant
            forall|k: int| 0 <= k < which@.len() ==> (#[trigger] which@[k]) < rows@.len(),
            rows@.len() == old(rows)@.len(),
            forall|j: int|
                0 <= j < rows@.len() ==> (#[trigger] rows@[j])@ == if j <= u32::MAX && which@.take(
                    i as int,
                ).contains(j as u32) {
                    old(rows)@[j]@.remove(gone)
                } else {
                    old(rows)@[j]@
                },
    {
        let ghost before = rows@;
        let row: usize = which[i] as usize;
        fx::set_remove(&mut rows[row], gone);
        proof {
            let taken = which@.take(i as int);
            assert(which@.take(i + 1) =~= taken.push(which@[i as int]));
            assert forall|j: u32| which@.take(i + 1).contains(j) == (taken.contains(j) || j
                == which@[i as int]) by {
                if taken.contains(j) {
                    let k = taken.index_of(j);
                    assert(which@.take(i + 1)[k] == j);
                }
                assert(which@.take(i + 1)[i as int] == which@[i as int]);
            }
            assert forall|j: int| 0 <= j < rows@.len() implies (#[trigger] rows@[j])@ == if j
                <= u32::MAX && which@.take(i + 1).contains(j as u32) {
                old(rows)@[j]@.remove(gone)
            } else {
                old(rows)@[j]@
            } by {
                assert(before[j]@ == if j <= u32::MAX && taken.contains(j as u32) {
                    old(rows)@[j]@.remove(gone)
                } else {
                    old(rows)@[j]@
                });
                if j == row {
                    assert(rows@[j]@ =~= old(rows)@[j]@.remove(gone));
                } else {
                    assert(rows@[j] == before[j]);
                }
            }
        }
    }
    assert(which@.take(which@.len() as int) =~= which@);
}

/// Whether `after` is `before` with `gone` taken out of the rows that the row of `gone` in
/// `mirror` names.
spec fn dropped(
    before: Seq<Set<u32>>,
    after: Seq<Set<u32>>,
    mirror: Seq<Set<u32>>,
    gone: u32,
) -> bool {
    &&& after.len() == before.len()
    &&& forall|j: u32|
        j < before.len() ==> #[trigger] after[j as int] == if mirror[gone as int].contains(j) {
            before[j as int].remove(gone)
        } else {
            before[j as int]
        }
}

/// What taking a number out of rows means for the paths.
proof fn lemma_dropped(
    paths: Seq<DrvPath>,
    before: Seq<Set<u32>>,
    after: Seq<Set<u32>>,
    mirror: Seq<Set<u32>>,
    gone: u32,
    i: u32,
)
    requires
        distinct(paths),
        before.len() == paths.len(),
        mirror.len() == paths.len(),
        search::inside(before),
        search::inside(mirror),
        gone < paths.len(),
        i < paths.len(),
        dropped(before, after, mirror, gone),
    ensures
        named(paths, after[i as int]) == Set::new(
            |other: Seq<char>|
                named(paths, before[i as int]).contains(other) && !(other == paths[gone as int]@
                    && named(paths, mirror[gone as int]).contains(paths[i as int]@)),
        ),
        search::inside(after),
{
    lemma_named(paths, mirror[gone as int], i);
    let then = named(paths, after[i as int]);
    let now = Set::new(
        |other: Seq<char>|
            named(paths, before[i as int]).contains(other) && !(other == paths[gone as int]@
                && named(paths, mirror[gone as int]).contains(paths[i as int]@)),
    );
    assert forall|other: Seq<char>| then.contains(other) == now.contains(other) by {
        if then.contains(other) {
            let j = lemma_named_has_number(paths, after[i as int], other);
            assert(before[i as int].contains(j));
            lemma_named(paths, before[i as int], j);
            if other == paths[gone as int]@ {
                lemma_named(paths, after[i as int], gone);
            }
        }
        if now.contains(other) {
            let j = lemma_named_has_number(paths, before[i as int], other);
            assert(after[i as int].contains(j));
            lemma_named(paths, after[i as int], j);
        }
    }
    assert(then =~= now);
}

impl DrvGraph {
    /// The number of a derivation in the graph.
    fn number(&self, drv_path: &DrvPath) -> (idx: u32)
        requires
            self.wf(),
            self@.has(drv_path@),
        ensures
            idx == self.index()[drv_path@],
            self.drv_paths@[idx as int]@ == drv_path@,
            self.live(idx),
    {
        match fx::index_get(&self.idx_by_drv_path, drv_path.as_str()) {
            Some(idx) => idx,
            None => 0,
        }
    }

    /// Takes a derivation out of the graph.
    pub fn remove(&mut self, drv_path: &DrvPath)
        requires
            old(self).wf(),
            old(self)@.has(drv_path@),
        ensures
            final(self).wf(),
            final(self)@ == old(self)@.without(Set::empty().insert(drv_path@)),
            final(self)@.drvs == old(self)@.drvs.remove(drv_path@),
            forall|path: Seq<char>| #[trigger]
                final(self)@.drvs.contains_key(path) ==> final(self)@.dependencies[path] == old(
                    self,
                )@.dependencies[path].remove(drv_path@) && final(self)@.dependants[path] == old(
                    self,
                )@.dependants[path].remove(drv_path@),
    {
        let ghost before = self@;
        self.take_out(drv_path);
        proof {
            assert(self@.drvs =~= before.drvs.remove(drv_path@));
            assert forall|path: Seq<char>| #[trigger] self@.drvs.contains_key(path) implies self@.dependencies[path]
                == before.dependencies[path].remove(drv_path@) && self@.dependants[path]
                == before.dependants[path].remove(drv_path@) by {
                assert(self@.dependencies[path] =~= before.dependencies[path].remove(drv_path@));
                assert(self@.dependants[path] =~= before.dependants[path].remove(drv_path@));
            }
        }
    }

    fn take_out(&mut self, drv_path: &DrvPath)
        requires
            old(self).wf(),
            old(self)@.has(drv_path@),
        ensures
            final(self).wf(),
            final(self).drv_paths == old(self).drv_paths,
            final(self)@ == old(self)@.without(Set::empty().insert(drv_path@)),
    {
        let ghost before = *self;
        let idx = self.number(drv_path);
        let i: usize = idx as usize;
        let dependants = fx::set_items(&self.drv_dependants[i]);
        let dependencies = fx::set_items(&self.drv_dependencies[i]);
        let rec_dependants = fx::set_items(&self.drv_recursive_dependants[i]);
        let rec_dependencies = fx::set_items(&self.drv_recursive_dependencies[i]);
        proof {
            let row = |rows: Seq<FxHashSet<u32>>| search::sets(rows)[idx as int];
            assert(row(self.drv_dependants@) == self.drv_dependants@[idx as int]@);
            assert(row(self.drv_dependencies@) == self.drv_dependencies@[idx as int]@);
            assert(row(self.drv_recursive_dependants@) == self.drv_recursive_dependants@[idx as int]@);
            assert(row(self.drv_recursive_dependencies@)
                == self.drv_recursive_dependencies@[idx as int]@);
            lemma_items_inside(search::sets(self.drv_dependants@), idx, dependants@);
            lemma_items_inside(search::sets(self.drv_dependencies@), idx, dependencies@);
            lemma_items_inside(search::sets(self.drv_recursive_dependants@), idx, rec_dependants@);
            lemma_items_inside(
                search::sets(self.drv_recursive_dependencies@),
                idx,
                rec_dependencies@,
            );
        }
        fx::index_remove(&mut self.idx_by_drv_path, drv_path.as_str());
        drop_from_rows(&mut self.drv_dependencies, &dependants, idx);
        drop_from_rows(&mut self.drv_dependants, &dependencies, idx);
        drop_from_rows(&mut self.drv_recursive_dependencies, &rec_dependants, idx);
        drop_from_rows(&mut self.drv_recursive_dependants, &rec_dependencies, idx);
        proof {
            lemma_rows_dropped(
                before.drv_dependencies@,
                self.drv_dependencies@,
                before.drv_dependants@,
                dependants@,
                idx,
            );
            lemma_rows_dropped(
                before.drv_dependants@,
                self.drv_dependants@,
                before.drv_dependencies@,
                dependencies@,
                idx,
            );
            lemma_rows_dropped(
                before.drv_recursive_dependencies@,
                self.drv_recursive_dependencies@,
                before.drv_recursive_dependants@,
                rec_dependants@,
                idx,
            );
            lemma_rows_dropped(
                before.drv_recursive_dependants@,
                self.drv_recursive_dependants@,
                before.drv_recursive_dependencies@,
                rec_dependencies@,
                idx,
            );
            Self::lemma_removed(before, *self, idx);
        }
    }

    /// Takes everything that waits for a derivation out of the graph.
    pub fn remove_recursive_dependants(&mut self, drv_path: &DrvPath)
        requires
            old(self).wf(),
            old(self)@.has(drv_path@),
            old(self)@.rec_dependants[drv_path@].subset_of(old(self)@.drvs.dom()),
        ensures
            final(self).wf(),
            final(self)@ == old(self)@.without(old(self)@.rec_dependants[drv_path@]),
            forall|path: Seq<char>| #[trigger]
                final(self)@.drvs.contains_key(path) == (old(self)@.drvs.contains_key(path) && !old(
                    self,
                )@.rec_dependants[drv_path@].contains(path)),
    {
        let ghost before = *self;
        let idx = self.number(drv_path);
        let i: usize = idx as usize;
        let dependants = fx::set_items(&self.drv_recursive_dependants[i]);
        let ghost paths = self.drv_paths@;
        let ghost row = search::sets(self.drv_recursive_dependants@)[idx as int];
        proof {
            assert(row == self.drv_recursive_dependants@[idx as int]@);
            lemma_items_inside(
                search::sets(self.drv_recursive_dependants@),
                idx,
                dependants@,
            );
            assert(named(paths, dependants@.take(0).to_set()) =~= Set::<Seq<char>>::empty());
            assert(before@.without(Set::empty()) =~= before@) by {
                graph_laws::lemma_nothing_removed(before@);
            }
        }
        for k in 0..dependants.len()
            invariant
                self.wf(),
                paths == before.drv_paths@,
                self.drv_paths@ == paths,
                before.wf(),
                before@.has(drv_path@),
                before@.rec_dependants[drv_path@] == named(paths, row),
                before@.rec_dependants[drv_path@].subset_of(before@.drvs.dom()),
                dependants@.to_set() == row,
                dependants@.no_duplicates(),
                forall|j: int| 0 <= j < dependants@.len() ==> (#[trigger] dependants@[j]) < paths.len(),
                self@ == before@.without(named(paths, dependants@.take(k as int).to_set())),
        {
            let p = self.drv_paths[dependants[k] as usize].clone();
            let ghost done = dependants@.take(k as int).to_set();
            proof {
                let x = dependants@[k as int];
                assert(dependants@.to_set().contains(x));
                lemma_row_named(before, row, x);
                assert(before@.has(p@));
                assert forall|j: u32| #[trigger] done.contains(j) implies j < paths.len() by {
                    let m = dependants@.take(k as int).index_of(j);
                    assert(dependants@[m] == j);
                }
                assert(!done.contains(x)) by {
                    if done.contains(x) {
                        let m = dependants@.take(k as int).index_of(x);
                        assert(dependants@[m] == x);
                    }
                }
                lemma_named(paths, done, x);
                assert(self@.has(p@));
            }
            self.take_out(&p);
            proof {
                let x = dependants@[k as int];
                let only = Set::<Seq<char>>::empty().insert(p@);
                graph_laws::law_removals_add_up(before@, named(paths, done), only);
                let more = dependants@.take(k + 1).to_set();
                assert(more =~= done.insert(x)) by {
                    assert(dependants@.take(k + 1) =~= dependants@.take(k as int).push(x));
                    assert forall|j: u32| more.contains(j) == done.insert(x).contains(j) by {
                        if more.contains(j) {
                            let m = dependants@.take(k + 1).index_of(j);
                            if m < k {
                                assert(dependants@.take(k as int)[m] == j);
                            }
                        }
                        if done.contains(j) {
                            let m = dependants@.take(k as int).index_of(j);
                            assert(dependants@.take(k + 1)[m] == j);
                        }
                        assert(dependants@.take(k + 1)[k as int] == x);
                    }
                }
                assert(named(paths, more) =~= named(paths, done).union(only)) by {
                    lemma_named_insert(paths, done, x);
                }
            }
        }
        assert(dependants@.take(dependants@.len() as int) =~= dependants@);
    }

    /// Whether everything that waits for a derivation is in the graph.
    pub fn recursive_dependants_in_graph(&self, drv_path: &DrvPath) -> (all: bool)
        requires
            self.wf(),
            self@.has(drv_path@),
        ensures
            all == self@.rec_dependants[drv_path@].subset_of(self@.drvs.dom()),
    {
        let idx = self.number(drv_path);
        let dependants = fx::set_items(&self.drv_recursive_dependants[idx as usize]);
        let ghost paths = self.drv_paths@;
        let ghost row = search::sets(self.drv_recursive_dependants@)[idx as int];
        proof {
            lemma_items_inside(
                search::sets(self.drv_recursive_dependants@),
                idx,
                dependants@,
            );
        }
        for k in 0..dependants.len()
            invariant
                self.wf(),
                paths == self.drv_paths@,
                dependants@.to_set() == row,
                self@.rec_dependants[drv_path@] == named(paths, row),
                forall|j: int| 0 <= j < dependants@.len() ==> (#[trigger] dependants@[j]) < paths.len(),
                forall|j: int|
                    0 <= j < k ==> self@.has(paths[(#[trigger] dependants@[j]) as int]@),
        {
            let x: u32 = dependants[k];
            if !self.contains(&self.drv_paths[x as usize]) {
                proof {
                    assert(dependants@.to_set().contains(x));
                    lemma_row_named(*self, row, x);
                }
                return false;
            }
        }
        assert forall|path: Seq<char>| named(paths, row).contains(path) implies self@.drvs.dom().contains(
        path) by {
            let j = lemma_named_has_number(paths, row, path);
            assert(dependants@.to_set().contains(j));
            let m = dependants@.index_of(j);
            assert(dependants@[m] == j);
        }
        true
    }

    /// The number of derivations in the graph.
    pub fn len(&self) -> (n: usize)
        requires
            self.wf(),
        ensures
            n == self@.drvs.dom().len(),
            self@.drvs.dom().finite(),
    {
        proof {
            self.lemma_live_is_small();
        }
        fx::index_len(&self.idx_by_drv_path)
    }

    /// The derivations in the graph, each once. Their order is left open.
    pub fn drv_paths(&self) -> (paths: Vec<DrvPath>)
        requires
            self.wf(),
        ensures
            paths.deep_view().no_duplicates(),
            paths.deep_view().to_set() == self@.drvs.dom(),
    {
        let keys = fx::index_keys(&self.idx_by_drv_path);
        let mut paths: Vec<DrvPath> = Vec::new();
        for i in 0..keys.len()
            invariant
                paths.deep_view() == keys.deep_view().take(i as int),
        {
            let ghost before = paths.deep_view();
            paths.push(DrvPath(keys[i].clone()));
            assert(paths.deep_view() =~= before.push(keys@[i as int]@));
            assert(keys.deep_view().take(i + 1) =~= before.push(keys@[i as int]@));
        }
        assert(keys.deep_view().take(keys.len() as int) =~= keys.deep_view());
        assert(self@.drvs.dom() =~= self.index().dom());
        paths
    }

    /// Whether a derivation is in the graph.
    pub fn contains(&self, drv_path: &DrvPath) -> (has: bool)
        ensures
            has == self@.has(drv_path@),
            has == self@.drvs.contains_key(drv_path@),
    {
        fx::index_get(&self.idx_by_drv_path, drv_path.as_str()).is_some()
    }

    /// A derivation in the graph.
    pub fn drv(&self, drv_path: &DrvPath) -> (drv: &Derivation)
        requires
            self.wf(),
            self@.has(drv_path@),
        ensures
            drv@ == self@.drvs[drv_path@],
            drv@.path == drv_path@,
    {
        let idx = self.number(drv_path);
        &self.drvs[idx as usize]
    }

    /// Whether a derivation waits for no other.
    pub fn has_no_dependencies(&self, drv_path: &DrvPath) -> (none: bool)
        requires
            self.wf(),
            self@.has(drv_path@),
        ensures
            none == (self@.dependencies[drv_path@] == Set::<Seq<char>>::empty()),
    {
        let idx = self.number(drv_path);
        proof {
            let row = search::sets(self.drv_dependencies@)[idx as int];
            let names = named(self.drv_paths@, row);
            assert(names == self@.dependencies[drv_path@]);
            if row == Set::<u32>::empty() {
                assert(names =~= Set::empty());
            } else {
                if names == Set::<Seq<char>>::empty() {
                    assert forall|j: u32| !row.contains(j) by {
                        if row.contains(j) {
                            lemma_named(self.drv_paths@, row, j);
                        }
                    }
                    assert(row =~= Set::empty());
                }
            }
        }
        self.drv_dependencies[idx as usize].is_empty()
    }

    /// How many derivations wait for one, directly or through others.
    pub fn recursive_dependant_count(&self, drv_path: &DrvPath) -> (count: usize)
        requires
            self.wf(),
            self@.has(drv_path@),
        ensures
            count == self@.rec_dependants[drv_path@].len(),
            self@.rec_dependants[drv_path@].finite(),
    {
        let idx = self.number(drv_path);
        proof {
            let rows = search::sets(self.drv_recursive_dependants@);
            assert forall|j: u32| #[trigger] rows[idx as int].contains(j) implies j
                < self.drv_paths@.len() by {}
            lemma_named_len(self.drv_paths@, rows[idx as int]);
        }
        fx::set_len(&self.drv_recursive_dependants[idx as usize])
    }

    /// Whether both derivations are in the graph and the first waits for the other, directly or
    /// through others.
    pub fn depends_on(&self, drv_path: &DrvPath, other_drv_path: &DrvPath) -> (depends: bool)
        requires
            self.wf(),
        ensures
            depends == self@.depends(drv_path@, other_drv_path@),
            depends == (self@.drvs.contains_key(drv_path@) && self@.drvs.contains_key(
                other_drv_path@,
            ) && self@.rec_dependencies[drv_path@].contains(other_drv_path@)),
    {
        let idx = match fx::index_get(&self.idx_by_drv_path, drv_path.as_str()) {
            Some(idx) => idx,
            None => {
                return false;
            },
        };
        let other_idx = match fx::index_get(&self.idx_by_drv_path, other_drv_path.as_str()) {
            Some(other_idx) => other_idx,
            None => {
                return false;
            },
        };
        proof {
            assert(self.index().contains_key(drv_path@));
            assert(self.index().contains_key(other_drv_path@));
            let rows = search::sets(self.drv_recursive_dependencies@);
            assert forall|j: u32| #[trigger] rows[idx as int].contains(j) implies j
                < self.drv_paths@.len() by {}
            lemma_named(self.drv_paths@, rows[idx as int], other_idx);
        }
        fx::set_contains(&self.drv_recursive_dependencies[idx as usize], other_idx)
    }

    /// What a graph notes, it notes of its own derivations.
    pub proof fn lemma_tables(&self)
        ensures
            self@.dependencies.dom() == self@.drvs.dom(),
            self@.dependants.dom() == self@.drvs.dom(),
            self@.rec_dependencies.dom() == self@.drvs.dom(),
            self@.rec_dependants.dom() == self@.drvs.dom(),
    {
        assert(self@.dependencies.dom() =~= self@.drvs.dom());
        assert(self@.dependants.dom() =~= self@.drvs.dom());
        assert(self@.rec_dependencies.dom() =~= self@.drvs.dom());
        assert(self@.rec_dependants.dom() =~= self@.drvs.dom());
    }

    proof fn lemma_live_is_small(&self)
        requires
            self.wf(),
        ensures
            self@.drvs.dom() == self.index().dom(),
            self@.drvs.dom().finite(),
    {
        let all = self.drv_paths@.map_values(|path: DrvPath| path@).to_set();
        assert(self@.drvs.dom() =~= self.index().dom());
        assert(self@.drvs.dom().subset_of(all)) by {
            assert forall|path: Seq<char>| self.index().contains_key(path) implies all.contains(
                path,
            ) by {
                assert(self.drv_paths@.map_values(|path: DrvPath| path@)[self.index()[path] as int]
                    == path);
            }
        }
        vstd::seq_lib::seq_to_set_is_finite(self.drv_paths@.map_values(|path: DrvPath| path@));
        vstd::set_lib::lemma_set_subset_finite(all, self@.drvs.dom());
    }

    /// A graph from which one number was taken out of all tables.
    proof fn lemma_removed(before: DrvGraph, after: DrvGraph, gone: u32)
        requires
            before.wf(),
            before.live(gone),
            after.drv_paths == before.drv_paths,
            after.drvs == before.drvs,
            after.index() == before.index().remove(before.drv_paths@[gone as int]@),
            dropped(
                search::sets(before.drv_dependencies@),
                search::sets(after.drv_dependencies@),
                search::sets(before.drv_dependants@),
                gone,
            ),
            dropped(
                search::sets(before.drv_dependants@),
                search::sets(after.drv_dependants@),
                search::sets(before.drv_dependencies@),
                gone,
            ),
            dropped(
                search::sets(before.drv_recursive_dependencies@),
                search::sets(after.drv_recursive_dependencies@),
                search::sets(before.drv_recursive_dependants@),
                gone,
            ),
            dropped(
                search::sets(before.drv_recursive_dependants@),
                search::sets(after.drv_recursive_dependants@),
                search::sets(before.drv_recursive_dependencies@),
                gone,
            ),
        ensures
            after.wf(),
            after@ == before@.without(Set::empty().insert(before.drv_paths@[gone as int]@)),
    {
        let paths = before.drv_paths@;
        let path = paths[gone as int]@;
        let only = Set::<Seq<char>>::empty().insert(path);
        let (d0, d1) = (search::sets(before.drv_dependencies@), search::sets(after.drv_dependencies@));
        let (e0, e1) = (search::sets(before.drv_dependants@), search::sets(after.drv_dependants@));
        let (r0, r1) = (
            search::sets(before.drv_recursive_dependencies@),
            search::sets(after.drv_recursive_dependencies@),
        );
        let (s0, s1) = (
            search::sets(before.drv_recursive_dependants@),
            search::sets(after.drv_recursive_dependants@),
        );
        assert(before.index()[path] == gone) by {
            let other = before.index()[path];
            if other < gone {
                assert(paths[other as int]@ != paths[gone as int]@);
            } else if gone < other {
                assert(paths[gone as int]@ != paths[other as int]@);
            }
        }
        assert forall|i: u32| #[trigger] after.live(i) == (before.live(i) && i != gone) by {
            if i < gone {
                assert(i < paths.len() ==> paths[i as int]@ != paths[gone as int]@);
            } else if gone < i && i < paths.len() {
                assert(paths[gone as int]@ != paths[i as int]@);
            }
        }
        lemma_dropped(paths, d0, d1, e0, gone, gone);
        lemma_dropped(paths, e0, e1, d0, gone, gone);
        lemma_dropped(paths, r0, r1, s0, gone, gone);
        lemma_dropped(paths, s0, s1, r0, gone, gone);
        assert forall|i: u32, j: u32|
            after.live(i) && #[trigger] d1[i as int].contains(j) implies after.live(j)
            && e1[j as int].contains(i) by {
            assert(before.live(i) && d0[i as int].contains(j));
            assert(e0[j as int].contains(i));
        }
        assert forall|i: u32, j: u32|
            after.live(i) && #[trigger] e1[i as int].contains(j) implies after.live(j)
            && d1[j as int].contains(i) by {
            assert(before.live(i) && e0[i as int].contains(j));
            assert(d0[j as int].contains(i));
        }
        assert(after.wf());
        let then = before@.without(only);
        assert forall|p: Seq<char>| #[trigger] after.index().contains_key(p) implies {
            &&& after@.dependencies[p] == then.dependencies[p]
            &&& after@.dependants[p] == then.dependants[p]
            &&& after@.rec_dependencies[p] == then.rec_dependencies[p]
            &&& after@.rec_dependants[p] == then.rec_dependants[p]
        } by {
            let i = before.index()[p];
            assert(before.live(i));
            lemma_dropped(paths, d0, d1, e0, gone, i);
            lemma_dropped(paths, e0, e1, d0, gone, i);
            lemma_dropped(paths, r0, r1, s0, gone, i);
            lemma_dropped(paths, s0, s1, r0, gone, i);
            lemma_named(paths, d0[i as int], gone);
            lemma_named(paths, e0[gone as int], i);
            lemma_named(paths, e0[i as int], gone);
            lemma_named(paths, d0[gone as int], i);
            assert(after@.dependencies[p] =~= then.dependencies[p]);
            assert(after@.dependants[p] =~= then.dependants[p]);
            assert(after@.rec_dependencies[p] =~= then.rec_dependencies[p]);
            assert(after@.rec_dependants[p] =~= then.rec_dependants[p]);
        }
        assert(after@.drvs =~= then.drvs);
        assert(after@.dependencies =~= then.dependencies);
        assert(after@.dependants =~= then.dependants);
        assert(after@.rec_dependencies =~= then.rec_dependencies);
        assert(after@.rec_dependants =~= then.rec_dependants);
    }
}

/// A number in a set names its path among those of the set.
proof fn lemma_row_named(graph: DrvGraph, row: Set<u32>, x: u32)
    requires
        row.contains(x),
    ensures
        named(graph.drv_paths@, row).contains(graph.drv_paths@[x as int]@),
{
    let name = |i: u32| graph.drv_paths@[i as int]@;
    assert(name(x) == graph.drv_paths@[x as int]@);
}

/// One number more names one path more.
proof fn lemma_named_insert(paths: Seq<DrvPath>, numbers: Set<u32>, x: u32)
    ensures
        named(paths, numbers.insert(x)) == named(paths, numbers).union(
            Set::empty().insert(paths[x as int]@),
        ),
{
    let name = |i: u32| paths[i as int]@;
    let more = named(paths, numbers.insert(x));
    let both = named(paths, numbers).union(Set::empty().insert(paths[x as int]@));
    assert forall|path: Seq<char>| more.contains(path) == both.contains(path) by {
        if more.contains(path) {
            let j = lemma_named_has_number(paths, numbers.insert(x), path);
            if j != x {
                assert(numbers.contains(j) && name(j) == path);
            }
        }
        if named(paths, numbers).contains(path) {
            let j = lemma_named_has_number(paths, numbers, path);
            assert(numbers.insert(x).contains(j) && name(j) == path);
        }
        assert(numbers.insert(x).contains(x) && name(x) == paths[x as int]@);
    }
    assert(more =~= both);
}

proof fn lemma_items_inside(rows: Seq<Set<u32>>, row: u32, items: Seq<u32>)
    requires
        search::inside(rows),
        row < rows.len(),
        items.to_set() == rows[row as int],
    ensures
        forall|k: int| 0 <= k < items.len() ==> (#[trigger] items[k]) < rows.len(),
{
    assert forall|k: int| 0 <= k < items.len() implies (#[trigger] items[k]) < rows.len() by {
        assert(items.contains(items[k]));
        assert(rows[row as int].contains(items[k]));
    }
}

proof fn lemma_rows_dropped(
    before: Seq<FxHashSet<u32>>,
    after: Seq<FxHashSet<u32>>,
    mirror: Seq<FxHashSet<u32>>,
    which: Seq<u32>,
    gone: u32,
)
    requires
        after.len() == before.len(),
        gone < mirror.len(),
        which.to_set() == mirror[gone as int]@,
        forall|j: int|
            0 <= j < before.len() ==> (#[trigger] after[j])@ == if which.contains(j as u32) && j
                <= u32::MAX {
                before[j]@.remove(gone)
            } else {
                before[j]@
            },
    ensures
        dropped(search::sets(before), search::sets(after), search::sets(mirror), gone),
{
    assert forall|j: u32| j < before.len() implies #[trigger] search::sets(after)[j as int] == if search::sets(
        mirror,
    )[gone as int].contains(j) {
        search::sets(before)[j as int].remove(gone)
    } else {
        search::sets(before)[j as int]
    } by {
        assert(after[j as int]@ == if which.contains(j) {
            before[j as int]@.remove(gone)
        } else {
            before[j as int]@
        });
        assert(which.to_set().contains(j) == which.contains(j));
    }
}

/// Derivations stand under their own paths.
proof fn lemma_by_path(drvs: Seq<DerivationModel>)
    ensures
        forall|path: Seq<char>| #[trigger]
            by_path(drvs).contains_key(path) ==> by_path(drvs)[path].path == path,
    decreases drvs.len(),
{
    if drvs.len() > 0 {
        lemma_by_path(drvs.drop_last());
        let rest = by_path(drvs.drop_last());
        assert forall|path: Seq<char>| #[trigger] by_path(drvs).contains_key(path) implies by_path(
            drvs,
        )[path].path == path by {
            if path != drvs.last().path {
                assert(rest.contains_key(path));
            }
        }
    }
}

/// The derivations of a vector by their paths.
fn collect_by_path(drvs: &Vec<Derivation>) -> (map: TextMap<Derivation>)
    ensures
        map@.map_values(|drv: Derivation| drv@) == by_path(models(drvs@)),
{
    let mut map: TextMap<Derivation> = TextMap::new();
    let ghost all = models(drvs@);
    let ghost model = |drv: Derivation| drv@;
    assert(map@.map_values(model) =~= by_path(all.take(0)));
    for i in 0..drvs.len()
        invariant
            all == models(drvs@),
            model == (|drv: Derivation| drv@),
            map@.map_values(model) == by_path(all.take(i as int)),
    {
        let ghost before = map@;
        let drv = drvs[i].clone();
        map.insert(drvs[i].path.0.clone(), drv);
        proof {
            assert(all.take(i + 1).drop_last() =~= all.take(i as int));
            assert(map@.map_values(model) =~= before.map_values(model).insert(
                all[i as int].path,
                all[i as int],
            ));
        }
    }
    assert(all.take(drvs.len() as int) =~= all);
    map
}

/// The numbers of the derivations that one needs.
spec fn numbers_needed(drv: DerivationModel, index: Map<Seq<char>, u32>) -> Set<u32> {
    Set::new(|j: u32| exists|input: Seq<char>| #[trigger] drv.needs(input) && index[input] == j)
}

/// The numbers of the derivations that `drv` needs.
fn dependencies_of(drv: &Derivation, index: &FxHashMap<String, u32>) -> (row: FxHashSet<u32>)
    requires
        forall|input: Seq<char>| #[trigger]
            drv@.needs(input) ==> fx::index_entries(*index).contains_key(input),
    ensures
        row@ == numbers_needed(drv@, fx::index_entries(*index)),
{
    let mut row: FxHashSet<u32> = FxHashSet::default();
    let ghost entries = fx::index_entries(*index);
    let ghost inputs = drv@.inputs;
    for k in 0..drv.inputs.len()
        invariant
            entries == fx::index_entries(*index),
            inputs == drv@.inputs,
            forall|input: Seq<char>| #[trigger] drv@.needs(input) ==> entries.contains_key(input),
            forall|j: u32| #[trigger]
                row@.contains(j) == exists|m: int|
                    0 <= m < k && entries[(#[trigger] inputs[m]).0] == j,
    {
        let ghost before = row@;
        assert(inputs[k as int].0 == drv.inputs@[k as int].0@);
        assert(drv@.needs(inputs[k as int].0));
        if let Some(idx) = fx::index_get(index, drv.inputs[k].0.as_str()) {
            fx::set_insert(&mut row, idx);
        }
        assert forall|j: u32| #[trigger] row@.contains(j) == exists|m: int|
            0 <= m < k + 1 && entries[(#[trigger] inputs[m]).0] == j by {
            if row@.contains(j) {
                if before.contains(j) {
                    let m = choose|m: int| 0 <= m < k && entries[(#[trigger] inputs[m]).0] == j;
                    assert(entries[inputs[m].0] == j);
                } else {
                    assert(entries[inputs[k as int].0] == j);
                }
            }
        }
    }
    assert(row@ =~= numbers_needed(drv@, entries)) by {
        assert forall|j: u32| row@.contains(j) == numbers_needed(drv@, entries).contains(j) by {
            if row@.contains(j) {
                let m = choose|m: int|
                    0 <= m < inputs.len() && entries[(#[trigger] inputs[m]).0] == j;
                assert(drv@.needs(inputs[m].0));
            }
            if numbers_needed(drv@, entries).contains(j) {
                let input = choose|input: Seq<char>| #[trigger]
                    drv@.needs(input) && entries[input] == j;
                let m = choose|m: int|
                    0 <= m < inputs.len() && (#[trigger] inputs[m]).0 == input;
                assert(entries[inputs[m].0] == j);
            }
        }
    }
    row
}

/// Whether `after` holds the steps of `rows` in the other direction.
spec fn turned(rows: Seq<Set<u32>>, after: Seq<Set<u32>>) -> bool {
    &&& after.len() == rows.len()
    &&& search::inside(after)
    &&& forall|i: u32, j: u32|
        i < rows.len() && j < rows.len() ==> #[trigger] after[j as int].contains(i)
            == rows[i as int].contains(j)
}

/// A table of the steps in the other direction.
fn turn_round(rows: &Vec<FxHashSet<u32>>) -> (after: Vec<FxHashSet<u32>>)
    requires
        search::inside(search::sets(rows@)),
        rows.len() <= 0x1_0000_0000,
    ensures
        turned(search::sets(rows@), search::sets(after@)),
{
    let ghost all = search::sets(rows@);
    let mut after: Vec<FxHashSet<u32>> = Vec::new();
    for i in 0..rows.len()
        invariant
            after.len() == i,
            forall|j: int| 0 <= j < i ==> (#[trigger] after@[j])@ == Set::<u32>::empty(),
    {
        after.push(FxHashSet::default());
    }
    for i in 0..rows.len()
        invariant
            rows.len() <= 0x1_0000_0000,
            after.len() == rows.len(),
            all == search::sets(rows@),
            search::inside(all),
            forall|j: u32, x: u32|
                j < rows.len() ==> #[trigger] after@[j as int]@.contains(x) == (x < i
                    && all[x as int].contains(j)),
    {
        let items = fx::set_items(&rows[i]);
        let number: u32 = i as u32;
        let ghost start = after@;
        proof {
            assert(all[i as int] == rows@[i as int]@);
            lemma_items_inside(all, number, items@);
        }
        for k in 0..items.len()
            invariant
                after.len() == rows.len(),
                start.len() == rows.len(),
                forall|m: int| 0 <= m < items@.len() ==> (#[trigger] items@[m]) < rows.len(),
                forall|j: u32, x: u32|
                    j < rows.len() ==> #[trigger] after@[j as int]@.contains(x) == (
                    start[j as int]@.contains(x) || (x == number && items@.take(k as int).contains(
                        j,
                    ))),
        {
            let ghost before = after@;
            let row: usize = items[k] as usize;
            fx::set_insert(&mut after[row], number);
            proof {
                let y = items@[k as int];
                let taken = items@.take(k as int);
                assert(items@.take(k + 1) =~= taken.push(y));
                assert forall|j: u32| items@.take(k + 1).contains(j) == (taken.contains(j) || j
                    == y) by {
                    if taken.contains(j) {
                        let m = taken.index_of(j);
                        assert(items@.take(k + 1)[m] == j);
                    }
                    assert(items@.take(k + 1)[k as int] == y);
                }
                assert forall|j: u32, x: u32| j < rows.len() implies #[trigger] after@[j as int]@.contains(x)
                    == (start[j as int]@.contains(x) || (x == number && items@.take(k + 1).contains(
                    j,
                ))) by {
                    assert(before[j as int]@.contains(x) == (start[j as int]@.contains(x) || (x
                        == number && taken.contains(j))));
                    if j != y {
                        assert(after@[j as int] == before[j as int]);
                    }
                }
            }
        }
        proof {
            assert(items@.take(items@.len() as int) =~= items@);
            assert forall|j: u32, x: u32| j < rows.len() implies #[trigger] after@[j as int]@.contains(x)
                == (x < i + 1 && all[x as int].contains(j)) by {
                assert(start[j as int]@.contains(x) == (x < i && all[x as int].contains(j)));
                assert(items@.contains(j) == items@.to_set().contains(j));
            }
        }
    }
    proof {
        let then = search::sets(after@);
        assert forall|j: int, x: u32| 0 <= j < then.len() && #[trigger] then[j].contains(x) implies x
            < then.len() by {
            assert(after@[(j as u32) as int]@.contains(x));
        }
        assert forall|i: u32, j: u32| i < all.len() && j < all.len() implies #[trigger] then[j as int].contains(i)
            == all[i as int].contains(j) by {
            assert(after@[j as int]@.contains(i) == (i < rows.len() && all[i as int].contains(j)));
        }
    }
    after
}

impl DrvGraph {
    /// Whether there can be a graph of the given derivations: what they need is among them, and
    /// there are no more than can be numbered.
    pub fn fits(drvs: &Vec<Derivation>) -> (fits: bool)
        ensures
            fits == (closed_under_inputs(by_path(models(drvs@))) && by_path(
                models(drvs@),
            ).dom().len() <= 0x1_0000_0000),
    {
        let ghost all = by_path(models(drvs@));
        let by_drv_path = collect_by_path(drvs);
        let n = by_drv_path.len();
        let ghost keys = by_drv_path.keys();
        assert(by_drv_path@.dom() =~= all.dom());
        if n as u64 > 0x1_0000_0000 {
            return false;
        }
        for i in 0..n
            invariant
                all == by_path(models(drvs@)),
                n == keys.len(),
                keys == by_drv_path.keys(),
                by_drv_path@.map_values(|drv: Derivation| drv@) == all,
                by_drv_path@.dom() == all.dom(),
                forall|j: int, input: Seq<char>|
                    #![trigger all[keys[j]].needs(input)]
                    0 <= j < i && all[keys[j]].needs(input) ==> all.contains_key(input),
        {
            let drv = by_drv_path.value_at(i);
            let ghost inputs = drv@.inputs;
            assert(all.contains_key(keys[i as int]) && all[keys[i as int]] == drv@);
            for k in 0..drv.inputs.len()
                invariant
                    all == by_path(models(drvs@)),
                    inputs == drv@.inputs,
                    all.contains_key(keys[i as int]),
                    all[keys[i as int]] == drv@,
                    by_drv_path@.dom() == all.dom(),
                    forall|m: int| 0 <= m < k ==> all.contains_key((#[trigger] inputs[m]).0),
            {
                assert(inputs[k as int].0 == drv.inputs@[k as int].0@);
                if !by_drv_path.contains_key(drv.inputs[k].0.as_str()) {
                    assert(all[keys[i as int]].needs(inputs[k as int].0));
                    return false;
                }
            }
        }
        assert forall|path: Seq<char>, input: Seq<char>|
            #![trigger all[path].needs(input)]
            all.contains_key(path) && all[path].needs(input) implies all.contains_key(input) by {
            assert(keys.to_set().contains(path));
            let j = keys.index_of(path);
            assert(all[keys[j]].needs(input));
        }
        true
    }

    /// The graph of the given derivations: of several with one path the last counts.
    pub fn new(drvs: Vec<Derivation>) -> (graph: Self)
        requires
            closed_under_inputs(by_path(models(drvs@))),
            by_path(models(drvs@)).dom().len() <= 0x1_0000_0000,
        ensures
            graph.wf(),
            is_graph_of(graph@, by_path(models(drvs@))),
            forall|i: int|
                0 <= i < drvs@.len() && (forall|j: int|
                    i < j < drvs@.len() ==> (#[trigger] drvs@[j])@.path != drvs@[i]@.path)
                    ==> graph@.drvs.contains_key((#[trigger] drvs@[i])@.path)
                    && graph@.drvs[drvs@[i]@.path] == drvs@[i]@,
            forall|path: Seq<char>| #[trigger]
                graph@.drvs.contains_key(path) ==> exists|i: int|
                    0 <= i < drvs@.len() && (#[trigger] drvs@[i])@.path == path,
    {
        let ghost all = by_path(models(drvs@));
        let by_drv_path = collect_by_path(&drvs);
        let ghost given = drvs@;
        proof {
            lemma_by_path(models(drvs@));
            assert(by_drv_path@.dom() =~= all.dom());
        }
        let n = by_drv_path.len();
        let ghost keys = by_drv_path.keys();
        let mut drv_paths: Vec<DrvPath> = Vec::new();
        let mut idx_by_drv_path = fx::new_index();
        let mut drvs: Vec<Derivation> = Vec::new();
        for i in 0..n
            invariant
                n == keys.len(),
                n <= 0x1_0000_0000,
                keys == by_drv_path.keys(),
                keys.no_duplicates(),
                by_drv_path@.map_values(|drv: Derivation| drv@) == all,
                forall|path: Seq<char>| #[trigger] all.contains_key(path) ==> all[path].path == path,
                drv_paths@.len() == i,
                drvs@.len() == i,
                forall|j: int|
                    0 <= j < i ==> (#[trigger] drv_paths@[j])@ == keys[j] && all.contains_key(keys[j])
                        && drvs@[j]@ == all[keys[j]],
                forall|path: Seq<char>| #[trigger]
                    fx::index_entries(idx_by_drv_path).contains_key(path) ==> fx::index_entries(
                        idx_by_drv_path,
                    )[path] < i && keys[fx::index_entries(idx_by_drv_path)[path] as int] == path,
                forall|j: int|
                    0 <= j < i ==> fx::index_entries(idx_by_drv_path).contains_key(
                        #[trigger] keys[j],
                    ),
        {
            let drv = by_drv_path.value_at(i);
            assert(all.contains_key(keys[i as int]));
            assert(all[keys[i as int]] == drv@);
            drv_paths.push(drv.path.clone());
            fx::index_insert(&mut idx_by_drv_path, drv.path.0.clone(), i as u32);
            drvs.push(drv.clone());
        }
        let mut drv_dependencies: Vec<FxHashSet<u32>> = Vec::new();
        let ghost index = fx::index_entries(idx_by_drv_path);
        proof {
            assert forall|path: Seq<char>| all.contains_key(path) implies index.contains_key(path) by {
                assert(keys.to_set().contains(path));
                let k = keys.index_of(path);
                assert(keys[k] == path);
            }
            assert forall|j: int| 0 <= j < n implies all.contains_key(#[trigger] keys[j])
                && drvs@[j]@ == all[keys[j]] by {
                assert(drv_paths@[j]@ == keys[j]);
            }
        }
        for i in 0..drvs.len()
            invariant
                drvs@.len() == n,
                n == keys.len(),
                closed_under_inputs(all),
                index == fx::index_entries(idx_by_drv_path),
                forall|path: Seq<char>| #[trigger] all.contains_key(path) ==> index.contains_key(path),
                forall|j: int|
                    0 <= j < n ==> all.contains_key(#[trigger] keys[j]) && drvs@[j]@ == all[keys[j]],
                drv_dependencies@.len() == i,
                forall|j: int|
                    0 <= j < i ==> (#[trigger] drv_dependencies@[j])@ == numbers_needed(
                        drvs@[j]@,
                        index,
                    ),
        {
            assert(all.contains_key(keys[i as int]));
            drv_dependencies.push(dependencies_of(&drvs[i], &idx_by_drv_path));
        }
        proof {
            assert forall|j: int| 0 <= j < n implies all.contains_key(#[trigger] keys[j])
                && drvs@[j]@ == all[keys[j]] && drv_paths@[j]@ == keys[j] by {
                assert(drv_paths@[j]@ == keys[j]);
            }
            lemma_numbered(
                all,
                drv_paths@,
                drvs@,
                index,
                search::sets(drv_dependencies@),
            );
        }
        let drv_dependants = turn_round(&drv_dependencies);
        let drv_recursive_dependencies = search::recursive_neighbours(&drv_dependencies);
        let drv_recursive_dependants = search::recursive_neighbours(&drv_dependants);
        let graph = DrvGraph {
            drv_paths,
            idx_by_drv_path,
            drvs,
            drv_dependencies,
            drv_dependants,
            drv_recursive_dependencies,
            drv_recursive_dependants,
        };
        proof {
            Self::lemma_new(graph, all);
            let all_models = models(given);
            assert forall|i: int|
                0 <= i < given.len() && (forall|j: int|
                    i < j < given.len() ==> (#[trigger] given[j])@.path != given[i]@.path) implies graph@.drvs.contains_key(
            (#[trigger] given[i])@.path) && graph@.drvs[given[i]@.path] == given[i]@ by {
                assert forall|j: int| i < j < all_models.len() implies (
                #[trigger] all_models[j]).path != all_models[i].path by {
                    assert(given[j]@.path != given[i]@.path);
                }
                graph_laws::law_last_derivation_with_a_path_counts(all_models, i);
            }
            assert forall|path: Seq<char>| #[trigger] graph@.drvs.contains_key(path) implies exists|
                i: int,
            | 0 <= i < given.len() && (#[trigger] given[i])@.path == path by {
                let i = graph_laws::law_derivations_come_from_what_was_given(all_models, path);
                assert(given[i]@.path == path);
            }
        }
        graph
    }
}

/// Whether numbers stand for the derivations of `all`, and the rows for what they need.
spec fn numbered(
    all: Map<Seq<char>, DerivationModel>,
    paths: Seq<DrvPath>,
    drvs: Seq<Derivation>,
    index: Map<Seq<char>, u32>,
    dependencies: Seq<Set<u32>>,
) -> bool {
    &&& paths.len() <= 0x1_0000_0000
    &&& drvs.len() == paths.len()
    &&& dependencies.len() == paths.len()
    &&& distinct(paths)
    &&& index.dom() == all.dom()
    &&& forall|path: Seq<char>| #[trigger]
        index.contains_key(path) ==> index[path] < paths.len() && paths[index[path] as int]@ == path
    &&& forall|i: int|
        0 <= i < paths.len() ==> all.contains_key((#[trigger] paths[i])@) && index[paths[i]@] == i
            && drvs[i]@ == all[paths[i]@] && drvs[i]@.path == paths[i]@
    &&& search::inside(dependencies)
    &&& forall|i: u32, j: u32|
        i < paths.len() && j < paths.len() ==> #[trigger] dependencies[i as int].contains(j)
            == all[paths[i as int]@].needs(paths[j as int]@)
}

proof fn lemma_numbered(
    all: Map<Seq<char>, DerivationModel>,
    paths: Seq<DrvPath>,
    drvs: Seq<Derivation>,
    index: Map<Seq<char>, u32>,
    dependencies: Seq<Set<u32>>,
)
    requires
        paths.len() <= 0x1_0000_0000,
        drvs.len() == paths.len(),
        dependencies.len() == paths.len(),
        closed_under_inputs(all),
        forall|path: Seq<char>| #[trigger] all.contains_key(path) ==> all[path].path == path,
        forall|path: Seq<char>| #[trigger] all.contains_key(path) ==> index.contains_key(path),
        forall|path: Seq<char>| #[trigger]
            index.contains_key(path) ==> index[path] < paths.len() && paths[index[path] as int]@
                == path,
        distinct(paths),
        forall|i: int|
            0 <= i < paths.len() ==> all.contains_key((#[trigger] paths[i])@) && drvs[i]@
                == all[paths[i]@],
        forall|i: int|
            0 <= i < paths.len() ==> #[trigger] dependencies[i] == numbers_needed(drvs[i]@, index),
    ensures
        numbered(all, paths, drvs, index, dependencies),
{
    assert forall|path: Seq<char>| index.contains_key(path) implies all.contains_key(path) by {
        assert(all.contains_key(paths[index[path] as int]@));
    }
    assert(index.dom() =~= all.dom());
    assert forall|i: int| 0 <= i < paths.len() implies index[(#[trigger] paths[i])@] == i by {
        let path = paths[i]@;
        assert(all.contains_key(path));
        let j = index[path] as int;
        assert(paths[j]@ == path);
        if i < j {
            assert(paths[i]@ != paths[j]@);
        } else if j < i {
            assert(paths[j]@ != paths[i]@);
        }
    }
    assert forall|i: int, j: u32|
        0 <= i < dependencies.len() && #[trigger] dependencies[i].contains(j) implies j
        < dependencies.len() by {
        let drv = drvs[i]@;
        assert(all.contains_key(paths[i]@));
        assert(dependencies[i] == numbers_needed(drv, index));
        let input = choose|input: Seq<char>| #[trigger] drv.needs(input) && index[input] == j;
        assert(all[paths[i]@].needs(input));
        assert(index.contains_key(input));
    }
    assert forall|i: u32, j: u32| i < paths.len() && j < paths.len() implies #[trigger] dependencies[i as int].contains(j)
        == all[paths[i as int]@].needs(paths[j as int]@) by {
        let drv = drvs[i as int]@;
        assert(all.contains_key(paths[i as int]@));
        assert(dependencies[i as int] == numbers_needed(drv, index));
        assert(index[paths[j as int]@] == j);
        if dependencies[i as int].contains(j) {
            let input = choose|input: Seq<char>| #[trigger] drv.needs(input) && index[input] == j;
            assert(all[paths[i as int]@].needs(input));
            assert(index.contains_key(input));
        }
        if drv.needs(paths[j as int]@) {
            assert(numbers_needed(drv, index).contains(j));
        }
    }
}

/// Numbers reach each other as the derivations do for which they stand.
proof fn lemma_reach(
    all: Map<Seq<char>, DerivationModel>,
    paths: Seq<DrvPath>,
    drvs: Seq<Derivation>,
    index: Map<Seq<char>, u32>,
    dependencies: Seq<Set<u32>>,
    a: u32,
    b: u32,
)
    requires
        numbered(all, paths, drvs, index, dependencies),
        closed_under_inputs(all),
        a < paths.len(),
        b < paths.len(),
    ensures
        reach::reaches(needing(all), paths[a as int]@, paths[b as int]@) == reach::reaches(
            search::edge(dependencies),
            a,
            b,
        ),
{
    let step = search::edge(dependencies);
    let named_step = needing(all);
    let there = |i: u32| i < paths.len();
    let name = |i: u32| paths[i as int]@;
    assert forall|x: u32, y: u32| there(x) && there(y) implies #[trigger] named_step(
        name(x),
        name(y),
    ) == step(x, y) by {
        assert(all.contains_key(paths[x as int]@));
        assert(dependencies[x as int].contains(y) == all[paths[x as int]@].needs(
            paths[y as int]@,
        ));
    }
    assert forall|x: u32, q: Seq<char>| there(x) && #[trigger] named_step(name(x), q) implies exists|
        y: u32,
    | #[trigger] there(y) && name(y) == q by {
        assert(all[paths[x as int]@].needs(q));
        assert(index.contains_key(q));
        assert(there(index[q]) && name(index[q]) == q);
    }
    assert forall|x: u32, y: u32| #[trigger] there(x) && #[trigger] there(y) && name(x) == name(y) implies x
        == y by {
        assert(index[paths[x as int]@] == x);
        assert(index[paths[y as int]@] == y);
    }
    reach::lemma_named(step, named_step, there, name, a, b);
}

/// What is reached along rows is a number.
proof fn lemma_reached_inside(rows: Seq<Set<u32>>, a: u32, b: u32)
    requires
        search::inside(rows),
        reach::reaches(search::edge(rows), a, b),
    ensures
        b < rows.len(),
{
    let step = search::edge(rows);
    reach::lemma_walked_back(step, a, b);
    let c = reach::lemma_first_step(reach::reversed(step), b, a);
    assert(step(c, b));
}

impl DrvGraph {
    proof fn lemma_new(graph: DrvGraph, all: Map<Seq<char>, DerivationModel>)
        requires
            closed_under_inputs(all),
            numbered(
                all,
                graph.drv_paths@,
                graph.drvs@,
                graph.index(),
                search::sets(graph.drv_dependencies@),
            ),
            turned(
                search::sets(graph.drv_dependencies@),
                search::sets(graph.drv_dependants@),
            ),
            graph.drv_recursive_dependencies@.len() == graph.drv_paths@.len(),
            graph.drv_recursive_dependants@.len() == graph.drv_paths@.len(),
            search::sound(
                search::sets(graph.drv_dependencies@),
                search::sets(graph.drv_recursive_dependencies@),
            ),
            search::sound(
                search::sets(graph.drv_dependants@),
                search::sets(graph.drv_recursive_dependants@),
            ),
            forall|i: u32|
                i < graph.drv_paths@.len() ==> #[trigger] search::complete_at(
                    search::sets(graph.drv_dependencies@),
                    search::sets(graph.drv_recursive_dependencies@),
                    i,
                ),
            forall|i: u32|
                i < graph.drv_paths@.len() ==> #[trigger] search::complete_at(
                    search::sets(graph.drv_dependants@),
                    search::sets(graph.drv_recursive_dependants@),
                    i,
                ),
        ensures
            graph.wf(),
            is_graph_of(graph@, all),
    {
        let paths = graph.drv_paths@;
        let index = graph.index();
        let d = search::sets(graph.drv_dependencies@);
        let e = search::sets(graph.drv_dependants@);
        let r = search::sets(graph.drv_recursive_dependencies@);
        let s = search::sets(graph.drv_recursive_dependants@);
        let down = search::edge(d);
        let up = search::edge(e);
        let step = needing(all);
        let back = reach::reversed(step);
        assert(up =~= reach::reversed(down)) by {
            assert forall|i: u32, j: u32| #[trigger] up(i, j) == reach::reversed(down)(i, j) by {
                if up(i, j) {
                    assert(e[i as int].contains(j));
                    assert(d[j as int].contains(i));
                }
                if down(j, i) {
                    assert(d[j as int].contains(i));
                    assert(e[i as int].contains(j));
                }
            }
        }
        assert forall|i: int, j: u32| 0 <= i < r.len() && #[trigger] r[i].contains(j) implies j
            < r.len() by {
            assert(reach::reaches(down, i as u32, j));
            lemma_reached_inside(d, i as u32, j);
        }
        assert forall|i: int, j: u32| 0 <= i < s.len() && #[trigger] s[i].contains(j) implies j
            < s.len() by {
            assert(reach::reaches(up, i as u32, j));
            lemma_reached_inside(e, i as u32, j);
        }
        assert(graph.wf());
        assert(graph@.drvs =~= all) by {
            assert(graph@.drvs.dom() =~= all.dom());
            assert forall|path: Seq<char>| all.contains_key(path) implies graph@.drvs[path]
                == all[path] by {
                assert(index.contains_key(path));
                assert(all.contains_key(paths[index[path] as int]@));
            }
        }
        assert(graph@.dependencies.dom() =~= all.dom());
        assert(graph@.dependants.dom() =~= all.dom());
        assert(graph@.rec_dependencies.dom() =~= all.dom());
        assert(graph@.rec_dependants.dom() =~= all.dom());
        assert forall|path: Seq<char>| #[trigger] all.contains_key(path) implies {
            &&& graph@.dependencies[path] == needed_by(all, path)
            &&& graph@.dependants[path] == needers_of(all, path)
            &&& needed_by(all, path).subset_of(graph@.rec_dependencies[path])
            &&& needers_of(all, path).subset_of(graph@.rec_dependants[path])
        } by {
            assert(index.contains_key(path));
            let i = index[path];
            let needed = needed_by(all, path);
            let needers = needers_of(all, path);
            assert(search::complete_at(d, r, i));
            assert(search::complete_at(e, s, i));
            assert forall|other: Seq<char>| graph@.dependencies[path].contains(other)
                == needed.contains(other) by {
                if graph@.dependencies[path].contains(other) {
                    let j = lemma_named_has_number(paths, d[i as int], other);
                    assert(d[i as int].contains(j));
                }
                if needed.contains(other) {
                    assert(all[path].needs(other));
                    assert(index.contains_key(other));
                    assert(d[i as int].contains(index[other]));
                    lemma_named(paths, d[i as int], index[other]);
                }
            }
            assert(graph@.dependencies[path] =~= needed);
            assert forall|other: Seq<char>| graph@.dependants[path].contains(other)
                == needers.contains(other) by {
                if graph@.dependants[path].contains(other) {
                    let j = lemma_named_has_number(paths, e[i as int], other);
                    assert(e[i as int].contains(j));
                    assert(d[j as int].contains(i));
                    assert(all.contains_key(paths[j as int]@));
                }
                if needers.contains(other) {
                    assert(index.contains_key(other));
                    assert(d[index[other] as int].contains(i));
                    assert(e[i as int].contains(index[other]));
                    lemma_named(paths, e[i as int], index[other]);
                }
            }
            assert(graph@.dependants[path] =~= needers);
            assert forall|other: Seq<char>| needed.contains(other) implies graph@.rec_dependencies[path].contains(other) by {
                let j = lemma_named_has_number(paths, d[i as int], other);
                lemma_named(paths, r[i as int], j);
            }
            assert forall|other: Seq<char>| needers.contains(other) implies graph@.rec_dependants[path].contains(other) by {
                let j = lemma_named_has_number(paths, e[i as int], other);
                lemma_named(paths, s[i as int], j);
            }
        }
        assert forall|path: Seq<char>, other: Seq<char>|
            all.contains_key(path) && #[trigger] graph@.rec_dependencies[path].contains(other) implies reach::reaches(
        step, path, other) by {
            assert(index.contains_key(path));
            let i = index[path];
            let j = lemma_named_has_number(paths, r[i as int], other);
            assert(r[i as int].contains(j));
            lemma_reach(all, paths, graph.drvs@, index, d, i, j);
        }
        assert forall|path: Seq<char>, other: Seq<char>|
            all.contains_key(path) && #[trigger] graph@.rec_dependants[path].contains(other) implies reach::reaches(
        step, other, path) by {
            assert(index.contains_key(path));
            let i = index[path];
            let j = lemma_named_has_number(paths, s[i as int], other);
            assert(s[i as int].contains(j));
            reach::lemma_walked_back(down, j, i);
            lemma_reach(all, paths, graph.drvs@, index, d, j, i);
        }
        assert forall|path: Seq<char>, other: Seq<char>|
            all.contains_key(path) && reach::ends(step, path) && #[trigger] reach::reaches(
                step,
                path,
                other,
            ) implies graph@.rec_dependencies[path].contains(other) by {
            assert(index.contains_key(path));
            let i = index[path];
            reach::lemma_walked_back(step, path, other);
            let last = reach::lemma_first_step(back, other, path);
            assert(step(last, other));
            assert(all[last].needs(other));
            assert(index.contains_key(other));
            let j = index[other];
            lemma_reach(all, paths, graph.drvs@, index, d, i, j);
            assert(reach::ends(down, i)) by {
                assert forall|b: u32| b == i || #[trigger] reach::reaches(down, i, b) implies !reach::reaches(
                down, b, b) by {
                    if b != i {
                        lemma_reached_inside(d, i, b);
                    }
                    lemma_reach(all, paths, graph.drvs@, index, d, i, b);
                    lemma_reach(all, paths, graph.drvs@, index, d, b, b);
                }
            }
            assert(search::complete_at(d, r, i));
            lemma_named(paths, r[i as int], j);
        }
        assert forall|path: Seq<char>, other: Seq<char>|
            all.contains_key(path) && reach::ends(back, path) && #[trigger] reach::reaches(
                step,
                other,
                path,
            ) implies graph@.rec_dependants[path].contains(other) by {
            assert(index.contains_key(path));
            let i = index[path];
            let first = reach::lemma_first_step(step, other, path);
            assert(index.contains_key(other));
            let j = index[other];
            lemma_reach(all, paths, graph.drvs@, index, d, j, i);
            reach::lemma_walked_back(down, j, i);
            assert(reach::ends(up, i)) by {
                assert forall|b: u32| b == i || #[trigger] reach::reaches(up, i, b) implies !reach::reaches(
                up, b, b) by {
                    if b != i {
                        lemma_reached_inside(e, i, b);
                    }
                    reach::lemma_walked_back(down, b, i);
                    reach::lemma_walked_back(down, b, b);
                    lemma_reach(all, paths, graph.drvs@, index, d, b, i);
                    lemma_reach(all, paths, graph.drvs@, index, d, b, b);
                    reach::lemma_walked_back(step, paths[b as int]@, path);
                    reach::lemma_walked_back(step, paths[b as int]@, paths[b as int]@);
                }
            }
            assert(search::complete_at(e, s, i));
            lemma_named(paths, s[i as int], j);
        }
    }
}

} // verus!
