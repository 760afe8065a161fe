//! The order of builds: which derivation is built next, and what the end of a build changes.

use crate::graph::{DrvGraph, GraphModel};
use crate::paths::DrvPath;
use crate::text;
use vstd::prelude::*;

verus! {

/// How a build ended.
#[derive(Debug, Clone, Copy, PartialEq, Eq, Structural)]
pub enum BuildStatus {
    Success,
    Failure,
}

/// What is to be done next.
#[derive(Debug)]
pub enum Step {
    /// There is nothing more to do.
    Finished,
    /// A derivation is to be built.
    Start(DrvPath),
    /// No build can start now, and the next one to end has to be waited for. If none is in
    /// progress, none will ever start: a limit is zero, or a circle keeps what is left waiting.
    Wait,
}

/// What is reported of a build that ended.
#[derive(Debug, Clone, Copy, PartialEq, Eq, Structural)]
pub struct Completion {
    pub status: BuildStatus,
    /// The number of builds on which a failure leaves the progress, where the builds go on.
    pub new_length: Option<usize>,
}

/// The state of the builds.
#[verifier::ext_equal]
pub struct SchedulerModel {
    /// What is still waited for.
    pub graph: GraphModel,
    /// The derivations that were not started.
    pub remaining: Set<Seq<char>>,
    /// The builds in progress that may run anywhere.
    pub building: Set<Seq<char>>,
    /// The builds in progress that run on this machine.
    pub building_local: Set<Seq<char>>,
    pub max_jobs: nat,
    pub max_local_jobs: nat,
    /// Whether other builds go on after a failure.
    pub keep_going: bool,
    /// The number of builds that succeeded.
    pub success_count: nat,
    /// Whether a failure ended everything.
    pub stopped: bool,
}

/// Something that happens to the builds.
pub enum Event {
    Started(Seq<char>),
    Completed(Seq<char>, bool),
}

/// Whether `a` is to be built rather than `b`: the one for which more derivations wait, and
/// of two for which as many wait the one whose path is the later in the order of texts.
pub open spec fn ranks_above(graph: GraphModel, a: Seq<char>, b: Seq<char>) -> bool {
    let count_a = graph.rec_dependants[a].len();
    let count_b = graph.rec_dependants[b].len();
    count_a > count_b || (count_a == count_b && text::text_precedes(b, a))
}

impl SchedulerModel {
    /// The state before anything was started.
    pub open spec fn initial(
        graph: GraphModel,
        max_jobs: nat,
        max_local_jobs: nat,
        keep_going: bool,
    ) -> SchedulerModel {
        SchedulerModel {
            graph,
            remaining: graph.drvs.dom(),
            building: Set::empty(),
            building_local: Set::empty(),
            max_jobs,
            max_local_jobs,
            keep_going,
            success_count: 0,
            stopped: false,
        }
    }

    /// What holds at all times: no derivation is counted twice, and there are never more builds
    /// in progress than the limits allow.
    pub open spec fn valid(self) -> bool {
        &&& self.remaining.finite()
        &&& self.building.finite()
        &&& self.building_local.finite()
        &&& self.remaining.disjoint(self.building)
        &&& self.remaining.disjoint(self.building_local)
        &&& self.building.disjoint(self.building_local)
        &&& self.building.len() <= self.max_jobs
        &&& self.building_local.len() <= self.max_local_jobs
        &&& forall|path: Seq<char>| #[trigger]
            self.building.contains(path) && self.graph.has(path)
                ==> !self.graph.drvs[path].is_local()
        &&& forall|path: Seq<char>| #[trigger]
            self.building_local.contains(path) && self.graph.has(path)
                ==> self.graph.drvs[path].is_local()
    }

    /// Whether a build is in progress.
    pub open spec fn in_progress(self, path: Seq<char>) -> bool {
        self.building.contains(path) || self.building_local.contains(path)
    }

    /// Whether there is nothing more to do.
    pub open spec fn finished(self) -> bool {
        self.stopped || (self.remaining == Set::<Seq<char>>::empty() && self.building == Set::<
            Seq<char>,
        >::empty() && self.building_local == Set::<Seq<char>>::empty())
    }

    /// Whether the limits allow one more build of the kind of a derivation.
    pub open spec fn has_slot(self, path: Seq<char>) -> bool {
        if self.graph.drvs[path].is_local() {
            self.building_local.len() < self.max_local_jobs
        } else {
            self.building.len() < self.max_jobs
        }
    }

    /// Whether a derivation can be built now: it was not started, waits for nothing, and the
    /// limits allow it.
    pub open spec fn buildable(self, path: Seq<char>) -> bool {
        &&& self.remaining.contains(path)
        &&& self.graph.dependencies[path] == Set::<Seq<char>>::empty()
        &&& self.has_slot(path)
    }

    /// The state after a build was started.
    pub open spec fn started(self, path: Seq<char>) -> SchedulerModel {
        let local = self.graph.drvs[path].is_local();
        SchedulerModel {
            remaining: self.remaining.remove(path),
            building: if local {
                self.building
            } else {
                self.building.insert(path)
            },
            building_local: if local {
                self.building_local.insert(path)
            } else {
                self.building_local
            },
            ..self
        }
    }

    /// The state after a build ended. What failed stays in the graph, and what waits for it
    /// goes.
    pub open spec fn completed(self, path: Seq<char>, succeeded: bool) -> SchedulerModel {
        SchedulerModel {
            graph: if succeeded {
                self.graph.without(Set::empty().insert(path))
            } else if self.keep_going {
                self.graph.without(self.graph.rec_dependants[path])
            } else {
                self.graph
            },
            building: self.building.remove(path),
            building_local: self.building_local.remove(path),
            success_count: if succeeded {
                self.success_count + 1
            } else {
                self.success_count
            },
            stopped: self.stopped || (!succeeded && !self.keep_going),
            ..self
        }
    }

    /// Whether the end of a build can be taken in: it is in progress and in the graph, and so
    /// is everything that goes with it.
    pub open spec fn can_complete(self, path: Seq<char>, succeeded: bool) -> bool {
        &&& self.in_progress(path)
        &&& self.graph.has(path)
        &&& !succeeded && self.keep_going ==> self.graph.rec_dependants[path].subset_of(
            self.graph.drvs.dom(),
        )
    }

    /// Whether an event leads from this state to `after`.
    pub open spec fn leads_to(self, event: Event, after: SchedulerModel) -> bool {
        match event {
            Event::Started(path) => !self.finished() && self.remaining.subset_of(
                self.graph.drvs.dom(),
            ) && self.buildable(path) && after == self.started(path),
            Event::Completed(path, succeeded) => !self.stopped && self.can_complete(path, succeeded)
                && after == self.completed(path, succeeded),
        }
    }
}

/// The builds of a graph, at most `max_jobs` of them at a time, and `max_local_jobs` of those
/// that ask to be built on this machine.
#[derive(Debug)]
pub struct Scheduler {
    graph: DrvGraph,
    remaining: Vec<DrvPath>,
    building: Vec<DrvPath>,
    building_local: Vec<DrvPath>,
    max_jobs: usize,
    max_local_jobs: usize,
    keep_going: bool,
    success_count: usize,
    stopped: bool,
}

impl View for Scheduler {
    type V = SchedulerModel;

    closed spec fn view(&self) -> SchedulerModel {
        SchedulerModel {
            graph: self.graph@,
            remaining: self.remaining.deep_view().to_set(),
            building: self.building.deep_view().to_set(),
            building_local: self.building_local.deep_view().to_set(),
            max_jobs: self.max_jobs as nat,
            max_local_jobs: self.max_local_jobs as nat,
            keep_going: self.keep_going,
            success_count: self.success_count as nat,
            stopped: self.stopped,
        }
    }
}

/// Where a path stands among others.
fn position(paths: &Vec<DrvPath>, path: &DrvPath) -> (at: Option<usize>)
    ensures
        match at {
            Some(at) => at < paths.len() && paths.deep_view()[at as int] == path@,
            None => !paths.deep_view().contains(path@),
        },
{
    for i in 0..paths.len()
        invariant
            forall|j: int| 0 <= j < i ==> (#[trigger] paths.deep_view()[j]) != path@,
    {
        assert(paths.deep_view()[i as int] == paths@[i as int]@);
        if text::same_text(paths[i].as_str(), path.as_str()) {
            return Some(i);
        }
    }
    None
}

/// Takes a path out of a vector without repetitions.
fn drop_at(paths: &mut Vec<DrvPath>, at: usize) -> (path: DrvPath)
    requires
        at < old(paths).len(),
        old(paths).deep_view().no_duplicates(),
    ensures
        path@ == old(paths).deep_view()[at as int],
        final(paths).deep_view().no_duplicates(),
        final(paths).len() == old(paths).len() - 1,
        final(paths).deep_view().to_set() == old(paths).deep_view().to_set().remove(path@),
{
    let ghost before = paths.deep_view();
    let path = paths.remove(at);
    proof {
        let after = paths.deep_view();
        assert(after =~= before.remove(at as int));
        assert forall|x: Seq<char>| after.contains(x) == (before.contains(x) && x != path@) by {
            if after.contains(x) {
                let k = after.index_of(x);
                let m = if k < at { k } else { k + 1 };
                assert(before[m] == x);
                assert(before[m] != before[at as int]);
            }
            if before.contains(x) && x != path@ {
                let k = before.index_of(x);
                assert(after[if k < at { k } else { k - 1 }] == x);
            }
        }
        assert(after.to_set() =~= before.to_set().remove(path@));
    }
    path
}

/// Puts a path behind others that do not hold it.
fn put_behind(paths: &mut Vec<DrvPath>, path: DrvPath)
    requires
        old(paths).deep_view().no_duplicates(),
        !old(paths).deep_view().contains(path@),
    ensures
        final(paths).deep_view().no_duplicates(),
        final(paths).len() == old(paths).len() + 1,
        final(paths).deep_view().to_set() == old(paths).deep_view().to_set().insert(path@),
{
    let ghost before = paths.deep_view();
    paths.push(path);
    proof {
        let after = paths.deep_view();
        assert(after =~= before.push(path@));
        assert forall|x: Seq<char>| after.contains(x) == (before.contains(x) || x == path@) by {
            if before.contains(x) {
                let k = before.index_of(x);
                assert(after[k] == x);
            }
            assert(after[before.len() as int] == path@);
        }
        assert(after.to_set() =~= before.to_set().insert(path@));
    }
}

impl Scheduler {
    /// What holds of the parts of a scheduler taken together.
    pub closed spec fn wf(&self) -> bool {
        &&& self.graph.wf()
        &&& self.remaining.deep_view().no_duplicates()
        &&& self.building.deep_view().no_duplicates()
        &&& self.building_local.deep_view().no_duplicates()
        &&& self.success_count + self.remaining.len() + self.building.len()
            + self.building_local.len() <= usize::MAX
        &&& self@.valid()
    }

    proof fn lemma_counts(&self)
        requires
            self.wf(),
        ensures
            self@.remaining.len() == self.remaining.len(),
            self@.building.len() == self.building.len(),
            self@.building_local.len() == self.building_local.len(),
            (self@.remaining == Set::<Seq<char>>::empty()) == (self.remaining.len() == 0),
            (self@.building == Set::<Seq<char>>::empty()) == (self.building.len() == 0),
            (self@.building_local == Set::<Seq<char>>::empty()) == (self.building_local.len() == 0),
    {
        self.remaining.deep_view().unique_seq_to_set();
        self.building.deep_view().unique_seq_to_set();
        self.building_local.deep_view().unique_seq_to_set();
        lemma_empty(self.remaining.deep_view());
        lemma_empty(self.building.deep_view());
        lemma_empty(self.building_local.deep_view());
    }
}

proof fn lemma_empty(paths: Seq<Seq<char>>)
    ensures
        (paths.to_set() == Set::<Seq<char>>::empty()) == (paths.len() == 0),
{
    if paths.len() == 0 {
        assert(paths.to_set() =~= Set::<Seq<char>>::empty());
    } else {
        assert(paths.contains(paths[0]));
        assert(paths.to_set().contains(paths[0]));
    }
}

impl Scheduler {
    /// The builds of everything in a graph, none of them started.
    pub fn new(graph: DrvGraph, max_jobs: usize, max_local_jobs: usize, keep_going: bool) -> (scheduler:
        Self)
        requires
            graph.wf(),
        ensures
            scheduler.wf(),
            scheduler@.valid(),
            scheduler@ == SchedulerModel::initial(
                graph@,
                max_jobs as nat,
                max_local_jobs as nat,
                keep_going,
            ),
            scheduler@.graph == graph@,
            scheduler@.remaining == graph@.drvs.dom(),
            scheduler@.building == Set::<Seq<char>>::empty(),
            scheduler@.building_local == Set::<Seq<char>>::empty(),
            scheduler@.max_jobs == max_jobs,
            scheduler@.max_local_jobs == max_local_jobs,
            scheduler@.keep_going == keep_going,
            scheduler@.success_count == 0,
            !scheduler@.stopped,
    {
        let remaining = graph.drv_paths();
        let building: Vec<DrvPath> = Vec::new();
        let building_local: Vec<DrvPath> = Vec::new();
        proof {
            lemma_empty(building.deep_view());
            lemma_empty(building_local.deep_view());
            remaining.deep_view().unique_seq_to_set();
            building.deep_view().unique_seq_to_set();
            building_local.deep_view().unique_seq_to_set();
        }
        Scheduler {
            graph,
            remaining,
            building,
            building_local,
            max_jobs,
            max_local_jobs,
            keep_going,
            success_count: 0,
            stopped: false,
        }
    }

    /// Whether everything that was not started is in the graph.
    pub fn remaining_in_graph(&self) -> (all: bool)
        ensures
            all == self@.remaining.subset_of(self@.graph.drvs.dom()),
    {
        let ghost paths = self.remaining.deep_view();
        for i in 0..self.remaining.len()
            invariant
                paths == self.remaining.deep_view(),
                forall|j: int| 0 <= j < i ==> self.graph@.has(#[trigger] paths[j]),
        {
            assert(paths[i as int] == self.remaining@[i as int]@);
            if !self.graph.contains(&self.remaining[i]) {
                assert(paths.to_set().contains(paths[i as int]));
                return false;
            }
        }
        assert forall|path: Seq<char>| self@.remaining.contains(path) implies self@.graph.drvs.dom().contains(
        path) by {
            let k = paths.index_of(path);
            assert(paths[k] == path);
            assert(self.graph@.has(paths[k]));
        }
        true
    }

    /// Whether a derivation that was not started can be built now.
    fn is_buildable(&self, path: &DrvPath) -> (buildable: bool)
        requires
            self.wf(),
            self@.remaining.contains(path@),
            self@.graph.has(path@),
        ensures
            buildable == self@.buildable(path@),
    {
        proof {
            self.lemma_counts();
        }
        if !self.graph.has_no_dependencies(path) {
            return false;
        }
        if self.graph.drv(path).is_local() {
            self.building_local.len() < self.max_local_jobs
        } else {
            self.building.len() < self.max_jobs
        }
    }

    /// Whether `a` is to be built rather than `b`.
    fn outranks(&self, a: &DrvPath, b: &DrvPath) -> (above: bool)
        requires
            self.wf(),
            self@.graph.has(a@),
            self@.graph.has(b@),
        ensures
            above == ranks_above(self@.graph, a@, b@),
    {
        let count_a = self.graph.recursive_dependant_count(a);
        let count_b = self.graph.recursive_dependant_count(b);
        count_a > count_b || (count_a == count_b && text::precedes(b.as_str(), a.as_str()))
    }

    /// The place of the derivation that is to be built next.
    fn choose_next(&self) -> (at: Option<usize>)
        requires
            self.wf(),
            self@.remaining.subset_of(self@.graph.drvs.dom()),
        ensures
            match at {
                Some(at) => at < self.remaining.len() && {
                    let path = self.remaining.deep_view()[at as int];
                    &&& self@.buildable(path)
                    &&& forall|other: Seq<char>| #[trigger]
                        self@.buildable(other) && other != path ==> ranks_above(
                            self@.graph,
                            path,
                            other,
                        )
                },
                None => forall|other: Seq<char>| !#[trigger] self@.buildable(other),
            },
    {
        let mut best: Option<usize> = None;
        let ghost paths = self.remaining.deep_view();
        for i in 0..self.remaining.len()
            invariant
                self.wf(),
                paths == self.remaining.deep_view(),
                self@.remaining.subset_of(self@.graph.drvs.dom()),
                match best {
                    Some(at) => at < i && self@.buildable(paths[at as int]) && forall|j: int|
                        0 <= j < i && j != at && self@.buildable(#[trigger] paths[j])
                            ==> ranks_above(self@.graph, paths[at as int], paths[j]),
                    None => forall|j: int| 0 <= j < i ==> !self@.buildable(#[trigger] paths[j]),
                },
        {
            assert(paths[i as int] == self.remaining@[i as int]@);
            assert(self@.remaining.contains(paths[i as int]));
            assert(self@.graph.has(paths[i as int]));
            if self.is_buildable(&self.remaining[i]) {
                match best {
                    Some(at) => {
                        assert(paths[at as int] == self.remaining@[at as int]@);
                        assert(self@.remaining.contains(paths[at as int]));
                        assert(self@.graph.has(paths[at as int]));
                        assert(paths[at as int] != paths[i as int]);
                        if self.outranks(&self.remaining[i], &self.remaining[at]) {
                            proof {
                                assert forall|j: int|
                                    0 <= j < i + 1 && j != i && self@.buildable(
                                        #[trigger] paths[j],
                                    ) implies ranks_above(
                                    self@.graph,
                                    paths[i as int],
                                    paths[j],
                                ) by {
                                    if j != at {
                                        lemma_ranks_transitive(
                                            self@.graph,
                                            paths[i as int],
                                            paths[at as int],
                                            paths[j],
                                        );
                                    }
                                }
                            }
                            best = Some(i);
                        } else {
                            proof {
                                lemma_ranks_total(
                                    self@.graph,
                                    paths[at as int],
                                    paths[i as int],
                                );
                            }
                        }
                    },
                    None => {
                        best = Some(i);
                    },
                }
            }
        }
        proof {
            assert forall|other: Seq<char>| #[trigger] self@.buildable(other) implies paths.contains(
            other) by {
                assert(self@.remaining.contains(other));
            }
        }
        best
    }

    /// What is to be done next. A derivation that is to be built counts as being built from
    /// then on.
    pub fn next(&mut self) -> (step: Step)
        requires
            old(self).wf(),
            !old(self)@.stopped ==> old(self)@.remaining.subset_of(old(self)@.graph.drvs.dom()),
        ensures
            final(self).wf(),
            final(self)@.valid(),
            match step {
                Step::Finished => old(self)@.finished() && final(self)@ == old(self)@,
                Step::Start(path) => {
                    &&& !old(self)@.finished()
                    &&& old(self)@.buildable(path@)
                    &&& forall|other: Seq<char>| #[trigger]
                        old(self)@.buildable(other) && other != path@ ==> ranks_above(
                            old(self)@.graph,
                            path@,
                            other,
                        )
                    &&& final(self)@ == old(self)@.started(path@)
                    &&& old(self)@.leads_to(Event::Started(path@), final(self)@)
                    &&& old(self)@.remaining.contains(path@)
                    &&& old(self)@.graph.dependencies[path@] == Set::<Seq<char>>::empty()
                    &&& if old(self)@.graph.drvs[path@].is_local() {
                        &&& old(self)@.building_local.len() < old(self)@.max_local_jobs
                        &&& final(self)@.building_local == old(self)@.building_local.insert(path@)
                        &&& final(self)@.building == old(self)@.building
                    } else {
                        &&& old(self)@.building.len() < old(self)@.max_jobs
                        &&& final(self)@.building == old(self)@.building.insert(path@)
                        &&& final(self)@.building_local == old(self)@.building_local
                    }
                    &&& final(self)@.remaining == old(self)@.remaining.remove(path@)
                    &&& final(self)@.graph == old(self)@.graph
                    &&& forall|other: Seq<char>| #[trigger]
                        old(self)@.buildable(other) && other != path@ ==> {
                            let waiting = old(self)@.graph.rec_dependants;
                            &&& waiting[other].len() <= waiting[path@].len()
                            &&& waiting[other].len() == waiting[path@].len() ==> text::text_precedes(
                                other,
                                path@,
                            )
                        }
                    &&& forall|other: Seq<char>| #[trigger]
                        old(self)@.remaining.contains(other) && other != path@ && old(
                            self,
                        )@.graph.dependencies[other] == Set::<Seq<char>>::empty() && (if old(
                            self,
                        )@.graph.drvs[other].is_local() {
                            old(self)@.building_local.len() < old(self)@.max_local_jobs
                        } else {
                            old(self)@.building.len() < old(self)@.max_jobs
                        }) ==> {
                            let waiting = old(self)@.graph.rec_dependants;
                            &&& waiting[other].len() <= waiting[path@].len()
                            &&& waiting[other].len() == waiting[path@].len() ==> text::text_precedes(
                                other,
                                path@,
                            )
                        }
                    &&& final(self)@.max_jobs == old(self)@.max_jobs
                    &&& final(self)@.max_local_jobs == old(self)@.max_local_jobs
                    &&& final(self)@.keep_going == old(self)@.keep_going
                    &&& final(self)@.success_count == old(self)@.success_count
                    &&& final(self)@.stopped == old(self)@.stopped
                },
                Step::Wait => {
                    &&& !old(self)@.finished()
                    &&& forall|other: Seq<char>| !#[trigger] old(self)@.buildable(other)
                    &&& final(self)@ == old(self)@
                    &&& forall|other: Seq<char>| #[trigger]
                        old(self)@.remaining.contains(other) && old(self)@.graph.dependencies[other]
                            == Set::<Seq<char>>::empty() ==> if old(
                            self,
                        )@.graph.drvs[other].is_local() {
                            old(self)@.building_local.len() >= old(self)@.max_local_jobs
                        } else {
                            old(self)@.building.len() >= old(self)@.max_jobs
                        }
                },
            },
            (step is Finished) == (old(self)@.stopped || (old(self)@.remaining == Set::<
                Seq<char>,
            >::empty() && old(self)@.building == Set::<Seq<char>>::empty()
                && old(self)@.building_local == Set::<Seq<char>>::empty())),
    {
        proof {
            self.lemma_counts();
        }
        if self.stopped || (self.remaining.len() == 0 && self.building.len() == 0
            && self.building_local.len() == 0) {
            return Step::Finished;
        }
        match self.choose_next() {
            Some(at) => {
                let ghost before = self@;
                let ghost path = self.remaining.deep_view()[at as int];
                let ghost paths = self.remaining.deep_view();
                proof {
                    assert(paths.to_set().contains(paths[at as int]));
                    assert(before.remaining.contains(path));
                    assert(before.graph.has(path));
                }
                let to_build = drop_at(&mut self.remaining, at);
                if self.graph.drv(&to_build).is_local() {
                    assert(!before.building_local.contains(path));
                    put_behind(&mut self.building_local, to_build.clone());
                } else {
                    assert(!before.building.contains(path));
                    put_behind(&mut self.building, to_build.clone());
                }
                proof {
                    assert(self@ =~= before.started(path));
                    assert forall|other: Seq<char>| #[trigger]
                        before.remaining.contains(other) && other != path
                            && before.graph.dependencies[other] == Set::<Seq<char>>::empty()
                            && before.has_slot(other) implies ranks_above(
                        before.graph,
                        path,
                        other,
                    ) by {
                        assert(before.buildable(other));
                    }
                }
                Step::Start(to_build)
            },
            None => {
                proof {
                    assert forall|other: Seq<char>| #[trigger]
                        self@.remaining.contains(other) && self@.graph.dependencies[other]
                            == Set::<Seq<char>>::empty() implies if self@.graph.drvs[other].is_local() {
                        self@.building_local.len() >= self@.max_local_jobs
                    } else {
                        self@.building.len() >= self@.max_jobs
                    } by {
                        assert(!self@.buildable(other));
                    }
                }
                Step::Wait
            },
        }
    }

    /// Whether the end of a build can be taken in.
    pub fn can_complete(&self, drv_path: &DrvPath, succeeded: bool) -> (can: bool)
        requires
            self.wf(),
        ensures
            can == self@.can_complete(drv_path@, succeeded),
            can == ((self@.building.contains(drv_path@) || self@.building_local.contains(
                drv_path@,
            )) && self@.graph.drvs.contains_key(drv_path@) && (succeeded || !self@.keep_going
                || self@.graph.rec_dependants[drv_path@].subset_of(self@.graph.drvs.dom()))),
    {
        if position(&self.building, drv_path).is_none() && position(
            &self.building_local,
            drv_path,
        ).is_none() {
            return false;
        }
        if !self.graph.contains(drv_path) {
            return false;
        }
        proof {
            let building = self.building.deep_view();
            let local = self.building_local.deep_view();
            assert(building.contains(drv_path@) || local.contains(drv_path@));
        }
        succeeded || !self.keep_going || self.graph.recursive_dependants_in_graph(drv_path)
    }

    /// Takes in that a build ended.
    pub fn complete(&mut self, drv_path: &DrvPath, succeeded: bool) -> (completion: Completion)
        requires
            old(self).wf(),
            !old(self)@.stopped,
            old(self)@.can_complete(drv_path@, succeeded),
        ensures
            final(self).wf(),
            final(self)@.valid(),
            final(self)@ == old(self)@.completed(drv_path@, succeeded),
            old(self)@.leads_to(Event::Completed(drv_path@, succeeded), final(self)@),
            final(self)@.remaining == old(self)@.remaining,
            final(self)@.building == old(self)@.building.remove(drv_path@),
            final(self)@.building_local == old(self)@.building_local.remove(drv_path@),
            final(self)@.max_jobs == old(self)@.max_jobs,
            final(self)@.max_local_jobs == old(self)@.max_local_jobs,
            final(self)@.keep_going == old(self)@.keep_going,
            final(self)@.success_count == old(self)@.success_count + if succeeded {
                1int
            } else {
                0
            },
            final(self)@.stopped == (!succeeded && !old(self)@.keep_going),
            forall|path: Seq<char>| #[trigger]
                final(self)@.graph.drvs.contains_key(path) == (old(self)@.graph.drvs.contains_key(
                    path,
                ) && if succeeded {
                    path != drv_path@
                } else {
                    !old(self)@.keep_going || !old(self)@.graph.rec_dependants[drv_path@].contains(
                        path,
                    )
                }),
            completion.status == if succeeded {
                BuildStatus::Success
            } else {
                BuildStatus::Failure
            },
            match completion.new_length {
                Some(length) => !succeeded && old(self)@.keep_going && length
                    == old(self)@.remaining.len() + old(self)@.success_count,
                None => succeeded || !old(self)@.keep_going,
            },
    {
        let ghost before = self@;
        proof {
            self.lemma_counts();
        }
        if self.graph.drv(drv_path).is_local() {
            if let Some(at) = position(&self.building_local, drv_path) {
                drop_at(&mut self.building_local, at);
            }
            assert(!before.building.contains(drv_path@));
        } else {
            if let Some(at) = position(&self.building, drv_path) {
                drop_at(&mut self.building, at);
            }
            assert(!before.building_local.contains(drv_path@));
        }
        assert(self@.building =~= before.building.remove(drv_path@));
        assert(self@.building_local =~= before.building_local.remove(drv_path@));
        if succeeded {
            self.graph.remove(drv_path);
            self.success_count += 1;
            Completion { status: BuildStatus::Success, new_length: None }
        } else if self.keep_going {
            self.graph.remove_recursive_dependants(drv_path);
            Completion {
                status: BuildStatus::Failure,
                new_length: Some(self.remaining.len() + self.success_count),
            }
        } else {
            self.stopped = true;
            Completion { status: BuildStatus::Failure, new_length: None }
        }
    }
}

proof fn lemma_ranks_transitive(graph: GraphModel, a: Seq<char>, b: Seq<char>, c: Seq<char>)
    requires
        ranks_above(graph, a, b),
        ranks_above(graph, b, c),
    ensures
        ranks_above(graph, a, c),
{
    if text::text_precedes(b, a) && text::text_precedes(c, b) {
        text::lemma_precedes_transitive(c, b, a);
    }
}

proof fn lemma_ranks_total(graph: GraphModel, a: Seq<char>, b: Seq<char>)
    requires
        a != b,
    ensures
        ranks_above(graph, a, b) || ranks_above(graph, b, a),
{
    text::lemma_precedes_total(a, b);
}

} // verus!
