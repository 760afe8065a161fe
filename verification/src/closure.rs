//! Everything that given derivations need, directly or through others.

use crate::derivation::{Derivation, DerivationModel};
use crate::graph;
use crate::graph_laws;
use crate::maps::TextMap;
use crate::paths::DrvPath;
use crate::reach;
use vstd::prelude::*;

verus! {

/// The state of a walk from derivations to what they need.
#[verifier::ext_equal]
pub struct ClosureModel {
    /// Where the walk began.
    pub roots: Set<Seq<char>>,
    /// The derivations that were met.
    pub collected: Map<Seq<char>, DerivationModel>,
    /// What is still to be looked at, the next at the end.
    pub pending: Seq<Seq<char>>,
    /// Whether the walk was ever given up before its end.
    pub given_up: bool,
}

/// Something that happens to a walk.
pub enum WalkEvent {
    /// The walk goes on to what it has to see next.
    Passed,
    /// The derivation for which the walk asked was read.
    Supplied(DerivationModel),
    /// The derivation for which the walk asked could not be read.
    GivenUp,
}

/// The paths of the inputs of a derivation, the last in front.
pub open spec fn inputs_backwards(drv: DerivationModel) -> Seq<Seq<char>> {
    Seq::new(drv.inputs.len(), |i: int| drv.inputs[drv.inputs.len() - 1 - i].0)
}

impl ClosureModel {
    /// Whether a derivation is a root or is needed by one, directly or through others.
    pub open spec fn wanted(self, path: Seq<char>) -> bool {
        self.roots.contains(path) || exists|root: Seq<char>| #[trigger]
            self.roots.contains(root) && reach::reaches(graph::needing(self.collected), root, path)
    }

    /// Whether something that was met needs `path`.
    pub open spec fn needed(self, path: Seq<char>) -> bool {
        exists|other: Seq<char>| #[trigger]
            self.collected.contains_key(other) && self.collected[other].needs(path)
    }

    /// What holds at all times: the roots were met, everything that was met is wanted, and what
    /// it needs was met too or is still to be looked at, unless the walk was given up.
    pub open spec fn consistent(self) -> bool {
        &&& self.roots.subset_of(self.collected.dom())
        &&& forall|path: Seq<char>| #[trigger]
            self.collected.contains_key(path) ==> self.collected[path].path == path && self.wanted(
                path,
            )
        &&& forall|path: Seq<char>, input: Seq<char>|
            #![trigger self.collected[path].needs(input)]
            !self.given_up && self.collected.contains_key(path) && self.collected[path].needs(input)
                ==> self.collected.contains_key(input) || self.pending.contains(input)
        &&& forall|i: int| 0 <= i < self.pending.len() ==> self.needed(#[trigger] self.pending[i])
    }

    /// The state after a derivation was met.
    pub open spec fn met(self, drv: DerivationModel) -> ClosureModel {
        ClosureModel {
            collected: self.collected.insert(drv.path, drv),
            pending: self.pending + inputs_backwards(drv),
            ..self
        }
    }

    /// The state after a root was given. One that was met before changes nothing else.
    pub open spec fn with_root(self, drv: DerivationModel) -> ClosureModel {
        let more = ClosureModel { roots: self.roots.insert(drv.path), ..self };
        if self.collected.contains_key(drv.path) {
            more
        } else {
            more.met(drv)
        }
    }

    /// The state after the derivation that comes next was read.
    pub open spec fn supplied(self, drv: DerivationModel) -> ClosureModel {
        (ClosureModel { pending: self.pending.drop_last(), ..self }).met(drv)
    }

    /// The state after the derivation that comes next could not be read: what was met stays, and
    /// what was still to be looked at is dropped.
    pub open spec fn abandoned(self) -> ClosureModel {
        ClosureModel { pending: Seq::empty(), given_up: true, ..self }
    }

    /// Whether `after` differs from this state only in that derivations that were met before are
    /// not looked at again.
    pub open spec fn passes_to(self, after: ClosureModel) -> bool {
        &&& after == ClosureModel { pending: after.pending, ..self }
        &&& after.pending.is_prefix_of(self.pending)
        &&& forall|i: int|
            after.pending.len() <= i < self.pending.len() ==> self.collected.contains_key(
                #[trigger] self.pending[i],
            )
    }

    /// Whether the walk asks for a derivation.
    pub open spec fn asks_for(self, path: Seq<char>) -> bool {
        self.pending.len() > 0 && self.pending.last() == path && !self.collected.contains_key(path)
    }

    /// Whether an event leads from this state to `after`.
    pub open spec fn leads_to(self, event: WalkEvent, after: ClosureModel) -> bool {
        match event {
            WalkEvent::Passed => self.passes_to(after),
            WalkEvent::Supplied(drv) => self.asks_for(drv.path) && after == self.supplied(drv),
            WalkEvent::GivenUp => after == self.abandoned(),
        }
    }
}

/// A walk from derivations to everything that they need. The walk names the derivation whose
/// file it has to see next.
pub struct DrvClosure {
    collected: TextMap<Derivation>,
    pending: Vec<DrvPath>,
    roots: Ghost<Set<Seq<char>>>,
    given_up: Ghost<bool>,
}

impl View for DrvClosure {
    type V = ClosureModel;

    closed spec fn view(&self) -> ClosureModel {
        ClosureModel {
            roots: self.roots@,
            collected: self.collected@.map_values(|drv: Derivation| drv@),
            pending: self.pending.deep_view(),
            given_up: self.given_up@,
        }
    }
}

/// Puts the inputs of a derivation behind others, the last first.
fn push_inputs(pending: &mut Vec<DrvPath>, drv: &Derivation)
    ensures
        final(pending).deep_view() == old(pending).deep_view() + inputs_backwards(drv@),
{
    let ghost before = pending.deep_view();
    let ghost all = inputs_backwards(drv@);
    let n = drv.inputs.len();
    assert(before + all.take(0) =~= before);
    for k in 0..n
        invariant
            n == drv.inputs.len(),
            all == inputs_backwards(drv@),
            pending.deep_view() == before + all.take(k as int),
    {
        let ghost so_far = pending.deep_view();
        let path = drv.inputs[n - 1 - k].0.clone();
        pending.push(path);
        assert(path@ == all[k as int]);
        assert(pending.deep_view() =~= so_far.push(path@));
        assert(before + all.take(k + 1) =~= so_far.push(path@));
    }
    assert(all.take(n as int) =~= all);
}

impl DrvClosure {
    /// A walk that has not begun.
    pub fn new() -> (walk: Self)
        ensures
            walk@.consistent(),
            walk@.roots == Set::<Seq<char>>::empty(),
            walk@.collected == Map::<Seq<char>, DerivationModel>::empty(),
            walk@.pending == Seq::<Seq<char>>::empty(),
            !walk@.given_up,
    {
        let walk = DrvClosure {
            collected: TextMap::new(),
            pending: Vec::new(),
            roots: Ghost(Set::empty()),
            given_up: Ghost(false),
        };
        assert(walk@.collected =~= Map::<Seq<char>, DerivationModel>::empty());
        assert(walk@.pending =~= Seq::<Seq<char>>::empty());
        walk
    }

    /// Notes a derivation that was not met before.
    fn meet(&mut self, drv: Derivation)
        ensures
            final(self)@ == old(self)@.met(drv@),
    {
        push_inputs(&mut self.pending, &drv);
        let key = drv.path.0.clone();
        let ghost before = self.collected@;
        self.collected.insert(key, drv);
        proof {
            let model = |drv: Derivation| drv@;
            assert(self.collected@.map_values(model) =~= before.map_values(model).insert(
                drv@.path,
                drv@,
            ));
        }
    }

    /// Gives the walk a derivation to begin with.
    pub fn add_root(&mut self, drv: &Derivation)
        requires
            old(self)@.consistent(),
        ensures
            final(self)@ == old(self)@.with_root(drv@),
            final(self)@.consistent(),
            final(self)@.roots == old(self)@.roots.insert(drv@.path),
            final(self)@.given_up == old(self)@.given_up,
            old(self)@.collected.contains_key(drv@.path) ==> final(self)@.collected == old(
                self,
            )@.collected && final(self)@.pending == old(self)@.pending,
            !old(self)@.collected.contains_key(drv@.path) ==> {
                let n = old(self)@.pending.len();
                &&& final(self)@.collected == old(self)@.collected.insert(drv@.path, drv@)
                &&& old(self)@.pending.is_prefix_of(final(self)@.pending)
                &&& final(self)@.pending.len() == n + drv@.inputs.len()
                &&& forall|i: int|
                    0 <= i < drv@.inputs.len() ==> (#[trigger] drv@.inputs[i]).0
                        == final(self)@.pending[n + drv@.inputs.len() - 1 - i]
            },
    {
        let ghost before = self@;
        self.roots = Ghost(self.roots@.insert(drv.path@));
        let ghost between = self@;
        assert(between == ClosureModel { roots: before.roots.insert(drv@.path), ..before });
        proof {
            lemma_more_roots(before, drv@.path);
        }
        if !self.collected.contains_key(drv.path.as_str()) {
            self.meet(drv.clone());
            proof {
                lemma_met(between, drv@);
            }
        }
    }

    /// The derivation whose file the walk has to see next, or nothing if it is at its end. Then
    /// everything that was met has everything that it needs beside it, unless the walk was given
    /// up.
    pub fn next(&mut self) -> (path: Option<DrvPath>)
        requires
            old(self)@.consistent(),
        ensures
            final(self)@.consistent(),
            old(self)@.leads_to(WalkEvent::Passed, final(self)@),
            final(self)@.collected == old(self)@.collected,
            final(self)@.roots == old(self)@.roots,
            final(self)@.given_up == old(self)@.given_up,
            final(self)@.pending.is_prefix_of(old(self)@.pending),
            forall|i: int|
                final(self)@.pending.len() <= i < old(self)@.pending.len()
                    ==> old(self)@.collected.contains_key(#[trigger] old(self)@.pending[i]),
            match path {
                Some(path) => final(self)@.asks_for(path@) && final(self)@.pending.len() > 0
                    && final(self)@.pending.last() == path@
                    && !final(self)@.collected.contains_key(path@),
                None => final(self)@.pending.len() == 0 && (!final(self)@.given_up
                    ==> graph::closed_under_inputs(final(self)@.collected)),
            },
    {
        let ghost before = self@;
        while self.pending.len() > 0
            invariant
                self@.consistent(),
                before == old(self)@,
                before.passes_to(self@),
            decreases self.pending.len(),
        {
            let last: usize = self.pending.len() - 1;
            let ghost now = self@;
            assert(now.pending[last as int] == self.pending@[last as int]@);
            if !self.collected.contains_key(self.pending[last].as_str()) {
                return Some(self.pending[last].clone());
            }
            self.pending.pop();
            proof {
                assert(self@.pending =~= now.pending.drop_last());
                assert(before.pending[last as int] == now.pending[last as int]);
                lemma_dropped(now);
                assert(self@ =~= ClosureModel { pending: now.pending.drop_last(), ..now });
            }
        }
        None
    }

    /// Gives the walk the derivation for which it asked.
    pub fn supply(&mut self, drv: Derivation)
        requires
            old(self)@.consistent(),
            old(self)@.asks_for(drv@.path),
        ensures
            final(self)@ == old(self)@.supplied(drv@),
            final(self)@.consistent(),
            final(self)@.collected == old(self)@.collected.insert(drv@.path, drv@),
            final(self)@.roots == old(self)@.roots,
            final(self)@.given_up == old(self)@.given_up,
            ({
                let n = old(self)@.pending.len() - 1;
                &&& old(self)@.pending.take(n).is_prefix_of(final(self)@.pending)
                &&& final(self)@.pending.len() == n + drv@.inputs.len()
                &&& forall|i: int|
                    0 <= i < drv@.inputs.len() ==> (#[trigger] drv@.inputs[i]).0
                        == final(self)@.pending[n + drv@.inputs.len() - 1 - i]
            }),
            old(self)@.leads_to(WalkEvent::Supplied(drv@), final(self)@),
    {
        let ghost before = self@;
        self.pending.pop();
        let ghost between = self@;
        proof {
            assert(between.pending =~= before.pending.drop_last());
            lemma_supplied(before, drv@);
            assert(between =~= ClosureModel { pending: before.pending.drop_last(), ..before });
        }
        self.meet(drv);
    }

    /// Takes in that the derivation for which the walk asked could not be read. What was met
    /// stays met, and the walk is at rest: it can begin anew from another derivation.
    pub fn give_up(&mut self)
        requires
            old(self)@.consistent(),
        ensures
            final(self)@ == old(self)@.abandoned(),
            final(self)@.consistent(),
            final(self)@.collected == old(self)@.collected,
            final(self)@.roots == old(self)@.roots,
            final(self)@.pending.len() == 0,
            final(self)@.given_up,
            old(self)@.leads_to(WalkEvent::GivenUp, final(self)@),
    {
        let ghost before = self@;
        self.pending = Vec::new();
        self.given_up = Ghost(true);
        proof {
            assert(self@.pending =~= Seq::<Seq<char>>::empty());
            assert(self@ =~= before.abandoned());
            assert forall|path: Seq<char>| #[trigger] self@.collected.contains_key(path) implies self@.wanted(
            path) by {
                lemma_wanted_by_same(before, self@, path);
            }
        }
    }

    /// A derivation that was met.
    pub fn get(&self, path: &DrvPath) -> (drv: Option<&Derivation>)
        ensures
            match drv {
                Some(drv) => self@.collected.contains_key(path@) && drv@
                    == self@.collected[path@],
                None => !self@.collected.contains_key(path@),
            },
    {
        self.collected.get(path.as_str())
    }

    /// The derivations that were met, each once.
    pub fn drvs(&self) -> (drvs: Vec<Derivation>)
        requires
            self@.consistent(),
        ensures
            graph::by_path(graph::models(drvs@)) == self@.collected,
            drvs@.len() == self@.collected.dom().len(),
    {
        let n = self.collected.len();
        let ghost keys = self.collected.keys();
        let mut drvs: Vec<Derivation> = Vec::new();
        let ghost all = self@.collected;
        proof {
            assert(self.collected@.dom() =~= all.dom());
            assert(graph::by_path(graph::models(drvs@)) =~= all.restrict(keys.take(0).to_set()));
        }
        for i in 0..n
            invariant
                n == keys.len(),
                keys == self.collected.keys(),
                keys.to_set() == all.dom(),
                all == self@.collected,
                self@.consistent(),
                drvs@.len() == i,
                graph::by_path(graph::models(drvs@)) == all.restrict(
                    keys.take(i as int).to_set(),
                ),
        {
            let drv = self.collected.value_at(i).clone();
            let ghost before = drvs@;
            drvs.push(drv);
            proof {
                let key = keys[i as int];
                assert(all.contains_key(key));
                assert(drv@ == all[key]);
                let now = graph::models(drvs@);
                assert(now.drop_last() =~= graph::models(before));
                assert(now.last() == drv@);
                let taken = keys.take(i as int);
                assert(keys.take(i + 1) =~= taken.push(key));
                assert(keys.take(i + 1).to_set() =~= taken.to_set().insert(key)) by {
                    let more = keys.take(i + 1).to_set();
                    assert forall|x: Seq<char>| more.contains(x) == taken.to_set().insert(
                        key,
                    ).contains(x) by {
                        if taken.contains(x) {
                            let k = taken.index_of(x);
                            assert(keys.take(i + 1)[k] == x);
                        }
                        assert(keys.take(i + 1)[i as int] == key);
                    }
                }
                assert(graph::by_path(now) =~= all.restrict(keys.take(i + 1).to_set()));
            }
        }
        assert(keys.take(n as int) =~= keys);
        assert(all.restrict(keys.to_set()) =~= all);
        drvs
    }
}

proof fn lemma_more_roots(state: ClosureModel, root: Seq<char>)
    requires
        state.consistent(),
    ensures
        ({
            let more = ClosureModel { roots: state.roots.insert(root), ..state };
            &&& state.collected.contains_key(root) ==> more.consistent()
            &&& forall|path: Seq<char>| #[trigger]
                state.collected.contains_key(path) ==> more.wanted(path)
            &&& forall|path: Seq<char>| #[trigger]
                more.roots.contains(path) ==> state.collected.contains_key(path) || path == root
            &&& forall|i: int|
                0 <= i < more.pending.len() ==> more.needed(#[trigger] more.pending[i])
        }),
{
    let more = ClosureModel { roots: state.roots.insert(root), ..state };
    assert forall|path: Seq<char>| #[trigger] state.collected.contains_key(path) implies more.wanted(
        path,
    ) by {
        assert(state.wanted(path));
        if !state.roots.contains(path) {
            let r = choose|r: Seq<char>| #[trigger]
                state.roots.contains(r) && reach::reaches(
                    graph::needing(state.collected),
                    r,
                    path,
                );
            assert(more.roots.contains(r));
        }
    }
    assert forall|path: Seq<char>| #[trigger] more.roots.contains(path) implies state.collected.contains_key(
        path,
    ) || path == root by {
        if path != root {
            assert(state.roots.contains(path));
        }
    }
    assert forall|i: int| 0 <= i < more.pending.len() implies more.needed(
        #[trigger] more.pending[i],
    ) by {
        lemma_needed_by_same(state, more, state.pending[i]);
    }
    if state.collected.contains_key(root) {
        assert(more.roots.subset_of(more.collected.dom()));
        assert forall|path: Seq<char>, input: Seq<char>|
            #![trigger more.collected[path].needs(input)]
            !more.given_up && more.collected.contains_key(path) && more.collected[path].needs(
                input,
            ) implies more.collected.contains_key(input) || more.pending.contains(input) by {
            assert(state.collected[path].needs(input));
        }
    }
}

proof fn lemma_needed_by_same(state: ClosureModel, more: ClosureModel, path: Seq<char>)
    requires
        state.needed(path),
        forall|other: Seq<char>| #[trigger]
            state.collected.contains_key(other) ==> more.collected.contains_key(other)
                && more.collected[other] == state.collected[other],
    ensures
        more.needed(path),
{
    let other = choose|other: Seq<char>| #[trigger]
        state.collected.contains_key(other) && state.collected[other].needs(path);
    assert(more.collected.contains_key(other));
}

/// What was pending and is met already need not be looked at again.
proof fn lemma_dropped(state: ClosureModel)
    requires
        state.consistent(),
        state.pending.len() > 0,
        state.collected.contains_key(state.pending.last()),
    ensures
        (ClosureModel { pending: state.pending.drop_last(), ..state }).consistent(),
{
    let less = ClosureModel { pending: state.pending.drop_last(), ..state };
    assert forall|path: Seq<char>, input: Seq<char>|
        #![trigger less.collected[path].needs(input)]
        !less.given_up && less.collected.contains_key(path) && less.collected[path].needs(
            input,
        ) implies less.collected.contains_key(input) || less.pending.contains(input) by {
        assert(state.collected[path].needs(input));
        if !state.collected.contains_key(input) {
            let k = state.pending.index_of(input);
            assert(less.pending[k] == input);
        }
    }
    assert forall|path: Seq<char>| #[trigger] less.collected.contains_key(path) implies less.collected[path].path
        == path && less.wanted(path) by {
        lemma_wanted_by_same(state, less, path);
    }
    assert forall|i: int| 0 <= i < less.pending.len() implies less.needed(
        #[trigger] less.pending[i],
    ) by {
        lemma_needed_by_same(state, less, state.pending[i]);
    }
}

proof fn lemma_wanted_by_same(state: ClosureModel, more: ClosureModel, path: Seq<char>)
    requires
        state.wanted(path),
        state.roots.subset_of(more.roots),
        forall|other: Seq<char>| #[trigger]
            state.collected.contains_key(other) ==> more.collected.contains_key(other)
                && more.collected[other] == state.collected[other],
    ensures
        more.wanted(path),
{
    if !state.roots.contains(path) {
        let step = graph::needing(state.collected);
        let wider = graph::needing(more.collected);
        let root = choose|root: Seq<char>| #[trigger]
            state.roots.contains(root) && reach::reaches(step, root, path);
        assert forall|x: Seq<char>, y: Seq<char>| #[trigger] step(x, y) implies wider(x, y) by {
            assert(state.collected.contains_key(x));
        }
        reach::lemma_more_steps(step, wider, root, path);
        assert(more.roots.contains(root));
    }
}

/// A new derivation is met that is wanted.
proof fn lemma_met(state: ClosureModel, drv: DerivationModel)
    requires
        !state.collected.contains_key(drv.path),
        state.wanted(drv.path),
        forall|path: Seq<char>| #[trigger]
            state.roots.contains(path) ==> state.collected.contains_key(path) || path == drv.path,
        forall|path: Seq<char>| #[trigger]
            state.collected.contains_key(path) ==> state.collected[path].path == path
                && state.wanted(path),
        forall|path: Seq<char>, input: Seq<char>|
            #![trigger state.collected[path].needs(input)]
            !state.given_up && state.collected.contains_key(path) && state.collected[path].needs(input)
                ==> state.collected.contains_key(input) || state.pending.contains(input) || input
                == drv.path,
        forall|i: int| 0 <= i < state.pending.len() ==> state.needed(#[trigger] state.pending[i]),
    ensures
        state.met(drv).consistent(),
{
    let after = state.met(drv);
    let inputs = inputs_backwards(drv);
    assert(after.roots.subset_of(after.collected.dom()));
    assert forall|path: Seq<char>| #[trigger] after.collected.contains_key(path) implies after.collected[path].path
        == path && after.wanted(path) by {
        if path != drv.path {
            assert(state.collected.contains_key(path));
        }
        lemma_wanted_by_same(state, after, path);
    }
    assert forall|path: Seq<char>, input: Seq<char>|
        #![trigger after.collected[path].needs(input)]
        !after.given_up && after.collected.contains_key(path) && after.collected[path].needs(
            input,
        ) implies after.collected.contains_key(input) || after.pending.contains(input) by {
        if path == drv.path {
            let k = choose|k: int|
                0 <= k < drv.inputs.len() && (#[trigger] drv.inputs[k]).0 == input;
            let m = drv.inputs.len() - 1 - k;
            assert(inputs[m] == input);
            assert(after.pending[state.pending.len() + m] == input);
        } else {
            assert(state.collected[path].needs(input));
            if state.pending.contains(input) {
                let k = state.pending.index_of(input);
                assert(after.pending[k] == input);
            }
        }
    }
    assert forall|i: int| 0 <= i < after.pending.len() implies after.needed(
        #[trigger] after.pending[i],
    ) by {
        if i < state.pending.len() {
            lemma_needed_by_same(state, after, state.pending[i]);
        } else {
            let m = i - state.pending.len();
            let k = drv.inputs.len() - 1 - m;
            assert(after.pending[i] == drv.inputs[k].0);
            assert(drv.needs(drv.inputs[k].0));
            assert(after.collected.contains_key(drv.path));
        }
    }
}

/// The derivation for which the walk asked is met.
proof fn lemma_supplied(state: ClosureModel, drv: DerivationModel)
    requires
        state.consistent(),
        state.pending.len() > 0,
        drv.path == state.pending.last(),
        !state.collected.contains_key(drv.path),
    ensures
        (ClosureModel { pending: state.pending.drop_last(), ..state }).met(drv).consistent(),
{
    let less = ClosureModel { pending: state.pending.drop_last(), ..state };
    let step = graph::needing(state.collected);
    let last = state.pending.last();
    assert(state.needed(state.pending[state.pending.len() - 1]));
    let parent = choose|other: Seq<char>| #[trigger]
        state.collected.contains_key(other) && state.collected[other].needs(last);
    assert(step(parent, last));
    reach::lemma_one_step(step, parent, last);
    assert(less.wanted(last)) by {
        assert(state.wanted(parent));
        if state.roots.contains(parent) {
            assert(less.roots.contains(parent));
        } else {
            let root = choose|root: Seq<char>| #[trigger]
                state.roots.contains(root) && reach::reaches(step, root, parent);
            reach::lemma_joined(step, root, parent, last);
            assert(less.roots.contains(root));
        }
    }
    assert forall|path: Seq<char>| #[trigger] less.collected.contains_key(path) implies less.collected[path].path
        == path && less.wanted(path) by {
        lemma_wanted_by_same(state, less, path);
    }
    assert forall|path: Seq<char>, input: Seq<char>|
        #![trigger less.collected[path].needs(input)]
        !less.given_up && less.collected.contains_key(path) && less.collected[path].needs(
            input,
        ) implies less.collected.contains_key(input) || less.pending.contains(input) || input
        == drv.path by {
        assert(state.collected[path].needs(input));
        if !state.collected.contains_key(input) {
            let k = state.pending.index_of(input);
            if k < less.pending.len() {
                assert(less.pending[k] == input);
            }
        }
    }
    assert forall|i: int| 0 <= i < less.pending.len() implies less.needed(
        #[trigger] less.pending[i],
    ) by {
        lemma_needed_by_same(state, less, state.pending[i]);
    }
    assert forall|path: Seq<char>| #[trigger] less.roots.contains(path) implies less.collected.contains_key(
        path,
    ) || path == drv.path by {
        assert(state.roots.contains(path));
    }
    lemma_met(less, drv);
}

/// A walk that was never given up and is at its end has met exactly the roots and everything that they need, directly or
/// through others.
pub proof fn law_walk_meets_what_is_wanted(state: ClosureModel, path: Seq<char>)
    requires
        state.consistent(),
        state.pending.len() == 0,
        !state.given_up,
    ensures
        graph::closed_under_inputs(state.collected),
        state.collected.contains_key(path) == state.wanted(path),
{
    if state.wanted(path) && !state.roots.contains(path) {
        let root = choose|root: Seq<char>| #[trigger]
            state.roots.contains(root) && reach::reaches(
                graph::needing(state.collected),
                root,
                path,
            );
        graph_laws::lemma_reached_is_there(state.collected, root, path);
    }
}

/// Giving a walk that is at rest a derivation that was met before changes nothing of what was
/// met, and the walk asks for nothing. That is so also after it was given up.
pub proof fn law_met_roots_need_no_reading(
    state: ClosureModel,
    drv: DerivationModel,
    event: WalkEvent,
    after: ClosureModel,
)
    requires
        state.pending.len() == 0,
        state.collected.contains_key(drv.path),
        state.with_root(drv).leads_to(event, after),
    ensures
        state.with_root(drv).collected == state.collected,
        state.with_root(drv).pending.len() == 0,
        forall|path: Seq<char>| !#[trigger] state.with_root(drv).asks_for(path),
        after.collected == state.collected,
        after.pending.len() == 0,
{
}

/// A walk that could not read what it asked for keeps what was met, with the derivation that it
/// was given; the same derivation given again is done at once.
pub proof fn law_failed_reading_is_not_undone(
    state: ClosureModel,
    drv: DerivationModel,
    path: Seq<char>,
)
    requires
        state.collected.contains_key(drv.path),
        state.asks_for(path),
    ensures
        state.abandoned().collected == state.collected,
        state.abandoned().with_root(drv).collected == state.collected,
        state.abandoned().with_root(drv).pending.len() == 0,
        !state.abandoned().collected.contains_key(path),
{
}

/// Whether `events` happen to a walk one after the other and lead through `states`.
pub open spec fn is_walk(states: Seq<ClosureModel>, events: Seq<WalkEvent>) -> bool {
    &&& states.len() == events.len() + 1
    &&& forall|i: int|
        #![trigger events[i]]
        0 <= i < events.len() ==> states[i].leads_to(events[i], states[i + 1])
}

/// Whether a derivation was read for the walk before the event at `end`.
pub open spec fn read_before(events: Seq<WalkEvent>, end: int, drv: DerivationModel) -> bool {
    exists|j: int| 0 <= j < end && #[trigger] events[j] == WalkEvent::Supplied(drv)
}

/// Whether a derivation is the root, or is needed by it, directly or through others.
pub open spec fn from_root(state: ClosureModel, root: Seq<char>, path: Seq<char>) -> bool {
    path == root || reach::reaches(graph::needing(state.collected), root, path)
}

proof fn lemma_from_root_stays(
    state: ClosureModel,
    more: ClosureModel,
    root: Seq<char>,
    path: Seq<char>,
)
    requires
        from_root(state, root, path),
        forall|other: Seq<char>| #[trigger]
            state.collected.contains_key(other) ==> more.collected.contains_key(other)
                && more.collected[other] == state.collected[other],
    ensures
        from_root(more, root, path),
{
    if path != root {
        let step = graph::needing(state.collected);
        let wider = graph::needing(more.collected);
        assert forall|x: Seq<char>, y: Seq<char>| #[trigger] step(x, y) implies wider(x, y) by {
            assert(state.collected.contains_key(x));
        }
        reach::lemma_more_steps(step, wider, root, path);
    }
}

/// Whether a walk that was at rest in `before` and was then given `root` keeps what was met, and
/// whatever is new or still to be looked at comes from the root.
spec fn grown(before: ClosureModel, root: Seq<char>, now: ClosureModel) -> bool {
    &&& forall|path: Seq<char>| #[trigger]
        before.collected.contains_key(path) ==> now.collected.contains_key(path)
            && now.collected[path] == before.collected[path]
    &&& forall|path: Seq<char>| #[trigger]
        now.collected.contains_key(path) && !before.collected.contains_key(path) ==> from_root(
            now,
            root,
            path,
        )
    &&& forall|i: int| 0 <= i < now.pending.len() ==> from_root(now, root, #[trigger] now.pending[i])
}

/// The inputs of a derivation that comes from the root come from it too.
proof fn lemma_grown_by(
    before: ClosureModel,
    root: Seq<char>,
    now: ClosureModel,
    drv: DerivationModel,
)
    requires
        grown(before, root, now),
        from_root(now, root, drv.path),
        !now.collected.contains_key(drv.path),
    ensures
        grown(before, root, now.met(drv)),
{
    let after = now.met(drv);
    let step = graph::needing(after.collected);
    lemma_from_root_stays(now, after, root, drv.path);
    assert forall|path: Seq<char>| #[trigger]
        after.collected.contains_key(path) && !before.collected.contains_key(
            path,
        ) implies from_root(after, root, path) by {
        if path != drv.path {
            assert(now.collected.contains_key(path));
            lemma_from_root_stays(now, after, root, path);
        }
    }
    assert forall|path: Seq<char>| #[trigger] before.collected.contains_key(path) implies after.collected.contains_key(
        path,
    ) && after.collected[path] == before.collected[path] by {
        assert(now.collected.contains_key(path));
    }
    assert forall|i: int| 0 <= i < after.pending.len() implies from_root(
        after,
        root,
        #[trigger] after.pending[i],
    ) by {
        if i < now.pending.len() {
            assert(from_root(now, root, now.pending[i]));
            lemma_from_root_stays(now, after, root, now.pending[i]);
        } else {
            let k = drv.inputs.len() - 1 - (i - now.pending.len());
            let input = drv.inputs[k].0;
            assert(after.pending[i] == input);
            assert(drv.needs(input));
            assert(step(drv.path, input));
            reach::lemma_one_step(step, drv.path, input);
            if drv.path != root {
                reach::lemma_joined(step, root, drv.path, input);
            }
        }
    }
}

proof fn lemma_walk_grows(
    before: ClosureModel,
    root: DerivationModel,
    states: Seq<ClosureModel>,
    events: Seq<WalkEvent>,
    i: int,
)
    requires
        before.pending.len() == 0,
        is_walk(states, events),
        states[0] == before.with_root(root),
        0 <= i < states.len(),
    ensures
        grown(before, root.path, states[i]),
        before.collected.contains_key(root.path) ==> states[i].collected == before.collected
            && states[i].pending.len() == 0,
        forall|path: Seq<char>| #[trigger]
            states[i].collected.contains_key(path) && !before.collected.contains_key(path)
                ==> states[i].collected[path] == root || read_before(
                events,
                i,
                states[i].collected[path],
            ),
    decreases i,
{
    if i == 0 {
        if !before.collected.contains_key(root.path) {
            let rooted = ClosureModel { roots: before.roots.insert(root.path), ..before };
            lemma_grown_by(before, root.path, rooted, root);
        }
    } else {
        lemma_walk_grows(before, root, states, events, i - 1);
        let then = states[i - 1];
        let now = states[i];
        assert(then.leads_to(events[i - 1], states[i - 1 + 1]));
        match events[i - 1] {
            WalkEvent::Passed => {
                assert forall|k: int| 0 <= k < now.pending.len() implies from_root(
                    now,
                    root.path,
                    #[trigger] now.pending[k],
                ) by {
                    assert(now.pending[k] == then.pending[k]);
                }
            },
            WalkEvent::Supplied(drv) => {
                let less = ClosureModel { pending: then.pending.drop_last(), ..then };
                assert(from_root(then, root.path, then.pending[then.pending.len() - 1]));
                assert forall|k: int| 0 <= k < less.pending.len() implies from_root(
                    less,
                    root.path,
                    #[trigger] less.pending[k],
                ) by {
                    assert(from_root(then, root.path, then.pending[k]));
                }
                lemma_grown_by(before, root.path, less, drv);
            },
            WalkEvent::GivenUp => {},
        }
        assert forall|path: Seq<char>| #[trigger]
            now.collected.contains_key(path) && !before.collected.contains_key(
                path,
            ) implies now.collected[path] == root || read_before(events, i, now.collected[path]) by {
            let value = now.collected[path];
            if then.collected.contains_key(path) && then.collected[path] == value {
                if read_before(events, i - 1, value) {
                    let j = choose|j: int|
                        0 <= j < i - 1 && #[trigger] events[j] == WalkEvent::Supplied(value);
                    assert(events[j] == WalkEvent::Supplied(value));
                }
            } else {
                assert(events[i - 1] == WalkEvent::Supplied(value));
            }
        }
    }
}

/// A walk that was at rest and is given a root keeps everything that was met, whether it comes to
/// its end or is given up. What is new is the root or what was read, and the root needs it,
/// directly or through others. A root that was met before adds nothing.
pub proof fn law_walk_adds_what_its_root_needs(
    before: ClosureModel,
    root: DerivationModel,
    states: Seq<ClosureModel>,
    events: Seq<WalkEvent>,
    i: int,
    path: Seq<char>,
)
    requires
        before.pending.len() == 0,
        is_walk(states, events),
        states[0] == before.with_root(root),
        0 <= i < states.len(),
    ensures
        before.collected.contains_key(path) ==> states[i].collected.contains_key(path)
            && states[i].collected[path] == before.collected[path],
        states[i].collected.contains_key(path) && !before.collected.contains_key(path) ==> {
            &&& from_root(states[i], root.path, path)
            &&& states[i].collected[path] == root || read_before(
                events,
                i,
                states[i].collected[path],
            )
        },
        before.collected.contains_key(root.path) ==> states[i].collected == before.collected,
{
    lemma_walk_grows(before, root, states, events, i);
}

/// The inputs of a derivation that is met come next, the first of them first, before anything
/// that was to be looked at already; and what was met stays met.
pub proof fn law_inputs_are_looked_at_in_depth(
    state: ClosureModel,
    drv: DerivationModel,
    k: int,
    i: int,
    path: Seq<char>,
)
    ensures
        state.met(drv).pending.len() == state.pending.len() + drv.inputs.len(),
        0 <= k < drv.inputs.len() ==> state.met(drv).pending[state.met(drv).pending.len() - 1 - k]
            == drv.inputs[k].0,
        0 <= i < state.pending.len() ==> state.met(drv).pending[i] == state.pending[i],
        state.met(drv).collected.contains_key(path) == (state.collected.contains_key(path) || path
            == drv.path),
        state.met(drv).collected[drv.path] == drv,
        state.collected.contains_key(path) && path != drv.path ==> state.met(drv).collected[path]
            == state.collected[path],
        state.met(drv).given_up == state.given_up,
{
}

/// A root is met at once, and is one of the roots from then on.
pub proof fn law_roots_are_met(state: ClosureModel, drv: DerivationModel, path: Seq<char>)
    ensures
        state.with_root(drv).roots.contains(path) == (state.roots.contains(path) || path
            == drv.path),
        state.with_root(drv).collected.contains_key(drv.path),
        state.collected.contains_key(path) ==> state.with_root(drv).collected.contains_key(path)
            && state.with_root(drv).collected[path] == state.collected[path],
        !state.collected.contains_key(drv.path) ==> state.with_root(drv).collected[drv.path] == drv
            && state.with_root(drv).pending.len() == state.pending.len() + drv.inputs.len(),
        state.with_root(drv).given_up == state.given_up,
{
}

/// A walk at its end that was never given up has met everything along every chain of inputs from
/// a root.
pub proof fn law_chains_from_roots_are_met(
    state: ClosureModel,
    way: Seq<Seq<char>>,
    k: int,
)
    requires
        state.consistent(),
        state.pending.len() == 0,
        !state.given_up,
        way.len() > 0,
        state.roots.contains(way[0]),
        forall|m: int|
            #![trigger way[m]]
            0 <= m < way.len() - 1 && state.collected.contains_key(way[m]) ==> exists|j: int|
                0 <= j < state.collected[way[m]].inputs.len() && (
                #[trigger] state.collected[way[m]].inputs[j]).0 == way[m + 1],
        0 <= k < way.len(),
    ensures
        state.collected.contains_key(way[k]),
    decreases k,
{
    if k > 0 {
        law_chains_from_roots_are_met(state, way, k - 1);
        let last = way[k - 1];
        assert(state.collected.contains_key(last));
        let j = choose|j: int|
            0 <= j < state.collected[last].inputs.len() && (
            #[trigger] state.collected[last].inputs[j]).0 == way[k - 1 + 1];
        assert(state.collected[last].needs(way[k]));
    } else {
        assert(state.collected.dom().contains(way[0]));
    }
}

} // verus!
