//! What holds of a run of builds as a whole.

use crate::derivation::DerivationModel;
use crate::graph;
use crate::graph::GraphModel;
use crate::graph_laws;
use crate::reach;
use crate::schedule;
use crate::schedule::{Event, SchedulerModel};
use crate::text;
use vstd::prelude::*;

verus! {

/// Whether `events` happen one after the other and lead through `states`.
pub open spec fn is_run(states: Seq<SchedulerModel>, events: Seq<Event>) -> bool {
    &&& states.len() == events.len() + 1
    &&& forall|i: int|
        #![trigger events[i]]
        0 <= i < events.len() ==> states[i].leads_to(events[i], states[i + 1])
}

/// Whether a derivation was built successfully before the event at `end`.
pub open spec fn built_before(events: Seq<Event>, end: int, path: Seq<char>) -> bool {
    exists|j: int| 0 <= j < end && #[trigger] events[j] == Event::Completed(path, true)
}

/// Every event keeps the limits, and no derivation is ever counted twice.
pub proof fn law_events_keep_the_limits(before: SchedulerModel, event: Event, after: SchedulerModel)
    requires
        before.valid(),
        before.leads_to(event, after),
    ensures
        after.valid(),
{
}

/// At no time of a run are there more builds in progress than the limits allow.
pub proof fn law_limits_hold(states: Seq<SchedulerModel>, events: Seq<Event>, i: int)
    requires
        is_run(states, events),
        states[0].valid(),
        0 <= i < states.len(),
    ensures
        states[i].valid(),
        states[i].building.len() <= states[0].max_jobs,
        states[i].building_local.len() <= states[0].max_local_jobs,
    decreases i,
{
    if i > 0 {
        law_limits_hold(states, events, i - 1);
        assert(states[i - 1].leads_to(events[i - 1], states[i - 1 + 1]));
        law_events_keep_the_limits(states[i - 1], events[i - 1], states[i]);
        lemma_limits_stay(states, events, i);
    }
}

proof fn lemma_limits_stay(states: Seq<SchedulerModel>, events: Seq<Event>, i: int)
    requires
        is_run(states, events),
        0 <= i < states.len(),
    ensures
        states[i].max_jobs == states[0].max_jobs,
        states[i].max_local_jobs == states[0].max_local_jobs,
        states[i].keep_going == states[0].keep_going,
    decreases i,
{
    if i > 0 {
        lemma_limits_stay(states, events, i - 1);
        assert(states[i - 1].leads_to(events[i - 1], states[i - 1 + 1]));
    }
}

/// No derivation comes back to those that were not started.
proof fn lemma_remaining_shrinks(
    states: Seq<SchedulerModel>,
    events: Seq<Event>,
    i: int,
    j: int,
    path: Seq<char>,
)
    requires
        is_run(states, events),
        0 <= i <= j < states.len(),
        !states[i].remaining.contains(path),
    ensures
        !states[j].remaining.contains(path),
    decreases j - i,
{
    if i < j {
        lemma_remaining_shrinks(states, events, i, j - 1, path);
        assert(states[j - 1].leads_to(events[j - 1], states[j - 1 + 1]));
    }
}

/// No derivation is built twice in a run.
pub proof fn law_nothing_is_started_twice(
    states: Seq<SchedulerModel>,
    events: Seq<Event>,
    i: int,
    j: int,
    first: Seq<char>,
    second: Seq<char>,
)
    requires
        is_run(states, events),
        0 <= i < j < events.len(),
        events[i] == Event::Started(first),
        events[j] == Event::Started(second),
    ensures
        first != second,
{
    assert(states[i].leads_to(events[i], states[i + 1]));
    assert(states[j].leads_to(events[j], states[j + 1]));
    lemma_remaining_shrinks(states, events, i + 1, j, first);
}

/// Where everything fits together in the graph at the start, it does so at all times.
proof fn lemma_stays_coherent(states: Seq<SchedulerModel>, events: Seq<Event>, i: int)
    requires
        is_run(states, events),
        graph_laws::coherent(states[0].graph),
        0 <= i < states.len(),
    ensures
        graph_laws::coherent(states[i].graph),
    decreases i,
{
    if i > 0 {
        lemma_stays_coherent(states, events, i - 1);
        let before = states[i - 1];
        assert(before.leads_to(events[i - 1], states[i - 1 + 1]));
        if let Event::Completed(path, succeeded) = events[i - 1] {
            graph_laws::law_removal_keeps_the_rest(before.graph, Set::empty().insert(path));
            graph_laws::law_removal_keeps_the_rest(before.graph, before.graph.rec_dependants[path]);
        }
    }
}

/// A derivation in the graph still waits for each of its inputs that was not built.
proof fn lemma_waits_or_built(
    states: Seq<SchedulerModel>,
    events: Seq<Event>,
    i: int,
    path: Seq<char>,
    input: Seq<char>,
)
    requires
        is_run(states, events),
        graph_laws::coherent(states[0].graph),
        0 <= i < states.len(),
        states[i].graph.has(path),
        states[0].graph.dependencies[path].contains(input),
    ensures
        states[0].graph.has(path),
        states[i].graph.dependencies[path].contains(input) || built_before(events, i, input),
    decreases i,
{
    if i > 0 {
        let before = states[i - 1];
        let after = states[i];
        lemma_stays_coherent(states, events, i - 1);
        assert(before.leads_to(events[i - 1], states[i - 1 + 1]));
        assert(before.graph.has(path));
        lemma_waits_or_built(states, events, i - 1, path, input);
        if built_before(events, i - 1, input) {
            let j = choose|j: int|
                0 <= j < i - 1 && #[trigger] events[j] == Event::Completed(input, true);
            assert(events[j] == Event::Completed(input, true));
        } else if let Event::Completed(other, succeeded) = events[i - 1] {
            let waits = before.graph.rec_dependencies;
            if !succeeded && before.keep_going && before.graph.rec_dependants[other].contains(input) {
                assert(waits[path].contains(input));
                assert(before.graph.drvs.dom().contains(input));
                assert(before.graph.has(input));
                assert(waits[input].contains(other) == before.graph.rec_dependants[other].contains(
                    input,
                ));
                assert(waits[path].contains(other));
                assert(before.graph.rec_dependants[other].contains(path));
            }
        }
    }
}

/// A build starts only when everything that the derivation waits for was built successfully.
pub proof fn law_built_after_what_it_waits_for(
    states: Seq<SchedulerModel>,
    events: Seq<Event>,
    i: int,
    path: Seq<char>,
    input: Seq<char>,
)
    requires
        is_run(states, events),
        graph_laws::coherent(states[0].graph),
        0 <= i < events.len(),
        events[i] == Event::Started(path),
        states[0].graph.dependencies[path].contains(input),
    ensures
        built_before(events, i, input),
{
    assert(states[i].leads_to(events[i], states[i + 1]));
    assert(states[i].graph.drvs.dom().contains(path));
    lemma_waits_or_built(states, events, i, path, input);
}

/// What is in progress was started.
proof fn lemma_progress_was_started(
    states: Seq<SchedulerModel>,
    events: Seq<Event>,
    i: int,
    path: Seq<char>,
) -> (k: int)
    requires
        is_run(states, events),
        !states[0].in_progress(path),
        0 <= i < states.len(),
        states[i].in_progress(path),
    ensures
        0 <= k < i,
        events[k] == Event::Started(path),
    decreases i,
{
    assert(states[i - 1].leads_to(events[i - 1], states[i - 1 + 1]));
    if states[i - 1].in_progress(path) {
        lemma_progress_was_started(states, events, i - 1, path)
    } else {
        i - 1
    }
}

/// Where nothing was taken out of the graph at the start, a build starts only when everything
/// that the derivation needs, directly or through others, was built successfully.
pub proof fn law_everything_needed_is_built_first(
    states: Seq<SchedulerModel>,
    events: Seq<Event>,
    drvs: Map<Seq<char>, DerivationModel>,
    i: int,
    path: Seq<char>,
    other: Seq<char>,
)
    requires
        is_run(states, events),
        states[0] == SchedulerModel::initial(
            states[0].graph,
            states[0].max_jobs,
            states[0].max_local_jobs,
            states[0].keep_going,
        ),
        graph::is_graph_of(states[0].graph, drvs),
        graph::closed_under_inputs(drvs),
        graph_laws::without_circles(drvs),
        drvs.dom().finite(),
        0 <= i < events.len(),
        events[i] == Event::Started(path),
        reach::reaches(graph::needing(drvs), path, other),
    ensures
        built_before(events, i, other),
{
    graph_laws::law_graph_without_circles_is_coherent(states[0].graph, drvs);
    let step = graph::needing(drvs);
    let way = choose|way: Seq<Seq<char>>| reach::leads(step, way, path, other);
    lemma_built_along(states, events, drvs, i, way);
}

proof fn lemma_built_along(
    states: Seq<SchedulerModel>,
    events: Seq<Event>,
    drvs: Map<Seq<char>, DerivationModel>,
    i: int,
    way: Seq<Seq<char>>,
)
    requires
        is_run(states, events),
        states[0].building == Set::<Seq<char>>::empty(),
        states[0].building_local == Set::<Seq<char>>::empty(),
        graph::is_graph_of(states[0].graph, drvs),
        graph_laws::coherent(states[0].graph),
        0 <= i < events.len(),
        reach::is_way(graph::needing(drvs), way),
        events[i] == Event::Started(way[0]),
    ensures
        built_before(events, i, way.last()),
    decreases way.len(),
{
    let step = graph::needing(drvs);
    let next = way[1];
    assert(step(way[0], way[0int + 1]));
    assert(drvs.contains_key(way[0]));
    assert(states[0].graph.dependencies[way[0]].contains(next));
    law_built_after_what_it_waits_for(states, events, i, way[0], next);
    if way.len() > 2 {
        let j = choose|j: int| 0 <= j < i && #[trigger] events[j] == Event::Completed(next, true);
        assert(states[j].leads_to(events[j], states[j + 1]));
        let k = lemma_progress_was_started(states, events, j, next);
        let tail = way.drop_first();
        assert forall|m: int| #![trigger tail[m]] 0 <= m < tail.len() - 1 implies step(
            tail[m],
            tail[m + 1],
        ) by {
            assert(tail[m] == way[m + 1]);
            assert(tail[m + 1] == way[m + 2]);
        }
        lemma_built_along(states, events, drvs, k, tail);
        let b = choose|b: int|
            0 <= b < k && #[trigger] events[b] == Event::Completed(tail.last(), true);
        assert(events[b] == Event::Completed(way.last(), true));
    }
}

/// Derivations that are in the graph wait for each other as they did at the start.
proof fn lemma_waiting_stays(
    states: Seq<SchedulerModel>,
    events: Seq<Event>,
    i: int,
    path: Seq<char>,
    other: Seq<char>,
)
    requires
        is_run(states, events),
        graph_laws::coherent(states[0].graph),
        0 <= i < states.len(),
        states[i].graph.has(path),
        states[i].graph.has(other),
    ensures
        states[i].graph.depends(path, other) == states[0].graph.depends(path, other),
    decreases i,
{
    if i > 0 {
        let before = states[i - 1];
        lemma_stays_coherent(states, events, i - 1);
        assert(before.leads_to(events[i - 1], states[i - 1 + 1]));
        if let Event::Completed(done, succeeded) = events[i - 1] {
            let only = Set::<Seq<char>>::empty().insert(done);
            let waiting = before.graph.rec_dependants[done];
            graph_laws::law_removal_keeps_the_rest(before.graph, only);
            graph_laws::law_removal_keeps_the_rest(before.graph, waiting);
            let gone = if succeeded {
                only
            } else {
                waiting
            };
            if succeeded || before.keep_going {
                assert(!gone.contains(path) && !gone.contains(other));
                assert(before.graph.without(gone).depends(path, other) == before.graph.depends(
                    path,
                    other,
                ));
            }
        }
        lemma_waiting_stays(states, events, i - 1, path, other);
    }
}

/// Nothing comes back into the graph.
proof fn lemma_graph_shrinks(
    states: Seq<SchedulerModel>,
    events: Seq<Event>,
    i: int,
    j: int,
    path: Seq<char>,
)
    requires
        is_run(states, events),
        0 <= i <= j < states.len(),
        !states[i].graph.has(path),
    ensures
        !states[j].graph.has(path),
    decreases j - i,
{
    if i < j {
        lemma_graph_shrinks(states, events, i, j - 1, path);
        assert(states[j - 1].leads_to(events[j - 1], states[j - 1 + 1]));
    }
}

/// Nothing is built that was not in the graph at the start.
pub proof fn law_only_what_is_in_the_graph_is_started(
    states: Seq<SchedulerModel>,
    events: Seq<Event>,
    i: int,
    path: Seq<char>,
)
    requires
        is_run(states, events),
        0 <= i < events.len(),
        events[i] == Event::Started(path),
    ensures
        states[0].graph.has(path),
{
    assert(states[i].leads_to(events[i], states[i + 1]));
    assert(states[i].graph.drvs.dom().contains(path));
    if !states[0].graph.has(path) {
        lemma_graph_shrinks(states, events, 0, i, path);
    }
}

/// After a build failed, nothing is started any more that waits for it.
pub proof fn law_failures_hold_back_what_waits(
    states: Seq<SchedulerModel>,
    events: Seq<Event>,
    i: int,
    j: int,
    failed: Seq<char>,
    path: Seq<char>,
)
    requires
        is_run(states, events),
        graph_laws::coherent(states[0].graph),
        0 <= i < j < events.len(),
        events[i] == Event::Completed(failed, false),
        states[0].graph.depends(path, failed),
    ensures
        events[j] != Event::Started(path),
{
    assert(states[i].leads_to(events[i], states[i + 1]));
    assert(states[i + 1].leads_to(events[i + 1], states[i + 1 + 1]));
    assert(states[j].leads_to(events[j], states[j + 1]));
    if events[j] == Event::Started(path) {
        assert(states[j].graph.drvs.dom().contains(path));
        if !states[i].graph.has(path) {
            lemma_graph_shrinks(states, events, i, j, path);
        } else {
            lemma_stays_coherent(states, events, i);
            lemma_waiting_stays(states, events, i, path, failed);
            let graph = states[i].graph;
            assert(graph.rec_dependencies[path].contains(failed)
                == graph.rec_dependants[failed].contains(path));
            assert(!states[i + 1].graph.has(path));
            lemma_graph_shrinks(states, events, i + 1, j, path);
        }
    }
}

/// Whether a derivation in the graph is to be built, is being built, or has nothing waiting
/// for it.
spec fn accounted_for(state: SchedulerModel) -> bool {
    &&& graph_laws::coherent(state.graph)
    &&& forall|path: Seq<char>| #[trigger]
        state.graph.has(path) ==> state.remaining.contains(path) || state.in_progress(path)
            || state.graph.rec_dependants[path] == Set::<Seq<char>>::empty() || state.stopped
}

proof fn lemma_accounted_for(states: Seq<SchedulerModel>, events: Seq<Event>, i: int)
    requires
        is_run(states, events),
        graph_laws::coherent(states[0].graph),
        states[0].remaining == states[0].graph.drvs.dom(),
        0 <= i < states.len(),
    ensures
        accounted_for(states[i]),
    decreases i,
{
    if i == 0 {
        assert forall|path: Seq<char>| #[trigger] states[0].graph.has(path) implies states[0].remaining.contains(
        path) by {
            assert(states[0].graph.drvs.dom().contains(path));
        }
    } else {
        lemma_accounted_for(states, events, i - 1);
        lemma_stays_coherent(states, events, i);
        let before = states[i - 1];
        let after = states[i];
        assert(before.leads_to(events[i - 1], states[i - 1 + 1]));
        if let Event::Completed(done, succeeded) = events[i - 1] {
            graph_laws::law_removal_keeps_the_rest(before.graph, Set::empty().insert(done));
            graph_laws::law_removal_keeps_the_rest(before.graph, before.graph.rec_dependants[done]);
            assert forall|path: Seq<char>| #[trigger] after.graph.has(path) implies after.remaining.contains(
                path,
            ) || after.in_progress(path) || after.graph.rec_dependants[path] == Set::<
                Seq<char>,
            >::empty() || after.stopped by {
                assert(before.graph.has(path));
                if !after.stopped && !after.remaining.contains(path) && !after.in_progress(path) {
                    if path != done {
                        assert(before.graph.rec_dependants[path] == Set::<Seq<char>>::empty());
                    }
                    assert(after.graph.rec_dependants[path] =~= Set::<Seq<char>>::empty());
                }
            }
        } else if let Event::Started(path) = events[i - 1] {
            assert forall|other: Seq<char>| #[trigger] after.graph.has(other) implies after.remaining.contains(
                other,
            ) || after.in_progress(other) || after.graph.rec_dependants[other] == Set::<
                Seq<char>,
            >::empty() || after.stopped by {
                assert(before.graph.has(other));
            }
        }
    }
}

/// As long as everything that was not started is in the graph and there is room for builds of
/// both kinds, the builds never come to a halt: if nothing is in progress, something can be
/// built, unless everything is done.
pub proof fn law_builds_never_halt(states: Seq<SchedulerModel>, events: Seq<Event>, i: int) -> (path:
    Seq<char>)
    requires
        is_run(states, events),
        graph_laws::coherent(states[0].graph),
        states[0] == SchedulerModel::initial(
            states[0].graph,
            states[0].max_jobs,
            states[0].max_local_jobs,
            states[0].keep_going,
        ),
        states[0].max_jobs > 0,
        states[0].max_local_jobs > 0,
        0 <= i < states.len(),
        states[i].remaining.subset_of(states[i].graph.drvs.dom()),
        states[i].building == Set::<Seq<char>>::empty(),
        states[i].building_local == Set::<Seq<char>>::empty(),
        !states[i].finished(),
    ensures
        states[i].buildable(path),
{
    let state = states[i];
    lemma_accounted_for(states, events, i);
    lemma_limits_stay(states, events, i);
    let remaining = state.remaining;
    let start = choose|path: Seq<char>| #[trigger] remaining.contains(path);
    assert(remaining.contains(start)) by {
        if forall|path: Seq<char>| !#[trigger] remaining.contains(path) {
            assert(remaining =~= Set::empty());
        }
    }
    lemma_one_is_buildable(state, start)
}

proof fn lemma_one_is_buildable(state: SchedulerModel, start: Seq<char>) -> (path: Seq<char>)
    requires
        accounted_for(state),
        !state.stopped,
        state.max_jobs > 0,
        state.max_local_jobs > 0,
        state.remaining.subset_of(state.graph.drvs.dom()),
        state.building == Set::<Seq<char>>::empty(),
        state.building_local == Set::<Seq<char>>::empty(),
        state.remaining.contains(start),
    ensures
        state.buildable(path),
    decreases state.graph.rec_dependencies[start].len(),
{
    let graph = state.graph;
    assert(graph.drvs.dom().contains(start));
    assert(graph.has(start));
    let direct = graph.dependencies[start];
    if direct == Set::<Seq<char>>::empty() {
        start
    } else {
        let next = choose|path: Seq<char>| #[trigger] direct.contains(path);
        assert(direct.contains(next)) by {
            if forall|path: Seq<char>| !#[trigger] direct.contains(path) {
                assert(direct =~= Set::empty());
            }
        }
        let here = graph.rec_dependencies[start];
        let there = graph.rec_dependencies[next];
        assert(here.contains(next));
        assert(graph.drvs.dom().contains(next));
        assert(graph.has(next));
        assert(graph.rec_dependants[next].contains(start));
        assert(state.remaining.contains(next));
        assert(there.subset_of(here.remove(next))) by {
            assert forall|third: Seq<char>| there.contains(third) implies here.remove(next).contains(
            third) by {
                assert(here.contains(third));
            }
        }
        vstd::set_lib::lemma_set_subset_finite(graph.drvs.dom(), here);
        vstd::set_lib::lemma_len_subset(there, here.remove(next));
        lemma_one_is_buildable(state, next)
    }
}

/// Whether no build failed before the event at `end`.
pub open spec fn all_succeed(events: Seq<Event>, end: int) -> bool {
    forall|j: int| 0 <= j < end ==> !((#[trigger] events[j]) matches Event::Completed(_, false))
}

proof fn lemma_built_or_there(
    states: Seq<SchedulerModel>,
    events: Seq<Event>,
    i: int,
    path: Seq<char>,
)
    requires
        is_run(states, events),
        states[0].remaining == states[0].graph.drvs.dom(),
        states[0].graph.has(path),
        0 <= i < states.len(),
        all_succeed(events, i),
    ensures
        states[i].graph.has(path) ==> states[i].remaining.contains(path) || states[i].in_progress(
            path,
        ),
        states[i].graph.has(path) || built_before(events, i, path),
        states[i].graph.drvs.dom().subset_of(states[0].graph.drvs.dom()),
    decreases i,
{
    if i == 0 {
        assert(states[0].graph.drvs.dom().contains(path));
    } else {
        lemma_built_or_there(states, events, i - 1, path);
        let before = states[i - 1];
        assert(before.leads_to(events[i - 1], states[i - 1 + 1]));
        if built_before(events, i - 1, path) {
            let j = choose|j: int|
                0 <= j < i - 1 && #[trigger] events[j] == Event::Completed(path, true);
            assert(events[j] == Event::Completed(path, true));
        }
        if let Event::Completed(done, succeeded) = events[i - 1] {
            assert(succeeded);
            if done == path {
                assert(events[i - 1] == Event::Completed(path, true));
            }
        }
    }
}

/// A run in which no build fails and that comes to its end has built everything.
pub proof fn law_successful_run_builds_everything(
    states: Seq<SchedulerModel>,
    events: Seq<Event>,
    path: Seq<char>,
)
    requires
        is_run(states, events),
        states[0].remaining == states[0].graph.drvs.dom(),
        !states[0].stopped,
        all_succeed(events, events.len() as int),
        states.last().finished(),
        states[0].graph.has(path),
    ensures
        built_before(events, events.len() as int, path),
{
    lemma_built_or_there(states, events, events.len() as int, path);
    lemma_not_stopped(states, events, events.len() as int);
}

proof fn lemma_not_stopped(states: Seq<SchedulerModel>, events: Seq<Event>, i: int)
    requires
        is_run(states, events),
        !states[0].stopped,
        0 <= i < states.len(),
        all_succeed(events, i),
    ensures
        !states[i].stopped,
    decreases i,
{
    if i > 0 {
        lemma_not_stopped(states, events, i - 1);
        assert(states[i - 1].leads_to(events[i - 1], states[i - 1 + 1]));
        if let Event::Completed(done, succeeded) = events[i - 1] {
            assert(succeeded);
        }
    }
}

/// Where builds do not go on after a failure, the first failure is the end.
pub proof fn law_failure_is_the_end(
    before: SchedulerModel,
    path: Seq<char>,
    after: SchedulerModel,
    event: Event,
    later: SchedulerModel,
)
    requires
        !before.keep_going,
        before.leads_to(Event::Completed(path, false), after),
    ensures
        after.finished(),
        !after.leads_to(event, later),
{
}

/// Whether the build of a derivation ended, in whatever way, before the event at `end`.
pub open spec fn ended_before(events: Seq<Event>, end: int, path: Seq<char>) -> bool {
    exists|j: int|
        0 <= j < end && ((#[trigger] events[j]) matches Event::Completed(done, _) && done == path)
}

/// Where builds go on after a failure, nothing ever ends everything.
proof fn lemma_keeps_going(states: Seq<SchedulerModel>, events: Seq<Event>, i: int)
    requires
        is_run(states, events),
        states[0].keep_going,
        !states[0].stopped,
        0 <= i < states.len(),
    ensures
        states[i].keep_going,
        !states[i].stopped,
    decreases i,
{
    if i > 0 {
        lemma_keeps_going(states, events, i - 1);
        assert(states[i - 1].leads_to(events[i - 1], states[i - 1 + 1]));
    }
}

/// Every derivation is still to be built, is being built, or its build ended.
proof fn lemma_ended_or_there(
    states: Seq<SchedulerModel>,
    events: Seq<Event>,
    i: int,
    path: Seq<char>,
)
    requires
        is_run(states, events),
        states[0].remaining.contains(path),
        0 <= i < states.len(),
    ensures
        states[i].remaining.contains(path) || states[i].in_progress(path) || ended_before(
            events,
            i,
            path,
        ),
    decreases i,
{
    if i > 0 {
        lemma_ended_or_there(states, events, i - 1, path);
        assert(states[i - 1].leads_to(events[i - 1], states[i - 1 + 1]));
        if ended_before(events, i - 1, path) {
            let j = choose|j: int|
                0 <= j < i - 1 && ((#[trigger] events[j]) matches Event::Completed(done, _) && done
                    == path);
            assert(events[j] matches Event::Completed(done, _) && done == path);
        } else if let Event::Completed(done, _) = events[i - 1] {
            if done == path {
                assert(ended_before(events, i, path));
            }
        }
    }
}

/// Where builds go on after a failure, a run that comes to its end has tried everything: the
/// build of every derivation ended, in success or in failure.
pub proof fn law_finished_run_has_tried_everything(
    states: Seq<SchedulerModel>,
    events: Seq<Event>,
    path: Seq<char>,
)
    requires
        is_run(states, events),
        states[0] == SchedulerModel::initial(
            states[0].graph,
            states[0].max_jobs,
            states[0].max_local_jobs,
            states[0].keep_going,
        ),
        states[0].keep_going,
        states.last().finished(),
        states[0].graph.has(path),
    ensures
        ended_before(events, events.len() as int, path),
{
    assert(states[0].graph.drvs.dom().contains(path));
    lemma_keeps_going(states, events, events.len() as int);
    lemma_ended_or_there(states, events, events.len() as int, path);
}

/// Whether nothing waits, at the start, for any derivation whose build fails.
pub open spec fn nothing_waits_for_failures(
    graph: GraphModel,
    events: Seq<Event>,
) -> bool {
    forall|j: int|
        0 <= j < events.len() ==> ((#[trigger] events[j]) matches Event::Completed(path, false)
            ==> graph.rec_dependants[path] == Set::<Seq<char>>::empty())
}

/// What waits for a derivation was waiting for it at the start.
proof fn lemma_dependants_shrink(
    states: Seq<SchedulerModel>,
    events: Seq<Event>,
    i: int,
    path: Seq<char>,
)
    requires
        is_run(states, events),
        0 <= i < states.len(),
        states[i].graph.has(path),
    ensures
        states[i].graph.rec_dependants[path].subset_of(states[0].graph.rec_dependants[path]),
    decreases i,
{
    if i > 0 {
        assert(states[i - 1].leads_to(events[i - 1], states[i - 1 + 1]));
        lemma_dependants_shrink(states, events, i - 1, path);
    }
}

/// Failures of derivations for which nothing waits leave everything that was not started in the
/// graph, so that the builds go on.
pub proof fn law_failures_without_dependants_do_no_harm(
    states: Seq<SchedulerModel>,
    events: Seq<Event>,
    i: int,
)
    requires
        is_run(states, events),
        states[0] == SchedulerModel::initial(
            states[0].graph,
            states[0].max_jobs,
            states[0].max_local_jobs,
            states[0].keep_going,
        ),
        states[0].graph.drvs.dom().finite(),
        nothing_waits_for_failures(states[0].graph, events),
        0 <= i < states.len(),
    ensures
        states[i].remaining.subset_of(states[i].graph.drvs.dom()),
    decreases i,
{
    if i > 0 {
        law_failures_without_dependants_do_no_harm(states, events, i - 1);
        law_limits_hold(states, events, i - 1);
        let before = states[i - 1];
        let after = states[i];
        assert(before.leads_to(events[i - 1], states[i - 1 + 1]));
        if let Event::Completed(done, succeeded) = events[i - 1] {
            lemma_dependants_shrink(states, events, i - 1, done);
            assert(!before.remaining.contains(done));
            if !succeeded {
                assert(events[i - 1] matches Event::Completed(path, false));
                assert(before.graph.rec_dependants[done] =~= Set::<Seq<char>>::empty());
            }
            assert forall|path: Seq<char>| after.remaining.contains(path) implies after.graph.drvs.dom().contains(
            path) by {
                assert(before.graph.drvs.dom().contains(path));
            }
        }
    }
}

/// How much is left to happen: two events for each derivation that was not started, and one for
/// each build in progress.
spec fn events_left(state: SchedulerModel) -> nat {
    2 * state.remaining.len() + state.building.len() + state.building_local.len()
}

proof fn lemma_events_left(before: SchedulerModel, event: Event, after: SchedulerModel)
    requires
        before.valid(),
        before.leads_to(event, after),
    ensures
        events_left(after) < events_left(before),
{
    if let Event::Completed(path, _) = event {
        if before.building.contains(path) {
            assert(!before.building_local.contains(path));
            assert(after.building_local =~= before.building_local);
        } else {
            assert(after.building =~= before.building);
        }
    }
}

proof fn lemma_run_is_short(states: Seq<SchedulerModel>, events: Seq<Event>, i: int)
    requires
        is_run(states, events),
        states[0].valid(),
        0 <= i < states.len(),
    ensures
        events_left(states[i]) + i <= events_left(states[0]),
    decreases i,
{
    if i > 0 {
        lemma_run_is_short(states, events, i - 1);
        law_limits_hold(states, events, i - 1);
        assert(states[i - 1].leads_to(events[i - 1], states[i - 1 + 1]));
        lemma_events_left(states[i - 1], events[i - 1], states[i]);
    }
}

/// Every run ends: no more happens than that each derivation is started once and its build ends
/// once.
pub proof fn law_runs_end(states: Seq<SchedulerModel>, events: Seq<Event>)
    requires
        is_run(states, events),
        states[0] == SchedulerModel::initial(
            states[0].graph,
            states[0].max_jobs,
            states[0].max_local_jobs,
            states[0].keep_going,
        ),
        states[0].graph.drvs.dom().finite(),
    ensures
        events.len() <= 2 * states[0].remaining.len(),
{
    lemma_run_is_short(states, events, events.len() as int);
}

/// What is neither to be built nor being built stays so.
proof fn lemma_done_stays_done(
    states: Seq<SchedulerModel>,
    events: Seq<Event>,
    i: int,
    j: int,
    path: Seq<char>,
)
    requires
        is_run(states, events),
        0 <= i <= j < states.len(),
        !states[i].remaining.contains(path),
        !states[i].in_progress(path),
    ensures
        !states[j].remaining.contains(path),
        !states[j].in_progress(path),
    decreases j - i,
{
    if i < j {
        lemma_done_stays_done(states, events, i, j - 1, path);
        assert(states[j - 1].leads_to(events[j - 1], states[j - 1 + 1]));
    }
}

/// No build ends twice in a run.
pub proof fn law_nothing_ends_twice(
    states: Seq<SchedulerModel>,
    events: Seq<Event>,
    i: int,
    j: int,
    first: Seq<char>,
    first_succeeded: bool,
    second: Seq<char>,
    second_succeeded: bool,
)
    requires
        is_run(states, events),
        states[0].valid(),
        0 <= i < j < events.len(),
        events[i] == Event::Completed(first, first_succeeded),
        events[j] == Event::Completed(second, second_succeeded),
    ensures
        first != second,
{
    law_limits_hold(states, events, i);
    assert(states[i].leads_to(events[i], states[i + 1]));
    assert(states[j].leads_to(events[j], states[j + 1]));
    assert(!states[i].remaining.contains(first));
    lemma_done_stays_done(states, events, i + 1, j, first);
}

/// Where no build can start and none is in progress, nothing will ever happen any more.
pub proof fn law_waiting_for_nothing_is_for_ever(
    state: SchedulerModel,
    event: Event,
    after: SchedulerModel,
)
    requires
        forall|path: Seq<char>| !#[trigger] state.buildable(path),
        state.building == Set::<Seq<char>>::empty(),
        state.building_local == Set::<Seq<char>>::empty(),
    ensures
        !state.leads_to(event, after),
{
}

/// Which build starts next is determined: no two derivations both rank above all others that
/// can be built.
pub proof fn law_next_build_is_determined(state: SchedulerModel, a: Seq<char>, b: Seq<char>)
    requires
        state.buildable(a),
        state.buildable(b),
        forall|other: Seq<char>| #[trigger]
            state.buildable(other) && other != a ==> schedule::ranks_above(state.graph, a, other),
        forall|other: Seq<char>| #[trigger]
            state.buildable(other) && other != b ==> schedule::ranks_above(state.graph, b, other),
    ensures
        a == b,
{
    if a != b {
        assert(schedule::ranks_above(state.graph, a, b));
        assert(schedule::ranks_above(state.graph, b, a));
        text::lemma_precedes_transitive(a, b, a);
        text::lemma_precedes_irreflexive(a);
    }
}

/// Of two derivations that both can be built, the one for which more wait comes first, and of two
/// for which as many wait the one whose path is the later in the order of texts.
pub proof fn law_most_awaited_comes_first(graph: GraphModel, a: Seq<char>, b: Seq<char>)
    ensures
        graph.rec_dependants[a].len() > graph.rec_dependants[b].len() ==> schedule::ranks_above(
            graph,
            a,
            b,
        ) && !schedule::ranks_above(graph, b, a),
        graph.rec_dependants[a].len() == graph.rec_dependants[b].len() ==> schedule::ranks_above(
            graph,
            a,
            b,
        ) == text::text_precedes(b, a),
        schedule::ranks_above(graph, a, b) ==> graph.rec_dependants[a].len()
            >= graph.rec_dependants[b].len(),
{
}

/// What is chosen is maximal: nothing else that can be built has more derivations waiting for it.
pub proof fn law_nothing_better_is_passed_over(
    state: SchedulerModel,
    chosen: Seq<char>,
    other: Seq<char>,
)
    requires
        forall|path: Seq<char>| #[trigger]
            state.buildable(path) && path != chosen ==> schedule::ranks_above(
                state.graph,
                chosen,
                path,
            ),
        state.remaining.contains(other),
        state.graph.dependencies[other] == Set::<Seq<char>>::empty(),
        if state.graph.drvs[other].is_local() {
            state.building_local.len() < state.max_local_jobs
        } else {
            state.building.len() < state.max_jobs
        },
    ensures
        state.graph.rec_dependants[other].len() <= state.graph.rec_dependants[chosen].len(),
        other != chosen && state.graph.rec_dependants[other].len()
            == state.graph.rec_dependants[chosen].len() ==> text::text_precedes(other, chosen),
{
    assert(state.buildable(other));
}

/// A derivation that was not started and waits for nothing can be built as long as there are
/// fewer builds of its kind than the limit for that kind, however many there are of the other
/// kind.
pub proof fn law_room_is_used(state: SchedulerModel, path: Seq<char>)
    ensures
        state.buildable(path) ==> state.remaining.contains(path) && state.graph.dependencies[path]
            == Set::<Seq<char>>::empty(),
        state.remaining.contains(path) && state.graph.dependencies[path] == Set::<
            Seq<char>,
        >::empty() && state.graph.drvs[path].is_local() ==> state.buildable(path) == (
        state.building_local.len() < state.max_local_jobs),
        state.remaining.contains(path) && state.graph.dependencies[path] == Set::<
            Seq<char>,
        >::empty() && !state.graph.drvs[path].is_local() ==> state.buildable(path) == (
        state.building.len() < state.max_jobs),
{
}

/// A build that starts is in progress, of its own kind and no longer among those that were not
/// started; nothing else changes.
pub proof fn law_start_moves_one_derivation(
    state: SchedulerModel,
    path: Seq<char>,
    other: Seq<char>,
)
    ensures
        !state.started(path).remaining.contains(path),
        state.graph.drvs[path].is_local() ==> state.started(path).building_local.contains(path)
            && state.started(path).building == state.building,
        !state.graph.drvs[path].is_local() ==> state.started(path).building.contains(path)
            && state.started(path).building_local == state.building_local,
        other != path ==> state.started(path).remaining.contains(other)
            == state.remaining.contains(other) && state.started(path).building.contains(other)
            == state.building.contains(other) && state.started(path).building_local.contains(other)
            == state.building_local.contains(other),
        state.started(path).graph == state.graph,
        state.started(path).success_count == state.success_count,
        state.started(path).stopped == state.stopped,
{
}

/// The end of a build takes it out of those in progress. Success takes it out of the graph and
/// nothing else; a failure that is survived takes out exactly what waits for it; any other
/// failure takes out nothing and ends everything.
pub proof fn law_end_of_a_build(state: SchedulerModel, path: Seq<char>, other: Seq<char>)
    requires
        !state.stopped,
    ensures
        !state.completed(path, true).in_progress(path),
        !state.completed(path, false).in_progress(path),
        other != path ==> state.completed(path, true).in_progress(other) == state.in_progress(other),
        other != path ==> state.completed(path, false).in_progress(other) == state.in_progress(
            other,
        ),
        state.completed(path, true).remaining == state.remaining,
        state.completed(path, false).remaining == state.remaining,
        state.completed(path, true).graph.drvs.contains_key(other) == (state.graph.drvs.contains_key(
            other,
        ) && other != path),
        state.keep_going ==> state.completed(path, false).graph.drvs.contains_key(other) == (
        state.graph.drvs.contains_key(other) && !state.graph.rec_dependants[path].contains(other)),
        !state.keep_going ==> state.completed(path, false).graph == state.graph,
        !state.completed(path, true).stopped,
        state.completed(path, false).stopped == !state.keep_going,
        state.completed(path, true).success_count == state.success_count + 1,
        state.completed(path, false).success_count == state.success_count,
{
}

} // verus!
