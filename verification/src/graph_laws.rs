//! What holds of build graphs as a whole.

use crate::derivation::DerivationModel;
use crate::graph;
use crate::graph::GraphModel;
use crate::reach;
use vstd::prelude::*;

verus! {

/// Taking out some derivations and then others is taking out all of them.
pub proof fn law_removals_add_up(graph: GraphModel, first: Set<Seq<char>>, second: Set<Seq<char>>)
    requires
        first.disjoint(second),
        second.subset_of(graph.drvs.dom()),
    ensures
        graph.without(first).without(second) == graph.without(first.union(second)),
{
    let one = graph.without(first);
    let two = one.without(second);
    let both = graph.without(first.union(second));
    assert forall|path: Seq<char>| #[trigger] both.has(path) implies {
        &&& two.dependencies[path] == both.dependencies[path]
        &&& two.dependants[path] == both.dependants[path]
        &&& two.rec_dependencies[path] == both.rec_dependencies[path]
        &&& two.rec_dependants[path] == both.rec_dependants[path]
    } by {
        assert(two.has(path));
        assert(two.dependencies[path] =~= both.dependencies[path]);
        assert(two.dependants[path] =~= both.dependants[path]);
        assert forall|other: Seq<char>| second.contains(other) implies one.has(other) by {
            assert(graph.drvs.dom().contains(other));
            assert(!first.contains(other));
        }
        assert(two.rec_dependencies[path] =~= both.rec_dependencies[path]);
        assert(two.rec_dependants[path] =~= both.rec_dependants[path]);
    }
    assert(two.drvs =~= both.drvs);
    assert(two.dependencies =~= both.dependencies) by {
        assert(two.dependencies.dom() =~= both.dependencies.dom());
        assert forall|path: Seq<char>| two.dependencies.contains_key(path) implies two.dependencies[path]
            == both.dependencies[path] by {
            assert(both.has(path));
        }
    }
    assert(two.dependants =~= both.dependants) by {
        assert(two.dependants.dom() =~= both.dependants.dom());
        assert forall|path: Seq<char>| two.dependants.contains_key(path) implies two.dependants[path]
            == both.dependants[path] by {
            assert(both.has(path));
        }
    }
    assert(two.rec_dependencies =~= both.rec_dependencies) by {
        assert(two.rec_dependencies.dom() =~= both.rec_dependencies.dom());
        assert forall|path: Seq<char>| two.rec_dependencies.contains_key(path) implies two.rec_dependencies[path]
            == both.rec_dependencies[path] by {
            assert(both.has(path));
        }
    }
    assert(two.rec_dependants =~= both.rec_dependants) by {
        assert(two.rec_dependants.dom() =~= both.rec_dependants.dom());
        assert forall|path: Seq<char>| two.rec_dependants.contains_key(path) implies two.rec_dependants[path]
            == both.rec_dependants[path] by {
            assert(both.has(path));
        }
    }
    assert(two =~= both);
}

/// A graph from which nothing is taken out stays the same.
pub proof fn lemma_nothing_removed(graph: GraphModel)
    requires
        graph.dependencies.dom() == graph.drvs.dom(),
        graph.dependants.dom() == graph.drvs.dom(),
        graph.rec_dependencies.dom() == graph.drvs.dom(),
        graph.rec_dependants.dom() == graph.drvs.dom(),
    ensures
        graph.without(Set::empty()) == graph,
{
    let same = graph.without(Set::empty());
    assert(same.drvs =~= graph.drvs);
    assert(same.dependencies =~~= graph.dependencies);
    assert(same.dependants =~~= graph.dependants);
    assert(same.rec_dependencies =~~= graph.rec_dependencies);
    assert(same.rec_dependants =~~= graph.rec_dependants);
}

/// Whether no derivation needs itself, directly or through others.
pub open spec fn without_circles(drvs: Map<Seq<char>, DerivationModel>) -> bool {
    forall|path: Seq<char>| !#[trigger] reach::reaches(graph::needing(drvs), path, path)
}

/// Whether what a graph notes fits together: it notes something of its own derivations only,
/// who waits for whom is the same read from both sides, waiting goes on through others, and
/// nothing waits for itself.
pub open spec fn coherent(graph: GraphModel) -> bool {
    let all = graph.drvs.dom();
    let waits = graph.rec_dependencies;
    &&& all.finite()
    &&& graph.dependencies.dom() == all
    &&& graph.dependants.dom() == all
    &&& graph.rec_dependencies.dom() == all
    &&& graph.rec_dependants.dom() == all
    &&& forall|path: Seq<char>| #[trigger]
        graph.has(path) ==> graph.dependencies[path].subset_of(waits[path]) && waits[path].subset_of(
            all,
        ) && graph.rec_dependants[path].subset_of(all) && graph.dependants[path].subset_of(all)
            && !waits[path].contains(path)
    &&& forall|path: Seq<char>, other: Seq<char>|
        graph.has(path) && graph.has(other) ==> #[trigger] waits[path].contains(other)
            == graph.rec_dependants[other].contains(path)
    &&& forall|path: Seq<char>, other: Seq<char>|
        graph.has(path) && graph.has(other) ==> #[trigger] graph.dependencies[path].contains(other)
            == graph.dependants[other].contains(path)
    &&& forall|path: Seq<char>, other: Seq<char>, third: Seq<char>|
        graph.has(path) && graph.has(other) && #[trigger] waits[path].contains(other)
            && #[trigger] waits[other].contains(third) ==> waits[path].contains(third)
}

/// What is needed through others is among derivations that are closed under their inputs.
pub proof fn lemma_reached_is_there(
    drvs: Map<Seq<char>, DerivationModel>,
    path: Seq<char>,
    other: Seq<char>,
)
    requires
        graph::closed_under_inputs(drvs),
        reach::reaches(graph::needing(drvs), path, other),
    ensures
        drvs.contains_key(path),
        drvs.contains_key(other),
{
    let step = graph::needing(drvs);
    let first = reach::lemma_first_step(step, path, other);
    reach::lemma_walked_back(step, path, other);
    let last = reach::lemma_first_step(reach::reversed(step), other, path);
    assert(step(last, other));
    assert(drvs[last].needs(other));
}

/// Without circles no way runs into one, in either direction.
proof fn lemma_all_ways_end(drvs: Map<Seq<char>, DerivationModel>, path: Seq<char>)
    requires
        without_circles(drvs),
    ensures
        reach::ends(graph::needing(drvs), path),
        reach::ends(reach::reversed(graph::needing(drvs)), path),
{
    let step = graph::needing(drvs);
    assert forall|b: Seq<char>| b == path || #[trigger] reach::reaches(
        reach::reversed(step),
        path,
        b,
    ) implies !reach::reaches(reach::reversed(step), b, b) by {
        reach::lemma_walked_back(step, b, b);
    }
}

/// The graph of derivations without circles says of two of them that one waits for the other
/// exactly if it needs the other, directly or through others.
pub proof fn law_waiting_is_needing(
    graph: GraphModel,
    drvs: Map<Seq<char>, DerivationModel>,
    path: Seq<char>,
    other: Seq<char>,
)
    requires
        graph::is_graph_of(graph, drvs),
        graph::closed_under_inputs(drvs),
        without_circles(drvs),
    ensures
        graph.depends(path, other) == reach::reaches(graph::needing(drvs), path, other),
{
    let step = graph::needing(drvs);
    if graph.depends(path, other) {
        assert(drvs.contains_key(path));
        assert(graph.rec_dependencies[path].contains(other));
    }
    if reach::reaches(step, path, other) {
        lemma_reached_is_there(drvs, path, other);
        lemma_all_ways_end(drvs, path);
    }
}

/// There is only one graph of derivations without circles, in whatever order they are given.
pub proof fn law_graph_is_determined(
    one: GraphModel,
    other: GraphModel,
    drvs: Map<Seq<char>, DerivationModel>,
)
    requires
        graph::is_graph_of(one, drvs),
        graph::is_graph_of(other, drvs),
        without_circles(drvs),
    ensures
        one == other,
{
    assert forall|path: Seq<char>| #[trigger] drvs.contains_key(path) implies {
        &&& one.dependencies[path] == other.dependencies[path]
        &&& one.dependants[path] == other.dependants[path]
        &&& one.rec_dependencies[path] == other.rec_dependencies[path]
        &&& one.rec_dependants[path] == other.rec_dependants[path]
    } by {
        lemma_all_ways_end(drvs, path);
        assert(one.rec_dependencies[path] =~= other.rec_dependencies[path]);
        assert(one.rec_dependants[path] =~= other.rec_dependants[path]);
    }
    assert(one.dependencies =~= other.dependencies) by {
        assert forall|path: Seq<char>| one.dependencies.contains_key(path) implies drvs.contains_key(
        path) by {
            assert(drvs.dom().contains(path));
        }
    }
    assert(one.dependants =~= other.dependants) by {
        assert forall|path: Seq<char>| one.dependants.contains_key(path) implies drvs.contains_key(
        path) by {
            assert(drvs.dom().contains(path));
        }
    }
    assert(one.rec_dependencies =~= other.rec_dependencies) by {
        assert forall|path: Seq<char>| one.rec_dependencies.contains_key(path) implies drvs.contains_key(
        path) by {
            assert(drvs.dom().contains(path));
        }
    }
    assert(one.rec_dependants =~= other.rec_dependants) by {
        assert forall|path: Seq<char>| one.rec_dependants.contains_key(path) implies drvs.contains_key(
        path) by {
            assert(drvs.dom().contains(path));
        }
    }
}

/// In the graph of derivations without circles everything fits together.
pub proof fn law_graph_without_circles_is_coherent(
    graph: GraphModel,
    drvs: Map<Seq<char>, DerivationModel>,
)
    requires
        graph::is_graph_of(graph, drvs),
        graph::closed_under_inputs(drvs),
        without_circles(drvs),
        drvs.dom().finite(),
    ensures
        coherent(graph),
{
    let step = graph::needing(drvs);
    let all = graph.drvs.dom();
    let waits = graph.rec_dependencies;
    assert forall|path: Seq<char>| #[trigger] graph.has(path) implies {
        &&& graph.dependencies[path].subset_of(waits[path])
        &&& waits[path].subset_of(all)
        &&& graph.rec_dependants[path].subset_of(all)
        &&& graph.dependants[path].subset_of(all)
        &&& !waits[path].contains(path)
    } by {
        assert(drvs.contains_key(path));
        assert forall|other: Seq<char>| waits[path].contains(other) implies all.contains(other) by {
            lemma_reached_is_there(drvs, path, other);
        }
        assert forall|other: Seq<char>| graph.rec_dependants[path].contains(other) implies all.contains(
        other) by {
            lemma_reached_is_there(drvs, other, path);
        }
    }
    assert forall|path: Seq<char>, other: Seq<char>|
        graph.has(path) && graph.has(other) implies #[trigger] waits[path].contains(other)
        == graph.rec_dependants[other].contains(path) by {
        lemma_all_ways_end(drvs, path);
        lemma_all_ways_end(drvs, other);
        assert(drvs.contains_key(path) && drvs.contains_key(other));
    }
    assert forall|path: Seq<char>, other: Seq<char>|
        graph.has(path) && graph.has(other) implies #[trigger] graph.dependencies[path].contains(other)
        == graph.dependants[other].contains(path) by {
        assert(drvs.contains_key(path) && drvs.contains_key(other));
    }
    assert forall|path: Seq<char>, other: Seq<char>, third: Seq<char>|
        graph.has(path) && graph.has(other) && #[trigger] waits[path].contains(other)
            && #[trigger] waits[other].contains(third) implies waits[path].contains(third) by {
        reach::lemma_joined(step, path, other, third);
        lemma_all_ways_end(drvs, path);
        assert(drvs.contains_key(path));
    }
}

/// Taking derivations out keeps everything fitting together, and changes nothing in who waits
/// for whom among the others.
pub proof fn law_removal_keeps_the_rest(graph: GraphModel, gone: Set<Seq<char>>)
    requires
        coherent(graph),
    ensures
        coherent(graph.without(gone)),
        forall|path: Seq<char>, other: Seq<char>|
            !gone.contains(path) && !gone.contains(other) ==> #[trigger] graph.without(
                gone,
            ).depends(path, other) == graph.depends(path, other),
        forall|path: Seq<char>| #[trigger]
            graph.without(gone).has(path) ==> {
                &&& graph.without(gone).rec_dependencies[path]
                    == graph.rec_dependencies[path].difference(gone)
                &&& graph.without(gone).rec_dependants[path]
                    == graph.rec_dependants[path].difference(gone)
            },
{
    let rest = graph.without(gone);
    assert(rest.drvs.dom() =~= graph.drvs.dom().difference(gone));
    assert(rest.dependencies.dom() =~= rest.drvs.dom());
    assert(rest.dependants.dom() =~= rest.drvs.dom());
    assert(rest.rec_dependencies.dom() =~= rest.drvs.dom());
    assert(rest.rec_dependants.dom() =~= rest.drvs.dom());
    assert forall|path: Seq<char>| #[trigger] rest.has(path) implies {
        &&& rest.rec_dependencies[path] == graph.rec_dependencies[path].difference(gone)
        &&& rest.rec_dependants[path] == graph.rec_dependants[path].difference(gone)
    } by {
        assert(graph.has(path));
        assert forall|other: Seq<char>| graph.rec_dependencies[path].contains(other) implies #[trigger] graph.has(other)
            && graph.rec_dependants[other].contains(path) by {
            assert(graph.drvs.dom().contains(other));
        }
        assert forall|other: Seq<char>| graph.rec_dependants[path].contains(other) implies #[trigger] graph.has(other)
            && graph.rec_dependencies[other].contains(path) by {
            assert(graph.drvs.dom().contains(other));
            assert(graph.rec_dependencies[other].contains(path)
                == graph.rec_dependants[path].contains(other));
        }
        assert(rest.rec_dependencies[path] =~= graph.rec_dependencies[path].difference(gone));
        assert(rest.rec_dependants[path] =~= graph.rec_dependants[path].difference(gone));
    }
    assert forall|path: Seq<char>| #[trigger] rest.has(path) implies {
        &&& rest.dependencies[path].subset_of(rest.rec_dependencies[path])
        &&& rest.rec_dependencies[path].subset_of(rest.drvs.dom())
        &&& rest.rec_dependants[path].subset_of(rest.drvs.dom())
        &&& rest.dependants[path].subset_of(rest.drvs.dom())
        &&& !rest.rec_dependencies[path].contains(path)
    } by {
        assert(graph.has(path));
    }
    assert forall|path: Seq<char>, other: Seq<char>|
        rest.has(path) && rest.has(other) implies #[trigger] rest.rec_dependencies[path].contains(
        other,
    ) == rest.rec_dependants[other].contains(path) by {
        assert(graph.has(path) && graph.has(other));
        assert(graph.rec_dependencies[path].contains(other)
            == graph.rec_dependants[other].contains(path));
    }
    assert forall|path: Seq<char>, other: Seq<char>|
        rest.has(path) && rest.has(other) implies #[trigger] rest.dependencies[path].contains(other)
        == rest.dependants[other].contains(path) by {
        assert(graph.has(path) && graph.has(other));
        assert(graph.dependencies[path].contains(other) == graph.dependants[other].contains(path));
    }
    assert forall|path: Seq<char>, other: Seq<char>, third: Seq<char>|
        rest.has(path) && rest.has(other) && #[trigger] rest.rec_dependencies[path].contains(other)
            && #[trigger] rest.rec_dependencies[other].contains(
            third,
        ) implies rest.rec_dependencies[path].contains(third) by {
        assert(graph.has(path) && graph.has(other));
        assert(graph.rec_dependencies[path].contains(other));
        assert(graph.rec_dependencies[other].contains(third));
    }
}

/// After derivations were taken out, each of the others waits for what it needs, as far as that
/// is still there.
pub proof fn law_waits_for_what_it_needs(
    graph: GraphModel,
    drvs: Map<Seq<char>, DerivationModel>,
    gone: Set<Seq<char>>,
    path: Seq<char>,
)
    requires
        graph::is_graph_of(graph, drvs),
        graph.without(gone).has(path),
    ensures
        graph.without(gone).dependencies[path] == graph::needed_by(drvs, path).difference(gone),
{
    assert(drvs.contains_key(path));
}

/// In a graph where everything fits together, something waits for nothing, unless the graph is
/// empty.
pub proof fn law_something_waits_for_nothing(graph: GraphModel) -> (path: Seq<char>)
    requires
        coherent(graph),
        graph.drvs.dom() != Set::<Seq<char>>::empty(),
    ensures
        graph.has(path),
        graph.dependencies[path] == Set::<Seq<char>>::empty(),
{
    let all = graph.drvs.dom();
    let start = choose|path: Seq<char>| #[trigger] all.contains(path);
    assert(all.contains(start)) by {
        if forall|path: Seq<char>| !#[trigger] all.contains(path) {
            assert(all =~= Set::empty());
        }
    }
    lemma_one_waits_for_nothing(graph, start)
}

proof fn lemma_one_waits_for_nothing(graph: GraphModel, start: Seq<char>) -> (path: Seq<char>)
    requires
        coherent(graph),
        graph.has(start),
    ensures
        graph.has(path),
        graph.dependencies[path] == Set::<Seq<char>>::empty(),
    decreases graph.rec_dependencies[start].len(),
{
    let direct = graph.dependencies[start];
    if direct == Set::<Seq<char>>::empty() {
        start
    } else {
        let next = choose|path: Seq<char>| #[trigger] direct.contains(path);
        assert(direct.contains(next)) by {
            if forall|path: Seq<char>| !#[trigger] direct.contains(path) {
                assert(direct =~= Set::empty());
            }
        }
        let here = graph.rec_dependencies[start];
        let there = graph.rec_dependencies[next];
        assert(here.contains(next));
        assert(graph.drvs.dom().contains(next));
        assert(graph.has(next));
        assert(there.subset_of(here.remove(next))) by {
            assert forall|third: Seq<char>| there.contains(third) implies here.remove(next).contains(
            third) by {
                assert(here.contains(third));
            }
        }
        vstd::set_lib::lemma_set_subset_finite(graph.drvs.dom(), here);
        vstd::set_lib::lemma_len_subset(there, here.remove(next));
        lemma_one_waits_for_nothing(graph, next)
    }
}

/// Of several derivations with one path the last is in the graph, and none is there that was not
/// given.
pub proof fn law_last_derivation_with_a_path_counts(
    drvs: Seq<DerivationModel>,
    i: int,
)
    requires
        0 <= i < drvs.len(),
        forall|j: int| i < j < drvs.len() ==> (#[trigger] drvs[j]).path != drvs[i].path,
    ensures
        graph::by_path(drvs).contains_key(drvs[i].path),
        graph::by_path(drvs)[drvs[i].path] == drvs[i],
    decreases drvs.len(),
{
    if i < drvs.len() - 1 {
        let less = drvs.drop_last();
        assert(drvs[drvs.len() - 1].path != drvs[i].path);
        assert forall|j: int| i < j < less.len() implies (#[trigger] less[j]).path
            != less[i].path by {
            assert(drvs[j].path != drvs[i].path);
        }
        law_last_derivation_with_a_path_counts(less, i);
    }
}

/// Nothing is among the derivations by their paths that was not given.
pub proof fn law_derivations_come_from_what_was_given(
    drvs: Seq<DerivationModel>,
    path: Seq<char>,
) -> (i: int)
    requires
        graph::by_path(drvs).contains_key(path),
    ensures
        0 <= i < drvs.len(),
        drvs[i].path == path,
        graph::by_path(drvs)[path] == drvs[i],
    decreases drvs.len(),
{
    if path == drvs.last().path {
        drvs.len() - 1
    } else {
        law_derivations_come_from_what_was_given(drvs.drop_last(), path)
    }
}

/// Derivations are closed under their inputs exactly if every input of every one is among them.
pub proof fn law_closed_is_every_input_there(
    drvs: Map<Seq<char>, DerivationModel>,
    path: Seq<char>,
    k: int,
)
    ensures
        graph::closed_under_inputs(drvs) && drvs.contains_key(path) && 0 <= k
            < drvs[path].inputs.len() ==> drvs.contains_key(drvs[path].inputs[k].0),
        (forall|p: Seq<char>, j: int|
            #![trigger drvs[p].inputs[j]]
            drvs.contains_key(p) && 0 <= j < drvs[p].inputs.len() ==> drvs.contains_key(
                drvs[p].inputs[j].0,
            )) ==> graph::closed_under_inputs(drvs),
{
    if graph::closed_under_inputs(drvs) && drvs.contains_key(path) && 0 <= k
        < drvs[path].inputs.len() {
        assert(drvs[path].needs(drvs[path].inputs[k].0));
    }
    if forall|p: Seq<char>, j: int|
        #![trigger drvs[p].inputs[j]]
        drvs.contains_key(p) && 0 <= j < drvs[p].inputs.len() ==> drvs.contains_key(
            drvs[p].inputs[j].0,
        ) {
        assert forall|p: Seq<char>, input: Seq<char>|
            #![trigger drvs[p].needs(input)]
            drvs.contains_key(p) && drvs[p].needs(input) implies drvs.contains_key(input) by {
            let j = choose|j: int|
                0 <= j < drvs[p].inputs.len() && (#[trigger] drvs[p].inputs[j]).0 == input;
            assert(drvs.contains_key(drvs[p].inputs[j].0));
        }
    }
}

/// Whether each derivation along `way` has the next one as an input.
pub open spec fn is_chain(drvs: Map<Seq<char>, DerivationModel>, way: Seq<Seq<char>>) -> bool {
    &&& way.len() >= 2
    &&& forall|k: int|
        #![trigger way[k]]
        0 <= k < way.len() - 1 ==> drvs.contains_key(way[k]) && exists|j: int|
            0 <= j < drvs[way[k]].inputs.len() && (#[trigger] drvs[way[k]].inputs[j]).0
                == way[k + 1]
}

proof fn lemma_chain_is_way(drvs: Map<Seq<char>, DerivationModel>, way: Seq<Seq<char>>)
    ensures
        is_chain(drvs, way) == reach::is_way(graph::needing(drvs), way),
{
    let step = graph::needing(drvs);
    if is_chain(drvs, way) {
        assert forall|k: int| #![trigger way[k]] 0 <= k < way.len() - 1 implies step(
            way[k],
            way[k + 1],
        ) by {
            assert(drvs.contains_key(way[k]));
        }
    }
    if reach::is_way(step, way) {
        assert forall|k: int| #![trigger way[k]] 0 <= k < way.len() - 1 implies drvs.contains_key(
            way[k],
        ) && exists|j: int|
            0 <= j < drvs[way[k]].inputs.len() && (#[trigger] drvs[way[k]].inputs[j]).0
                == way[k + 1] by {
            assert(step(way[k], way[k + 1]));
        }
    }
}

/// Along every chain of inputs, of whatever length, the first derivation waits for the last, and
/// the last notes the first among those that wait for it.
pub proof fn law_chains_of_inputs_are_waited_for(
    graph: GraphModel,
    drvs: Map<Seq<char>, DerivationModel>,
    way: Seq<Seq<char>>,
)
    requires
        graph::is_graph_of(graph, drvs),
        graph::closed_under_inputs(drvs),
        without_circles(drvs),
        is_chain(drvs, way),
    ensures
        graph.drvs.contains_key(way[0]),
        graph.drvs.contains_key(way.last()),
        graph.rec_dependencies[way[0]].contains(way.last()),
        graph.rec_dependants[way.last()].contains(way[0]),
{
    let step = graph::needing(drvs);
    lemma_chain_is_way(drvs, way);
    assert(reach::leads(step, way, way[0], way.last()));
    assert(reach::reaches(step, way[0], way.last()));
    lemma_reached_is_there(drvs, way[0], way.last());
    lemma_all_ways_end(drvs, way[0]);
    lemma_all_ways_end(drvs, way.last());
}

/// Nothing is noted as waiting that no chain of inputs leads to.
pub proof fn law_waiting_comes_from_chains(
    graph: GraphModel,
    drvs: Map<Seq<char>, DerivationModel>,
    path: Seq<char>,
    other: Seq<char>,
) -> (way: Seq<Seq<char>>)
    requires
        graph::is_graph_of(graph, drvs),
        drvs.contains_key(path) && graph.rec_dependencies[path].contains(other) || drvs.contains_key(
            other,
        ) && graph.rec_dependants[other].contains(path),
    ensures
        is_chain(drvs, way),
        way[0] == path,
        way.last() == other,
{
    let step = graph::needing(drvs);
    assert(reach::reaches(step, path, other));
    let way = choose|way: Seq<Seq<char>>| reach::leads(step, way, path, other);
    lemma_chain_is_way(drvs, way);
    way
}

/// What a derivation waits for at first is exactly what its inputs name, and those that wait for
/// it are exactly the ones that name it.
pub proof fn law_direct_waiting_is_being_an_input(
    graph: GraphModel,
    drvs: Map<Seq<char>, DerivationModel>,
    path: Seq<char>,
    other: Seq<char>,
)
    requires
        graph::is_graph_of(graph, drvs),
        drvs.contains_key(path),
    ensures
        graph.drvs[path] == drvs[path],
        graph.dependencies[path].contains(other) == exists|j: int|
            0 <= j < drvs[path].inputs.len() && (#[trigger] drvs[path].inputs[j]).0 == other,
        drvs.contains_key(other) ==> graph.dependants[path].contains(other) == exists|j: int|
            0 <= j < drvs[other].inputs.len() && (#[trigger] drvs[other].inputs[j]).0 == path,
        graph.dependants[path].contains(other) ==> drvs.contains_key(other),
        graph.dependencies[path].contains(other) ==> graph.rec_dependencies[path].contains(other),
        graph.dependants[path].contains(other) ==> graph.rec_dependants[path].contains(other),
        graph.drvs.contains_key(other) == drvs.contains_key(other),
{
}

/// Derivations that can be numbered so that every input has a smaller number than what needs it
/// have no circles.
pub proof fn law_numbered_derivations_have_no_circles(
    drvs: Map<Seq<char>, DerivationModel>,
    number: spec_fn(Seq<char>) -> nat,
)
    requires
        forall|path: Seq<char>, j: int|
            #![trigger drvs[path].inputs[j]]
            drvs.contains_key(path) && 0 <= j < drvs[path].inputs.len() ==> number(
                drvs[path].inputs[j].0,
            ) < number(path),
    ensures
        without_circles(drvs),
{
    let step = graph::needing(drvs);
    assert forall|path: Seq<char>| !#[trigger] reach::reaches(step, path, path) by {
        if reach::reaches(step, path, path) {
            let way = choose|way: Seq<Seq<char>>| reach::leads(step, way, path, path);
            lemma_chain_is_way(drvs, way);
            lemma_numbers_fall(drvs, number, way, way.len() - 1);
        }
    }
}

proof fn lemma_numbers_fall(
    drvs: Map<Seq<char>, DerivationModel>,
    number: spec_fn(Seq<char>) -> nat,
    way: Seq<Seq<char>>,
    k: int,
)
    requires
        forall|path: Seq<char>, j: int|
            #![trigger drvs[path].inputs[j]]
            drvs.contains_key(path) && 0 <= j < drvs[path].inputs.len() ==> number(
                drvs[path].inputs[j].0,
            ) < number(path),
        is_chain(drvs, way),
        1 <= k < way.len(),
    ensures
        number(way[k]) < number(way[0]),
    decreases k,
{
    assert(drvs.contains_key(way[k - 1]));
    let j = choose|j: int|
        0 <= j < drvs[way[k - 1]].inputs.len() && (#[trigger] drvs[way[k - 1]].inputs[j]).0
            == way[k - 1 + 1];
    assert(number(drvs[way[k - 1]].inputs[j].0) < number(way[k - 1]));
    if k > 1 {
        lemma_numbers_fall(drvs, number, way, k - 1);
    }
}

/// What is taken out is gone, what is not stays as it was, and nobody waits directly for what is
/// gone.
pub proof fn law_removal_takes_out_what_it_is_given(
    graph: GraphModel,
    gone: Set<Seq<char>>,
    path: Seq<char>,
    other: Seq<char>,
)
    ensures
        graph.without(gone).drvs.contains_key(path) == (graph.drvs.contains_key(path)
            && !gone.contains(path)),
        graph.drvs.contains_key(path) && !gone.contains(path) ==> {
            &&& graph.without(gone).drvs[path] == graph.drvs[path]
            &&& graph.without(gone).dependencies[path].contains(other) == (
            graph.dependencies[path].contains(other) && !gone.contains(other))
            &&& graph.without(gone).dependants[path].contains(other) == (
            graph.dependants[path].contains(other) && !gone.contains(other))
            &&& !gone.contains(other) ==> graph.without(gone).rec_dependencies[path].contains(other)
                == graph.rec_dependencies[path].contains(other)
            &&& !gone.contains(other) ==> graph.without(gone).rec_dependants[path].contains(other)
                == graph.rec_dependants[path].contains(other)
        },
{
}

/// Whether one derivation waits for another is asked of derivations in the graph only, and is
/// what the graph notes of the first.
pub proof fn law_waiting_is_what_is_noted(graph: GraphModel, path: Seq<char>, other: Seq<char>)
    ensures
        graph.drvs.contains_key(path) && graph.drvs.contains_key(other) ==> graph.depends(
            path,
            other,
        ) == graph.rec_dependencies[path].contains(other),
        !graph.drvs.contains_key(path) ==> !graph.depends(path, other),
        !graph.drvs.contains_key(other) ==> !graph.depends(path, other),
{
}

} // verus!
