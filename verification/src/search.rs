//! Everything that a node of a graph reaches, found by a search in depth.

use crate::fx;
use crate::reach;
use fxhash::FxHashSet;
use vstd::prelude::*;

verus! {

/// The neighbours of each node, as sets.
pub open spec fn sets(tables: Seq<FxHashSet<u32>>) -> Seq<Set<u32>> {
    tables.map_values(|table: FxHashSet<u32>| table@)
}

/// Whether every neighbour is a node.
pub open spec fn inside(neighbours: Seq<Set<u32>>) -> bool {
    forall|i: int, j: u32|
        0 <= i < neighbours.len() && #[trigger] neighbours[i].contains(j) ==> j < neighbours.len()
}

/// A step from a node to one of its neighbours.
pub open spec fn edge(neighbours: Seq<Set<u32>>) -> spec_fn(u32, u32) -> bool {
    |i: u32, j: u32| i < neighbours.len() && neighbours[i as int].contains(j)
}

/// Whether nothing is noted of a node that it does not reach.
pub open spec fn sound(neighbours: Seq<Set<u32>>, noted: Seq<Set<u32>>) -> bool {
    forall|i: u32, j: u32|
        i < noted.len() && #[trigger] noted[i as int].contains(j) ==> reach::reaches(
            edge(neighbours),
            i,
            j,
        )
}

/// Whether its neighbours are noted of a node, and everything that it reaches unless it runs
/// into a circle.
pub open spec fn complete_at(neighbours: Seq<Set<u32>>, noted: Seq<Set<u32>>, i: u32) -> bool {
    &&& neighbours[i as int].subset_of(noted[i as int])
    &&& reach::ends(edge(neighbours), i) ==> forall|j: u32| #[trigger]
        reach::reaches(edge(neighbours), i, j) ==> noted[i as int].contains(j)
}

/// What holds during the search: nodes that were visited and are not open any more are done.
spec fn searching(
    neighbours: Seq<Set<u32>>,
    noted: Seq<Set<u32>>,
    visited: Set<u32>,
    open: Set<u32>,
) -> bool {
    &&& inside(neighbours)
    &&& noted.len() == neighbours.len()
    &&& sound(neighbours, noted)
    &&& open.subset_of(visited)
    &&& forall|i: u32| #[trigger] visited.contains(i) ==> i < neighbours.len()
    &&& forall|i: u32| #[trigger]
        visited.contains(i) && !open.contains(i) ==> complete_at(neighbours, noted, i)
}

/// A set of nodes is no larger than their number.
pub proof fn lemma_visited_is_small(visited: Set<u32>, n: nat)
    requires
        forall|i: u32| #[trigger] visited.contains(i) ==> i < n,
    ensures
        visited.finite(),
        visited.len() <= n,
{
    let all = vstd::set_lib::set_int_range(0, n as int);
    vstd::set_lib::lemma_int_range(0, n as int);
    let f = |i: u32| i as int;
    let image = visited.map(f);
    assert(image.subset_of(all));
    vstd::set_lib::lemma_len_subset(image, all);
    assert(visited.finite()) by {
        let back = image.map(|i: int| i as u32);
        image.lemma_map_finite(|i: int| i as u32);
        assert(back =~= visited) by {
            assert forall|i: u32| visited.contains(i) implies back.contains(i) by {
                assert(image.contains(f(i)));
                assert((i as int) as u32 == i);
            }
        }
    }
    assert(vstd::relations::injective_on(f, visited));
    vstd::set_lib::lemma_map_size(visited, image, f);
}

/// Notes what `node` reaches.
fn dfs(
    node: u32,
    neighbours: &Vec<FxHashSet<u32>>,
    result: &mut Vec<FxHashSet<u32>>,
    visited: &mut FxHashSet<u32>,
    Ghost(open): Ghost<Set<u32>>,
)
    requires
        node < neighbours.len(),
        searching(sets(neighbours@), sets(old(result)@), old(visited)@, open),
        forall|g: u32| #[trigger]
            open.contains(g) ==> reach::reaches(edge(sets(neighbours@)), g, node),
    ensures
        searching(sets(neighbours@), sets(final(result)@), final(visited)@, open),
        old(visited)@.subset_of(final(visited)@),
        final(visited)@.contains(node),
    decreases neighbours.len() - old(visited)@.len(),
{
    if fx::set_contains(visited, node) {
        return ;
    }
    let ghost all = sets(neighbours@);
    let ghost step = edge(all);
    let ghost before = visited@;
    let ghost inner = open.insert(node);
    fx::set_insert(visited, node);
    let ghost entered = visited@;
    proof {
        lemma_visited_is_small(before, all.len());
        lemma_visited_is_small(entered, all.len());
    }
    let mut found: FxHashSet<u32> = FxHashSet::default();
    let items = fx::set_items(&neighbours[node as usize]);
    proof {
        assert(all[node as int] == neighbours@[node as int]@);
        assert(items@.to_set() == all[node as int]);
    }
    for i in 0..items.len()
        invariant
            all == sets(neighbours@),
            step == edge(all),
            node < neighbours.len(),
            inner == open.insert(node),
            entered == before.insert(node),
            !before.contains(node),
            before.finite(),
            before.len() == old(visited)@.len(),
            before.len() < all.len(),
            items@.to_set() == all[node as int],
            entered.subset_of(visited@),
            searching(all, sets(result@), visited@, inner),
            forall|g: u32| #[trigger] open.contains(g) ==> reach::reaches(step, g, node),
            forall|j: u32| #[trigger] found@.contains(j) ==> reach::reaches(step, node, j),
            forall|k: int| 0 <= k < i ==> found@.contains(#[trigger] items@[k]),
            forall|k: int|
                #![trigger items@[k]]
                0 <= k < i && !inner.contains(items@[k]) && reach::ends(step, items@[k])
                    ==> forall|j: u32| #[trigger]
                    reach::reaches(step, items@[k], j) ==> found@.contains(j),
    {
        let next = items[i];
        let ghost found_before = found@;
        fx::set_insert(&mut found, next);
        proof {
            assert(items@.contains(next));
            assert(all[node as int].contains(next));
            assert(step(node, next));
            reach::lemma_one_step(step, node, next);
            assert forall|g: u32| #[trigger] inner.contains(g) implies reach::reaches(
                step,
                g,
                next,
            ) by {
                if g != node {
                    reach::lemma_joined(step, g, node, next);
                }
            }
            lemma_visited_is_small(visited@, all.len());
            vstd::set_lib::lemma_len_subset(entered, visited@);
        }
        dfs(next, neighbours, result, visited, Ghost(inner));
        let more = fx::set_items(&result[next as usize]);
        let ghost noted = sets(result@)[next as int];
        proof {
            assert(noted == result@[next as int]@);
            assert(more@.to_set() == noted);
        }
        for k in 0..more.len()
            invariant
                all == sets(neighbours@),
                step == edge(all),
                more@.to_set() == noted,
                found_before.insert(next).subset_of(found@),
                reach::reaches(step, node, next),
                forall|j: u32| #[trigger] noted.contains(j) ==> reach::reaches(step, next, j),
                forall|j: u32| #[trigger] found@.contains(j) ==> reach::reaches(step, node, j),
                forall|l: int| 0 <= l < k ==> found@.contains(#[trigger] more@[l]),
        {
            proof {
                assert(more@.contains(more@[k as int]));
                assert(noted.contains(more@[k as int]));
                reach::lemma_joined(step, node, next, more@[k as int]);
            }
            fx::set_insert(&mut found, more[k]);
        }
        proof {
            assert forall|j: u32| noted.contains(j) implies found@.contains(j) by {
                assert(more@.to_set().contains(j));
                let l = more@.index_of(j);
                assert(more@[l] == j);
            }
            if !inner.contains(next) && reach::ends(step, next) {
                assert(complete_at(all, sets(result@), next));
            }
            assert forall|k: int|
                #![trigger items@[k]]
                0 <= k < i + 1 && !inner.contains(items@[k]) && reach::ends(
                    step,
                    items@[k],
                ) implies forall|j: u32| #[trigger]
                reach::reaches(step, items@[k], j) ==> found@.contains(j) by {
                if k < i {
                    assert(forall|j: u32| #[trigger]
                        reach::reaches(step, items@[k], j) ==> found_before.contains(j));
                }
            }
        }
    }
    let ghost noted_before = sets(result@);
    result.set(node as usize, found);
    proof {
        let noted = sets(result@);
        assert(noted =~= noted_before.update(node as int, found@));
        assert(sound(all, noted));
        assert(complete_at(all, noted, node)) by {
            assert forall|j: u32| all[node as int].contains(j) implies found@.contains(j) by {
                assert(items@.to_set().contains(j));
                let k = items@.index_of(j);
                assert(items@[k] == j);
            }
            if reach::ends(step, node) {
                assert forall|j: u32| #[trigger] reach::reaches(step, node, j) implies noted[node as int].contains(j) by {
                    let b = reach::lemma_first_step(step, node, j);
                    assert(all[node as int].contains(b));
                    assert(items@.to_set().contains(b));
                    let k = items@.index_of(b);
                    assert(items@[k] == b);
                    reach::lemma_one_step(step, node, b);
                    if inner.contains(b) {
                        if b != node {
                            reach::lemma_joined(step, node, b, node);
                        }
                        assert(false);
                    }
                    assert(reach::ends(step, b)) by {
                        assert forall|c: u32| c == b || #[trigger] reach::reaches(
                            step,
                            b,
                            c,
                        ) implies !reach::reaches(step, c, c) by {
                            if c != b {
                                reach::lemma_joined(step, node, b, c);
                            }
                        }
                    }
                    if j != b {
                        assert(reach::reaches(step, items@[k], j));
                    }
                }
            }
        }
        assert forall|i: u32| #[trigger] visited@.contains(i) && !open.contains(i) implies complete_at(
            all,
            noted,
            i,
        ) by {
            if i != node {
                assert(!inner.contains(i));
                assert(complete_at(all, noted_before, i));
            }
        }
        assert(open.subset_of(visited@));
    }
}

/// For each node, its neighbours and everything that it reaches. Of a node that runs into a
/// circle something may be missing: the search does not enter a node twice.
pub fn recursive_neighbours(neighbours: &Vec<FxHashSet<u32>>) -> (result: Vec<FxHashSet<u32>>)
    requires
        inside(sets(neighbours@)),
        neighbours.len() <= 0x1_0000_0000,
    ensures
        result.len() == neighbours.len(),
        sound(sets(neighbours@), sets(result@)),
        forall|i: u32|
            i < neighbours.len() ==> #[trigger] complete_at(
                sets(neighbours@),
                sets(result@),
                i,
            ),
{
    let mut result: Vec<FxHashSet<u32>> = Vec::new();
    for i in 0..neighbours.len()
        invariant
            result.len() == i,
            forall|j: int| 0 <= j < i ==> (#[trigger] result@[j])@ == Set::<u32>::empty(),
    {
        result.push(FxHashSet::default());
    }
    let mut visited: FxHashSet<u32> = FxHashSet::default();
    for i in 0..neighbours.len()
        invariant
            neighbours.len() <= 0x1_0000_0000,
            searching(sets(neighbours@), sets(result@), visited@, Set::empty()),
            forall|j: u32| j < i ==> #[trigger] visited@.contains(j),
    {
        let ghost before = visited@;
        dfs(i as u32, neighbours, &mut result, &mut visited, Ghost(Set::empty()));
        assert forall|j: u32| j < i + 1 implies #[trigger] visited@.contains(j) by {
            if j < i {
                assert(before.contains(j));
            }
        }
    }
    assert forall|i: u32| i < neighbours.len() implies #[trigger] complete_at(
        sets(neighbours@),
        sets(result@),
        i,
    ) by {
        assert(visited@.contains(i));
    }
    result
}

} // verus!
