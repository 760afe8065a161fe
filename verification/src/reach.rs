//! Reaching one thing from another, step by step.

use vstd::prelude::*;

verus! {

/// Whether each step along `way` is one of `step`, and there is at least one.
pub open spec fn is_way<T>(step: spec_fn(T, T) -> bool, way: Seq<T>) -> bool {
    &&& way.len() >= 2
    &&& forall|i: int| #![trigger way[i]] 0 <= i < way.len() - 1 ==> step(way[i], way[i + 1])
}

/// Whether `way` leads from `a` to `b`.
pub open spec fn leads<T>(step: spec_fn(T, T) -> bool, way: Seq<T>, a: T, b: T) -> bool {
    is_way(step, way) && way[0] == a && way.last() == b
}

/// Whether one or more steps lead from `a` to `b`.
pub open spec fn reaches<T>(step: spec_fn(T, T) -> bool, a: T, b: T) -> bool {
    exists|way: Seq<T>| #[trigger] leads(step, way, a, b)
}

/// Whether no way from `a` runs into a circle.
pub open spec fn ends<T>(step: spec_fn(T, T) -> bool, a: T) -> bool {
    forall|b: T|
        b == a || #[trigger] reaches(step, a, b) ==> !reaches(step, b, b)
}

/// The steps in the other direction.
pub open spec fn reversed<T>(step: spec_fn(T, T) -> bool) -> spec_fn(T, T) -> bool {
    |a: T, b: T| step(b, a)
}

/// One step reaches.
pub proof fn lemma_one_step<T>(step: spec_fn(T, T) -> bool, a: T, b: T)
    requires
        step(a, b),
    ensures
        reaches(step, a, b),
{
    let way = seq![a, b];
    assert(leads(step, way, a, b));
}

/// Two ways make one.
pub proof fn lemma_joined<T>(step: spec_fn(T, T) -> bool, a: T, b: T, c: T)
    requires
        reaches(step, a, b),
        reaches(step, b, c),
    ensures
        reaches(step, a, c),
{
    let v = choose|way: Seq<T>| leads(step, way, a, b);
    let w = choose|way: Seq<T>| leads(step, way, b, c);
    let way = v + w.drop_first();
    assert forall|i: int| #![trigger way[i]] 0 <= i < way.len() - 1 implies step(
        way[i],
        way[i + 1],
    ) by {
        if i < v.len() - 1 {
            assert(way[i] == v[i] && way[i + 1] == v[i + 1]);
        } else {
            let j = i - (v.len() - 1);
            assert(way[i] == w[j]);
            assert(way[i + 1] == w[j + 1]);
        }
    }
    assert(way.last() == w.last());
    assert(leads(step, way, a, c));
}

/// A step and a way make a way.
pub proof fn lemma_step_then_way<T>(step: spec_fn(T, T) -> bool, a: T, b: T, c: T)
    requires
        step(a, b),
        reaches(step, b, c),
    ensures
        reaches(step, a, c),
{
    lemma_one_step(step, a, b);
    lemma_joined(step, a, b, c);
}

/// Every way has a first step.
pub proof fn lemma_first_step<T>(step: spec_fn(T, T) -> bool, a: T, c: T) -> (b: T)
    requires
        reaches(step, a, c),
    ensures
        step(a, b),
        b == c || reaches(step, b, c),
{
    let way = choose|way: Seq<T>| leads(step, way, a, c);
    let b = way[1];
    assert(step(way[0], way[0int + 1]));
    if way.len() > 2 {
        let tail = way.drop_first();
        assert forall|i: int| #![trigger tail[i]] 0 <= i < tail.len() - 1 implies step(
            tail[i],
            tail[i + 1],
        ) by {
            assert(tail[i] == way[i + 1]);
            assert(tail[i + 1] == way[i + 2]);
        }
        assert(leads(step, tail, b, c));
    }
    b
}

/// A way can be walked back.
pub proof fn lemma_walked_back<T>(step: spec_fn(T, T) -> bool, a: T, b: T)
    ensures
        reaches(reversed(step), b, a) == reaches(step, a, b),
{
    let back = reversed(step);
    if reaches(step, a, b) {
        let way = choose|way: Seq<T>| leads(step, way, a, b);
        let other = way.reverse();
        assert forall|i: int| #![trigger other[i]] 0 <= i < other.len() - 1 implies back(
            other[i],
            other[i + 1],
        ) by {
            let j = way.len() - 2 - i;
            assert(step(way[j], way[j + 1]));
        }
        assert(leads(back, other, b, a));
    }
    if reaches(back, b, a) {
        let way = choose|way: Seq<T>| leads(back, way, b, a);
        let other = way.reverse();
        assert forall|i: int| #![trigger other[i]] 0 <= i < other.len() - 1 implies step(
            other[i],
            other[i + 1],
        ) by {
            let j = way.len() - 2 - i;
            assert(back(way[j], way[j + 1]));
        }
        assert(leads(step, other, a, b));
    }
}

/// With more steps at least as much is reached.
pub proof fn lemma_more_steps<T>(
    step: spec_fn(T, T) -> bool,
    more: spec_fn(T, T) -> bool,
    a: T,
    b: T,
)
    requires
        forall|x: T, y: T| #[trigger] step(x, y) ==> more(x, y),
        reaches(step, a, b),
    ensures
        reaches(more, a, b),
{
    let way = choose|way: Seq<T>| leads(step, way, a, b);
    assert forall|i: int| #![trigger way[i]] 0 <= i < way.len() - 1 implies more(
        way[i],
        way[i + 1],
    ) by {
        assert(step(way[i], way[i + 1]));
    }
    assert(leads(more, way, a, b));
}

/// Where every step from a named thing leads to a named thing, and the names step as the things
/// do, names reach each other as the things do.
pub proof fn lemma_named<S, T>(
    step: spec_fn(S, S) -> bool,
    named_step: spec_fn(T, T) -> bool,
    there: spec_fn(S) -> bool,
    name: spec_fn(S) -> T,
    a: S,
    b: S,
)
    requires
        there(a),
        there(b),
        forall|x: S, y: S| #[trigger] step(x, y) && there(x) ==> there(y),
        forall|x: S, y: S|
            there(x) && there(y) ==> #[trigger] named_step(name(x), name(y)) == step(x, y),
        forall|x: S, q: T|
            there(x) && #[trigger] named_step(name(x), q) ==> exists|y: S|
                #[trigger] there(y) && name(y) == q,
        forall|x: S, y: S|
            #[trigger] there(x) && #[trigger] there(y) && name(x) == name(y) ==> x == y,
    ensures
        reaches(named_step, name(a), name(b)) == reaches(step, a, b),
{
    if reaches(step, a, b) {
        let way = choose|way: Seq<S>| leads(step, way, a, b);
        lemma_way_stays(step, there, way);
        let named = way.map_values(name);
        assert forall|i: int| #![trigger named[i]] 0 <= i < named.len() - 1 implies named_step(
            named[i],
            named[i + 1],
        ) by {
            assert(there(way[i]) && there(way[i + 1]));
            assert(step(way[i], way[i + 1]));
            assert(named_step(name(way[i]), name(way[i + 1])) == step(way[i], way[i + 1]));
        }
        assert(leads(named_step, named, name(a), name(b)));
    }
    if reaches(named_step, name(a), name(b)) {
        let start = name(a);
        let end = name(b);
        let named = choose|way: Seq<T>| leads(named_step, way, start, end);
        lemma_named_way(step, named_step, there, name, a, b, named);
    }
}

proof fn lemma_way_stays<S>(step: spec_fn(S, S) -> bool, there: spec_fn(S) -> bool, way: Seq<S>)
    requires
        is_way(step, way),
        there(way[0]),
        forall|x: S, y: S| #[trigger] step(x, y) && there(x) ==> there(y),
    ensures
        forall|i: int| #![trigger way[i]] 0 <= i < way.len() ==> there(way[i]),
{
    assert forall|i: int| #![trigger way[i]] 0 <= i < way.len() implies there(way[i]) by {
        lemma_way_stays_at(step, there, way, i);
    }
}

proof fn lemma_way_stays_at<S>(
    step: spec_fn(S, S) -> bool,
    there: spec_fn(S) -> bool,
    way: Seq<S>,
    i: int,
)
    requires
        is_way(step, way),
        there(way[0]),
        forall|x: S, y: S| #[trigger] step(x, y) && there(x) ==> there(y),
        0 <= i < way.len(),
    ensures
        there(way[i]),
    decreases i,
{
    if i > 0 {
        lemma_way_stays_at(step, there, way, i - 1);
        assert(step(way[i - 1], way[i - 1 + 1]));
    }
}

proof fn lemma_named_way<S, T>(
    step: spec_fn(S, S) -> bool,
    named_step: spec_fn(T, T) -> bool,
    there: spec_fn(S) -> bool,
    name: spec_fn(S) -> T,
    a: S,
    b: S,
    named: Seq<T>,
)
    requires
        there(a),
        there(b),
        forall|x: S, y: S|
            there(x) && there(y) ==> #[trigger] named_step(name(x), name(y)) == step(x, y),
        forall|x: S, q: T|
            there(x) && #[trigger] named_step(name(x), q) ==> exists|y: S|
                #[trigger] there(y) && name(y) == q,
        forall|x: S, y: S|
            #[trigger] there(x) && #[trigger] there(y) && name(x) == name(y) ==> x == y,
        leads(named_step, named, name(a), name(b)),
    ensures
        reaches(step, a, b),
    decreases named.len(),
{
    assert(named_step(named[0], named[0int + 1]));
    assert(named_step(name(a), named[1]));
    let c = choose|y: S| #[trigger] there(y) && name(y) == named[1];
    assert(named_step(name(a), name(c)) == step(a, c));
    if named.len() == 2 {
        assert(c == b);
        lemma_one_step(step, a, b);
    } else {
        let tail = named.drop_first();
        assert forall|i: int| #![trigger tail[i]] 0 <= i < tail.len() - 1 implies named_step(
            tail[i],
            tail[i + 1],
        ) by {
            assert(tail[i] == named[i + 1]);
            assert(tail[i + 1] == named[i + 2]);
        }
        assert(leads(named_step, tail, name(c), name(b)));
        lemma_named_way(step, named_step, there, name, c, b, tail);
        lemma_step_then_way(step, a, c, b);
    }
}

} // verus!
