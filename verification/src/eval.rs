//! What an evaluation of a flake reports, line by line.

use crate::derivation::Derivation;
use crate::maps::SortedMap;
use crate::paths::DrvPath;
use vstd::prelude::*;

verus! {

/// What one line says of an attribute: an error, or else the derivation.
#[derive(Debug)]
pub struct EvalLine {
    pub attr: String,
    pub error: Option<String>,
    pub drv_path: Option<DrvPath>,
}

/// What is to be done with a line.
#[derive(Debug)]
pub enum EvalStep {
    /// The attribute could not be evaluated and is left out.
    LeaveOut { attr: String, error: String },
    /// The derivation is to be read, and is that of the attribute.
    Read { attr: String, drv_path: DrvPath },
}

impl EvalLine {
    /// What is to be done with the line. An error counts also where there is a derivation.
    pub fn step(self) -> (step: EvalStep)
        requires
            self.error is Some || self.drv_path is Some,
        ensures
            match self.error {
                Some(message) => step == (EvalStep::LeaveOut { attr: self.attr, error: message }),
                None => step == (EvalStep::Read {
                    attr: self.attr,
                    drv_path: self.drv_path->Some_0,
                }),
            },
    {
        match self.error {
            Some(error) => EvalStep::LeaveOut { attr: self.attr, error },
            None => EvalStep::Read { attr: self.attr, drv_path: self.drv_path.unwrap() },
        }
    }
}

/// The derivation of each attribute: of several that were read for one the last counts.
pub open spec fn last_of_attrs(found: Seq<(String, Derivation)>) -> Map<Seq<char>, Derivation>
    decreases found.len(),
{
    if found.len() == 0 {
        Map::empty()
    } else {
        last_of_attrs(found.drop_last()).insert(found.last().0@, found.last().1)
    }
}

/// The derivation of each attribute, from what was read one by one.
pub fn collect_attrs(found: Vec<(String, Derivation)>) -> (map: SortedMap<Derivation>)
    ensures
        map@ == last_of_attrs(found@),
        forall|i: int|
            0 <= i < found@.len() && (forall|j: int|
                i < j < found@.len() ==> (#[trigger] found@[j]).0@ != found@[i].0@)
                ==> map@.contains_key((#[trigger] found@[i]).0@) && map@[found@[i].0@]
                == found@[i].1,
        forall|attr: Seq<char>| #[trigger]
            map@.contains_key(attr) ==> exists|i: int|
                0 <= i < found@.len() && (#[trigger] found@[i]).0@ == attr,
{
    let mut map: SortedMap<Derivation> = SortedMap::new();
    let ghost all = found@;
    assert(all.take(0) =~= Seq::<(String, Derivation)>::empty());
    for entry in entries: found
        invariant
            entries.seq() == all,
            map@ == last_of_attrs(all.take(entries.index() as int)),
    {
        let ghost i = entries.index();
        assert(all.take(i + 1).drop_last() =~= all.take(i as int));
        let (attr, drv) = entry;
        map.insert(attr, drv);
    }
    proof {
        assert(all.take(all.len() as int) =~= all);
        assert forall|i: int|
            0 <= i < all.len() && (forall|j: int|
                i < j < all.len() ==> (#[trigger] all[j]).0@ != all[i].0@) implies map@.contains_key(
            (#[trigger] all[i]).0@,
        ) && map@[all[i].0@] == all[i].1 by {
            law_last_derivation_of_an_attribute_counts(all, i);
        }
        assert forall|attr: Seq<char>| #[trigger] map@.contains_key(attr) implies exists|i: int|
            0 <= i < all.len() && (#[trigger] all[i]).0@ == attr by {
            law_attributes_come_from_what_was_read(all, attr);
        }
    }
    map
}

/// What was read last for an attribute is its derivation.
pub proof fn law_last_derivation_of_an_attribute_counts(found: Seq<(String, Derivation)>, i: int)
    requires
        0 <= i < found.len(),
        forall|j: int| i < j < found.len() ==> (#[trigger] found[j]).0@ != found[i].0@,
    ensures
        last_of_attrs(found).contains_key(found[i].0@),
        last_of_attrs(found)[found[i].0@] == found[i].1,
    decreases found.len(),
{
    if i < found.len() - 1 {
        let less = found.drop_last();
        assert(found[found.len() - 1].0@ != found[i].0@);
        assert forall|j: int| i < j < less.len() implies (#[trigger] less[j]).0@ != less[i].0@ by {
            assert(found[j].0@ != found[i].0@);
        }
        law_last_derivation_of_an_attribute_counts(less, i);
    }
}

/// No attribute has a derivation that was not read for it.
pub proof fn law_attributes_come_from_what_was_read(
    found: Seq<(String, Derivation)>,
    attr: Seq<char>,
)
    requires
        last_of_attrs(found).contains_key(attr),
    ensures
        exists|i: int| 0 <= i < found.len() && (#[trigger] found[i]).0@ == attr,
    decreases found.len(),
{
    if attr == found.last().0@ {
        assert(found[found.len() - 1].0@ == attr);
    } else {
        let less = found.drop_last();
        law_attributes_come_from_what_was_read(less, attr);
        let i = choose|i: int| 0 <= i < less.len() && (#[trigger] less[i]).0@ == attr;
        assert(found[i].0@ == attr);
    }
}

} // verus!
