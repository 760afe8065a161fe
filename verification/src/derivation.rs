//! Derivations: what is known of a build before it is run.

use crate::aterm;
use crate::aterm::ParseError;
use crate::maps::SortedMap;
use crate::paths::{DrvPath, OutputName, StorePath};
use crate::text;
use vstd::prelude::*;

verus! {

/// A derivation: the inputs that it needs, the outputs that it builds, and the environment of
/// its builder.
#[derive(Debug)]
pub struct Derivation {
    pub path: DrvPath,
    pub inputs: Vec<(DrvPath, Vec<OutputName>)>,
    pub outputs: SortedMap<StorePath>,
    pub env: SortedMap<String>,
}

/// What a derivation says.
#[verifier::ext_equal]
pub struct DerivationModel {
    pub path: Seq<char>,
    pub inputs: Seq<(Seq<char>, Seq<Seq<char>>)>,
    pub outputs: Map<Seq<char>, Seq<char>>,
    pub env: Map<Seq<char>, Seq<char>>,
}

impl View for Derivation {
    type V = DerivationModel;

    open spec fn view(&self) -> DerivationModel {
        DerivationModel {
            path: self.path@,
            inputs: self.inputs.deep_view(),
            outputs: self.outputs@.map_values(|path: StorePath| path@),
            env: self.env@.map_values(|value: String| value@),
        }
    }
}

/// The map that a sequence of pairs stands for: of several pairs with one key the last counts.
pub open spec fn last_of_each(pairs: Seq<(Seq<char>, Seq<char>)>) -> Map<Seq<char>, Seq<char>>
    decreases pairs.len(),
{
    if pairs.len() == 0 {
        Map::empty()
    } else {
        last_of_each(pairs.drop_last()).insert(pairs.last().0, pairs.last().1)
    }
}

impl DerivationModel {
    /// The derivation at `path` whose file says `text`.
    pub open spec fn of_text(path: Seq<char>, text: aterm::DerivationText) -> DerivationModel {
        DerivationModel {
            path,
            inputs: text.inputs,
            outputs: last_of_each(text.outputs),
            env: last_of_each(text.env),
        }
    }

    /// Whether `input` is among the derivations that this one needs.
    pub open spec fn needs(self, input: Seq<char>) -> bool {
        exists|i: int| 0 <= i < self.inputs.len() && (#[trigger] self.inputs[i]).0 == input
    }

    /// Whether a variable of the environment has the given value.
    pub open spec fn sets(self, name: Seq<char>, value: Seq<char>) -> bool {
        self.env.contains_key(name) && self.env[name] == value
    }

    /// Whether the derivation asks to be built on this machine.
    pub open spec fn is_local(self) -> bool {
        self.sets("preferLocalBuild"@, "1"@)
    }

    /// Whether the outputs may be uploaded: not those of a derivation with a fixed hash where
    /// these are to be skipped, and not those of one that does not allow substitutes.
    pub open spec fn may_upload(self, skip_fod: bool) -> bool {
        &&& !(skip_fod && self.env.contains_key("outputHash"@))
        &&& self.env.contains_key("allowSubstitutes"@) ==> self.env["allowSubstitutes"@] == "1"@
    }
}

/// The outputs of a derivation file as a map.
fn collect_outputs(pairs: Vec<(OutputName, StorePath)>) -> (map: SortedMap<StorePath>)
    ensures
        map@.map_values(|path: StorePath| path@) == last_of_each(pairs.deep_view()),
{
    let mut map: SortedMap<StorePath> = SortedMap::new();
    let ghost all = pairs.deep_view();
    let ghost value = |path: StorePath| path@;
    assert(map@.map_values(value) =~= last_of_each(all.take(0)));
    for i in 0..pairs.len()
        invariant
            all == pairs.deep_view(),
            value == (|path: StorePath| path@),
            map@.map_values(value) == last_of_each(all.take(i as int)),
    {
        let ghost before = map@;
        map.insert(pairs[i].0.0.clone(), pairs[i].1.clone());
        proof {
            assert(all.take(i + 1).drop_last() =~= all.take(i as int));
            assert(all[i as int] == (pairs@[i as int].0@, pairs@[i as int].1@));
            assert(map@.map_values(value) =~= before.map_values(value).insert(
                all[i as int].0,
                all[i as int].1,
            ));
        }
    }
    assert(all.take(pairs.len() as int) =~= all);
    map
}

/// The environment of a derivation file as a map.
fn collect_env(pairs: Vec<(String, String)>) -> (map: SortedMap<String>)
    ensures
        map@.map_values(|value: String| value@) == last_of_each(pairs.deep_view()),
{
    let mut map: SortedMap<String> = SortedMap::new();
    let ghost all = pairs.deep_view();
    let ghost value = |value: String| value@;
    assert(map@.map_values(value) =~= last_of_each(all.take(0)));
    for i in 0..pairs.len()
        invariant
            all == pairs.deep_view(),
            value == (|value: String| value@),
            map@.map_values(value) == last_of_each(all.take(i as int)),
    {
        let ghost before = map@;
        map.insert(pairs[i].0.clone(), pairs[i].1.clone());
        proof {
            assert(all.take(i + 1).drop_last() =~= all.take(i as int));
            assert(all[i as int] == (pairs@[i as int].0@, pairs@[i as int].1@));
            assert(map@.map_values(value) =~= before.map_values(value).insert(
                all[i as int].0,
                all[i as int].1,
            ));
        }
    }
    assert(all.take(pairs.len() as int) =~= all);
    map
}

/// A copy of a list of names.
fn copy_names(names: &Vec<OutputName>) -> (copy: Vec<OutputName>)
    ensures
        copy.deep_view() == names.deep_view(),
{
    let mut copy: Vec<OutputName> = Vec::new();
    for i in 0..names.len()
        invariant
            copy@.len() == i,
            forall|j: int| 0 <= j < i ==> (#[trigger] copy@[j]) == names@[j],
    {
        copy.push(names[i].clone());
    }
    assert(copy.deep_view() =~= names.deep_view());
    copy
}

/// A copy of a list of inputs.
fn copy_inputs(inputs: &Vec<(DrvPath, Vec<OutputName>)>) -> (copy: Vec<(DrvPath, Vec<OutputName>)>)
    ensures
        copy.deep_view() == inputs.deep_view(),
{
    let mut copy: Vec<(DrvPath, Vec<OutputName>)> = Vec::new();
    for i in 0..inputs.len()
        invariant
            copy@.len() == i,
            forall|j: int|
                0 <= j < i ==> (#[trigger] copy@[j]).0 == inputs@[j].0 && copy@[j].1.deep_view()
                    == inputs@[j].1.deep_view(),
    {
        copy.push((inputs[i].0.clone(), copy_names(&inputs[i].1)));
    }
    assert(copy.deep_view() =~= inputs.deep_view());
    copy
}

impl Clone for Derivation {
    fn clone(&self) -> (copy: Self)
        ensures
            copy@ == self@,
            copy.outputs.keys() == self.outputs.keys(),
    {
        let copy = Derivation {
            path: self.path.clone(),
            inputs: copy_inputs(&self.inputs),
            outputs: self.outputs.clone(),
            env: self.env.clone(),
        };
        assert(copy@.outputs =~= self@.outputs);
        assert(copy@.env =~= self@.env);
        copy
    }
}

impl Derivation {
    /// Reads the derivation at `drv_path`, whose file holds `content`. Text behind the
    /// derivation is not looked at.
    pub fn parse<'a>(drv_path: DrvPath, content: &'a str) -> (result: Result<Self, ParseError<'a>>)
        ensures
            match aterm::derivation_outcome(content@) {
                Ok((_, text)) => result matches Ok(drv) && {
                    &&& drv@ == DerivationModel::of_text(drv_path@, text)
                    &&& drv.path@ == drv_path@
                    &&& drv.inputs.deep_view() == text.inputs
                    &&& drv@.outputs == last_of_each(text.outputs)
                    &&& drv@.env == last_of_each(text.env)
                },
                Err(failure) => result matches Err(error) && error@ == failure,
            },
    {
        match aterm::parse_derivation(content) {
            Ok((_, read)) => Ok(
                Derivation {
                    path: drv_path,
                    inputs: read.inputs,
                    outputs: collect_outputs(read.outputs),
                    env: collect_env(read.env),
                },
            ),
            Err(error) => Err(error),
        }
    }

    /// Whether the derivation asks to be built on this machine.
    pub fn is_local(&self) -> (local: bool)
        ensures
            local == self@.is_local(),
            local == (self@.env.contains_key("preferLocalBuild"@)
                && self@.env["preferLocalBuild"@] == "1"@),
    {
        match self.env.get("preferLocalBuild") {
            Some(value) => text::same_text(value.as_str(), "1"),
            None => false,
        }
    }

    /// The path of the output of the name `out`, by which a derivation counts as built.
    pub fn main_output(&self) -> (path: Option<&StorePath>)
        ensures
            match path {
                Some(path) => self@.outputs.contains_key("out"@) && path@ == self@.outputs["out"@],
                None => !self@.outputs.contains_key("out"@),
            },
    {
        self.outputs.get("out")
    }

    /// The paths of the outputs in the order of their names.
    pub open spec fn output_paths(&self) -> Seq<Seq<char>> {
        Seq::new(
            self.outputs.keys().len(),
            |i: int| self@.outputs[self.outputs.keys()[i]],
        )
    }

    /// The outputs that are to be uploaded if they exist, in the order of their names.
    pub fn outputs_to_upload(&self, skip_fod: bool) -> (paths: Vec<StorePath>)
        ensures
            self.outputs.lists_its_keys(),
            paths.deep_view() == if self@.may_upload(skip_fod) {
                self.output_paths()
            } else {
                Seq::empty()
            },
            paths@.len() == if (skip_fod && self@.env.contains_key("outputHash"@)) || (
            self@.env.contains_key("allowSubstitutes"@) && self@.env["allowSubstitutes"@] != "1"@) {
                0
            } else {
                self.outputs.keys().len()
            },
            forall|i: int|
                0 <= i < paths@.len() ==> (#[trigger] paths@[i])@
                    == self@.outputs[self.outputs.keys()[i]],
    {
        let n = self.outputs.len();
        let mut paths: Vec<StorePath> = Vec::new();
        assert(paths.deep_view() =~= Seq::<Seq<char>>::empty());
        if skip_fod && self.env.contains_key("outputHash") {
            return paths;
        }
        if let Some(allow_substitutes) = self.env.get("allowSubstitutes") {
            if !text::same_text(allow_substitutes.as_str(), "1") {
                return paths;
            }
        }
        for i in 0..n
            invariant
                n == self.outputs.keys().len(),
                paths.deep_view() == self.output_paths().take(i as int),
                self.outputs.keys().len() == self.output_paths().len(),
        {
            let ghost before = paths.deep_view();
            let path = self.outputs.value_at(i).clone();
            paths.push(path);
            proof {
                assert(paths.deep_view() =~= before.push(path@));
                assert(self.output_paths().take(i + 1) =~= before.push(path@));
            }
        }
        assert(self.output_paths().take(self.output_paths().len() as int) =~= self.output_paths());
        assert forall|i: int| 0 <= i < paths@.len() implies (#[trigger] paths@[i])@
            == self@.outputs[self.outputs.keys()[i]] by {
            assert(paths.deep_view()[i] == self.output_paths()[i]);
        }
        paths
    }
}

} // verus!
