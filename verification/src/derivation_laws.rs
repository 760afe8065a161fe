//! What holds of derivations as a whole: what their files say is what they hold, and what their
//! environment decides.

use crate::aterm;
use crate::aterm_laws;
use crate::aterm_laws::WrittenDerivation;
use crate::derivation;
use crate::derivation::{Derivation, DerivationModel};
use crate::text;
use vstd::prelude::*;

verus! {

/// Of several pairs with one key the last counts, whatever stands before it, and nothing has a
/// value that is not the key of a pair.
pub proof fn law_last_pair_of_a_key_counts(
    pairs: Seq<(Seq<char>, Seq<char>)>,
    i: int,
    key: Seq<char>,
)
    requires
        0 <= i < pairs.len(),
        forall|j: int| i < j < pairs.len() ==> (#[trigger] pairs[j]).0 != pairs[i].0,
    ensures
        derivation::last_of_each(pairs).contains_key(pairs[i].0),
        derivation::last_of_each(pairs)[pairs[i].0] == pairs[i].1,
        derivation::last_of_each(pairs).contains_key(key) ==> exists|k: int|
            0 <= k < pairs.len() && (#[trigger] pairs[k]).0 == key,
    decreases pairs.len(),
{
    let less = pairs.drop_last();
    let n = pairs.len() - 1;
    if i < n {
        assert(pairs[n].0 != pairs[i].0);
        assert forall|j: int| i < j < less.len() implies (#[trigger] less[j]).0 != less[i].0 by {
            assert(pairs[j].0 != pairs[i].0);
        }
        law_last_pair_of_a_key_counts(less, i, key);
    }
    lemma_keys_come_from_pairs(pairs, key);
}

proof fn lemma_keys_come_from_pairs(pairs: Seq<(Seq<char>, Seq<char>)>, key: Seq<char>)
    ensures
        derivation::last_of_each(pairs).contains_key(key) ==> exists|k: int|
            0 <= k < pairs.len() && (#[trigger] pairs[k]).0 == key,
    decreases pairs.len(),
{
    if pairs.len() > 0 && derivation::last_of_each(pairs).contains_key(key) {
        let less = pairs.drop_last();
        if key == pairs.last().0 {
            assert(pairs[pairs.len() - 1].0 == key);
        } else {
            lemma_keys_come_from_pairs(less, key);
            let k = choose|k: int| 0 <= k < less.len() && (#[trigger] less[k]).0 == key;
            assert(pairs[k].0 == key);
        }
    }
}

/// A derivation that is read from a file has exactly the inputs that are written in the file, in
/// their order and with the names of their outputs, and it needs exactly those.
pub proof fn law_written_inputs_are_needed(
    path: Seq<char>,
    drv: WrittenDerivation,
    rest: Seq<char>,
    input: Seq<char>,
)
    ensures
        aterm::derivation_outcome(aterm_laws::written_derivation(drv, rest)) is Ok,
        ({
            let text = aterm::derivation_outcome(
                aterm_laws::written_derivation(drv, rest),
            )->Ok_0.1;
            let read = DerivationModel::of_text(path, text);
            &&& read.path == path
            &&& read.inputs == drv.inputs
            &&& read.needs(input) == exists|i: int|
                0 <= i < drv.inputs.len() && (#[trigger] drv.inputs[i]).0 == input
        }),
{
    aterm_laws::law_derivation_is_read_back(drv, rest);
}

/// A derivation that is read from a file has for each name of an output the path that is written
/// last for it, and no other outputs.
pub proof fn law_written_outputs_are_kept(
    path: Seq<char>,
    drv: WrittenDerivation,
    rest: Seq<char>,
    i: int,
    name: Seq<char>,
)
    requires
        0 <= i < drv.outputs.len(),
        forall|j: int|
            i < j < drv.outputs.len() ==> (#[trigger] drv.outputs[j]).name != drv.outputs[i].name,
    ensures
        ({
            let text = aterm::derivation_outcome(
                aterm_laws::written_derivation(drv, rest),
            )->Ok_0.1;
            let read = DerivationModel::of_text(path, text);
            &&& read.outputs.contains_key(drv.outputs[i].name)
            &&& read.outputs[drv.outputs[i].name] == drv.outputs[i].path
            &&& read.outputs.contains_key(name) ==> exists|k: int|
                0 <= k < drv.outputs.len() && (#[trigger] drv.outputs[k]).name == name
        }),
{
    aterm_laws::law_derivation_is_read_back(drv, rest);
    let pairs = aterm_laws::kept(drv).outputs;
    assert forall|j: int| i < j < pairs.len() implies (#[trigger] pairs[j]).0 != pairs[i].0 by {
        assert(drv.outputs[j].name != drv.outputs[i].name);
    }
    law_last_pair_of_a_key_counts(pairs, i, name);
    if derivation::last_of_each(pairs).contains_key(name) {
        let k = choose|k: int| 0 <= k < pairs.len() && (#[trigger] pairs[k]).0 == name;
        assert(drv.outputs[k].name == name);
    }
}

/// A derivation that is read from a file has for each variable of the environment the value that
/// is written last for it, and no other variables.
pub proof fn law_written_environment_is_kept(
    path: Seq<char>,
    drv: WrittenDerivation,
    rest: Seq<char>,
    i: int,
    name: Seq<char>,
)
    requires
        0 <= i < drv.env.len(),
        forall|j: int| i < j < drv.env.len() ==> (#[trigger] drv.env[j]).0 != drv.env[i].0,
    ensures
        ({
            let text = aterm::derivation_outcome(
                aterm_laws::written_derivation(drv, rest),
            )->Ok_0.1;
            let read = DerivationModel::of_text(path, text);
            &&& read.env.contains_key(drv.env[i].0)
            &&& read.env[drv.env[i].0] == drv.env[i].1
            &&& read.env.contains_key(name) ==> exists|k: int|
                0 <= k < drv.env.len() && (#[trigger] drv.env[k]).0 == name
        }),
{
    aterm_laws::law_derivation_is_read_back(drv, rest);
    law_last_pair_of_a_key_counts(drv.env, i, name);
}

/// A file without outputs or variables gives a derivation without them.
pub proof fn law_nothing_written_is_nothing_kept(
    path: Seq<char>,
    drv: WrittenDerivation,
    rest: Seq<char>,
    name: Seq<char>,
)
    ensures
        ({
            let text = aterm::derivation_outcome(
                aterm_laws::written_derivation(drv, rest),
            )->Ok_0.1;
            let read = DerivationModel::of_text(path, text);
            &&& drv.outputs.len() == 0 ==> !read.outputs.contains_key(name)
            &&& drv.env.len() == 0 ==> !read.env.contains_key(name)
        }),
{
    aterm_laws::law_derivation_is_read_back(drv, rest);
    lemma_keys_come_from_pairs(aterm_laws::kept(drv).outputs, name);
    lemma_keys_come_from_pairs(drv.env, name);
}

/// Of its environment, only the variable that asks for it decides whether a derivation is built on
/// this machine: it must be there and say so.
pub proof fn law_one_variable_makes_a_build_local(drv: DerivationModel, other: DerivationModel)
    ensures
        drv.env.contains_key("preferLocalBuild"@) && drv.env["preferLocalBuild"@] == "1"@
            ==> drv.is_local(),
        !drv.env.contains_key("preferLocalBuild"@) ==> !drv.is_local(),
        drv.env["preferLocalBuild"@] != "1"@ ==> !drv.is_local(),
        drv.env.contains_key("preferLocalBuild"@) == other.env.contains_key("preferLocalBuild"@)
            && drv.env["preferLocalBuild"@] == other.env["preferLocalBuild"@] ==> drv.is_local()
            == other.is_local(),
{
}

/// Whether the outputs of a derivation may be uploaded rests on two variables of its environment
/// and on nothing else: derivations that agree on them are treated alike, and one that has
/// neither may always be uploaded.
pub proof fn law_two_variables_keep_outputs_back(
    drv: DerivationModel,
    other: DerivationModel,
    skip_fod: bool,
)
    ensures
        !drv.env.contains_key("outputHash"@) && !drv.env.contains_key("allowSubstitutes"@)
            ==> drv.may_upload(skip_fod),
        !drv.env.contains_key("allowSubstitutes"@) ==> drv.may_upload(false),
        drv.env.contains_key("outputHash"@) ==> !drv.may_upload(true),
        drv.env.contains_key("allowSubstitutes"@) && drv.env["allowSubstitutes"@] != "1"@
            ==> !drv.may_upload(skip_fod),
        drv.env.contains_key("allowSubstitutes"@) && drv.env["allowSubstitutes"@] == "1"@
            ==> drv.may_upload(false) && drv.may_upload(true) == !drv.env.contains_key(
            "outputHash"@,
        ),
        drv.env.contains_key("outputHash"@) == other.env.contains_key("outputHash"@)
            && drv.env.contains_key("allowSubstitutes"@) == other.env.contains_key(
            "allowSubstitutes"@,
        ) && drv.env["allowSubstitutes"@] == other.env["allowSubstitutes"@] ==> drv.may_upload(
            skip_fod,
        ) == other.may_upload(skip_fod),
{
}

/// The paths of the outputs are those of all outputs, each once, in the order of their names.
pub proof fn law_every_output_has_its_place(drv: Derivation, name: Seq<char>)
    requires
        drv.outputs.lists_its_keys(),
        drv@.outputs.contains_key(name),
    ensures
        drv.output_paths().len() == drv@.outputs.dom().len(),
        exists|i: int|
            #![trigger drv.output_paths()[i]]
            0 <= i < drv.output_paths().len() && drv.outputs.keys()[i] == name
                && drv.output_paths()[i] == drv@.outputs[name],
        forall|i: int, j: int|
            #![trigger drv.outputs.keys()[i], drv.outputs.keys()[j]]
            0 <= i < j < drv.output_paths().len() ==> text::text_precedes(
                drv.outputs.keys()[i],
                drv.outputs.keys()[j],
            ),
{
    let keys = drv.outputs.keys();
    assert(drv@.outputs.dom() =~= drv.outputs@.dom());
    keys.unique_seq_to_set();
    assert(keys.to_set().contains(name));
    let i = keys.index_of(name);
    assert(drv.output_paths()[i] == drv@.outputs[name]);
}

/// A derivation needs each of its inputs, and nothing else.
pub proof fn law_inputs_are_needed(drv: DerivationModel, i: int, input: Seq<char>)
    ensures
        0 <= i < drv.inputs.len() ==> drv.needs(drv.inputs[i].0),
        drv.needs(input) ==> exists|k: int|
            0 <= k < drv.inputs.len() && (#[trigger] drv.inputs[k]).0 == input,
{
}

} // verus!
