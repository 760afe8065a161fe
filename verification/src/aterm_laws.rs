//! What holds of the grammar of derivation files as a whole: a derivation that is written down
//! is read back, and what stands behind a derivation does not change how it is read.

use crate::aterm;
use crate::aterm::{DerivationText, Failure, Outcome};
use crate::text;
use vstd::prelude::*;

verus! {

/// A character as it is written in a string.
pub open spec fn escaped(c: char) -> Seq<char> {
    if c == '"' {
        seq!['\\', '"']
    } else if c == '\\' {
        seq!['\\', '\\']
    } else if c == '\n' {
        seq!['\\', 'n']
    } else if c == '\r' {
        seq!['\\', 'r']
    } else if c == '\t' {
        seq!['\\', 't']
    } else {
        seq![c]
    }
}

/// A value as it is written in a string, with the closing quote.
pub open spec fn written_body(value: Seq<char>) -> Seq<char>
    decreases value.len(),
{
    if value.len() == 0 {
        seq!['"']
    } else {
        escaped(value[0]) + written_body(value.drop_first())
    }
}

/// A value written as a string.
pub open spec fn written_string(value: Seq<char>) -> Seq<char> {
    seq!['"'] + written_body(value)
}

/// Values written as the items of a list, with a comma between them and the closing bracket.
pub open spec fn written_items<T>(write: spec_fn(T) -> Seq<char>, values: Seq<T>) -> Seq<char>
    decreases values.len(),
{
    if values.len() == 0 {
        seq![']']
    } else if values.len() == 1 {
        write(values[0]) + seq![']']
    } else {
        write(values[0]) + seq![','] + written_items(write, values.drop_first())
    }
}

/// Values written as a list.
pub open spec fn written_list<T>(write: spec_fn(T) -> Seq<char>, values: Seq<T>) -> Seq<char> {
    seq!['['] + written_items(write, values)
}

/// An output of a derivation, with the hash that is not kept.
pub struct WrittenOutput {
    pub name: Seq<char>,
    pub path: Seq<char>,
    pub hash_algo: Seq<char>,
    pub hash: Seq<char>,
}

/// Everything that a derivation file says.
pub struct WrittenDerivation {
    pub outputs: Seq<WrittenOutput>,
    pub inputs: Seq<(Seq<char>, Seq<Seq<char>>)>,
    pub path_inputs: Seq<Seq<char>>,
    pub system: Seq<char>,
    pub builder: Seq<char>,
    pub builder_args: Seq<Seq<char>>,
    pub env: Seq<(Seq<char>, Seq<char>)>,
}

/// An output written down.
pub open spec fn written_output(output: WrittenOutput) -> Seq<char> {
    seq!['('] + written_string(output.name) + seq![','] + written_string(output.path) + seq![',']
        + written_string(output.hash_algo) + seq![','] + written_string(output.hash) + seq![')']
}

/// An input written down.
pub open spec fn written_input(input: (Seq<char>, Seq<Seq<char>>)) -> Seq<char> {
    seq!['('] + written_string(input.0) + seq![','] + written_list(
        string_writer(),
        input.1,
    ) + seq![')']
}

/// A variable written down.
pub open spec fn written_env(variable: (Seq<char>, Seq<char>)) -> Seq<char> {
    seq!['('] + written_string(variable.0) + seq![','] + written_string(variable.1) + seq![')']
}

/// How the values of a list of strings are written.
pub open spec fn string_writer() -> spec_fn(Seq<char>) -> Seq<char> {
    |value: Seq<char>| written_string(value)
}

/// How outputs are written.
pub open spec fn output_writer() -> spec_fn(WrittenOutput) -> Seq<char> {
    |output: WrittenOutput| written_output(output)
}

/// How inputs are written.
pub open spec fn input_writer() -> spec_fn((Seq<char>, Seq<Seq<char>>)) -> Seq<char> {
    |input: (Seq<char>, Seq<Seq<char>>)| written_input(input)
}

/// How variables are written.
pub open spec fn env_writer() -> spec_fn((Seq<char>, Seq<char>)) -> Seq<char> {
    |variable: (Seq<char>, Seq<char>)| written_env(variable)
}

/// A derivation written down, with `rest` behind it.
pub open spec fn written_derivation(drv: WrittenDerivation, rest: Seq<char>) -> Seq<char> {
    let env = seq![','] + written_list(env_writer(), drv.env) + (seq![')'] + rest);
    let builder_args = seq![','] + written_list(string_writer(), drv.builder_args) + env;
    let builder = seq![','] + written_string(drv.builder) + builder_args;
    let system = seq![','] + written_string(drv.system) + builder;
    let path_inputs = seq![','] + written_list(string_writer(), drv.path_inputs) + system;
    let inputs = seq![','] + written_list(input_writer(), drv.inputs) + path_inputs;
    "Derive("@ + (written_list(output_writer(), drv.outputs) + inputs)
}

/// What is kept of a derivation file.
pub open spec fn kept(drv: WrittenDerivation) -> DerivationText {
    DerivationText {
        outputs: drv.outputs.map_values(|output: WrittenOutput| (output.name, output.path)),
        inputs: drv.inputs,
        env: drv.env,
    }
}

proof fn lemma_body_is_read(value: Seq<char>, rest: Seq<char>)
    ensures
        aterm::body_of(written_body(value) + rest) == (aterm::Body::Closed { value, rest }),
    decreases value.len(),
{
    let s = written_body(value) + rest;
    if value.len() == 0 {
        assert(s.drop_first() =~= rest);
        assert(value =~= Seq::empty());
    } else {
        let tail = value.drop_first();
        lemma_body_is_read(tail, rest);
        assert(seq![value[0]] + tail =~= value);
        if escaped(value[0]).len() == 2 {
            assert(s[0] == '\\' && s[1] == escaped(value[0])[1]);
            assert(s.skip(2) =~= written_body(tail) + rest);
        } else {
            assert(s[0] == value[0]);
            assert(s.drop_first() =~= written_body(tail) + rest);
        }
    }
}

/// A string that is written down is read back.
pub proof fn law_string_is_read_back(value: Seq<char>, rest: Seq<char>)
    ensures
        aterm::string_outcome(written_string(value) + rest) == Ok::<
            (Seq<char>, Seq<char>),
            Failure,
        >((rest, value)),
{
    let s = written_string(value) + rest;
    assert(s.drop_first() =~= written_body(value) + rest);
    lemma_body_is_read(value, rest);
}

proof fn lemma_behind_is_read(c: char, value: Seq<char>, rest: Seq<char>)
    ensures
        aterm::string_behind(seq![c] + written_string(value) + rest, c) == Ok::<
            (Seq<char>, Seq<char>),
            Failure,
        >((rest, value)),
{
    let s = seq![c] + written_string(value) + rest;
    assert(s.drop_first() =~= written_string(value) + rest);
    law_string_is_read_back(value, rest);
}

/// Whether the grammar `item` reads back what `write` writes of a value, as `keep` of it, and
/// does not take a closing bracket for an item.
pub open spec fn reads_back<V, T>(
    item: spec_fn(Seq<char>) -> Outcome<T>,
    write: spec_fn(V) -> Seq<char>,
    keep: spec_fn(V) -> T,
) -> bool {
    &&& forall|value: V, rest: Seq<char>|
        item(#[trigger] (write(value) + rest)) == Ok::<(Seq<char>, T), Failure>(
            (rest, keep(value)),
        )
    &&& forall|value: V| (#[trigger] write(value)).len() > 0
    &&& forall|s: Seq<char>| s.len() > 0 && s[0] == ']' ==> (#[trigger] item(s)) is Err
}

proof fn lemma_items_are_read<V, T>(
    item: spec_fn(Seq<char>) -> Outcome<T>,
    write: spec_fn(V) -> Seq<char>,
    keep: spec_fn(V) -> T,
    values: Seq<V>,
    rest: Seq<char>,
)
    requires
        reads_back(item, write, keep),
    ensures
        aterm::items_outcome(item, written_items(write, values) + rest) == Ok::<
            (Seq<char>, Seq<T>),
            Failure,
        >((seq![']'] + rest, values.map_values(keep))),
    decreases values.len(),
{
    let s = written_items(write, values) + rest;
    let close = seq![']'] + rest;
    if values.len() == 0 {
        assert(s =~= close);
        assert(values.map_values(keep) =~= Seq::<T>::empty());
    } else {
        let first = write(values[0]);
        let more = values.drop_first();
        let behind = if values.len() == 1 {
            close
        } else {
            seq![','] + written_items(write, more) + rest
        };
        assert(s =~= first + behind);
        let next = aterm::skip_comma(behind);
        text::lemma_size_skip(s, first.len() as int);
        assert(s.skip(first.len() as int) =~= behind);
        if behind.len() > 0 {
            text::lemma_size_drop_first(behind);
        }
        lemma_items_are_read(item, write, keep, more, rest);
        if values.len() == 1 {
            assert(next == close);
            assert(written_items(write, more) + rest =~= close);
        } else {
            assert(next =~= written_items(write, more) + rest);
        }
        assert(seq![keep(values[0])] + more.map_values(keep) =~= values.map_values(keep));
    }
}

/// A list that is written down is read back.
pub proof fn law_list_is_read_back<V, T>(
    item: spec_fn(Seq<char>) -> Outcome<T>,
    write: spec_fn(V) -> Seq<char>,
    keep: spec_fn(V) -> T,
    values: Seq<V>,
    rest: Seq<char>,
)
    requires
        reads_back(item, write, keep),
    ensures
        aterm::list_outcome(item, written_list(write, values) + rest) == Ok::<
            (Seq<char>, Seq<T>),
            Failure,
        >((rest, values.map_values(keep))),
{
    let s = written_list(write, values) + rest;
    assert(s.drop_first() =~= written_items(write, values) + rest);
    lemma_items_are_read(item, write, keep, values, rest);
    assert((seq![']'] + rest).drop_first() =~= rest);
}

proof fn lemma_strings_read_back()
    ensures
        reads_back(
            aterm::string_grammar(),
            string_writer(),
            |value: Seq<char>| value,
        ),
{
    let write = string_writer();
    assert forall|value: Seq<char>, rest: Seq<char>| aterm::string_grammar()(
        #[trigger] (write(value) + rest),
    ) == Ok::<(Seq<char>, Seq<char>), Failure>((rest, value)) by {
        law_string_is_read_back(value, rest);
    }
}

proof fn lemma_string_list_is_read(values: Seq<Seq<char>>, rest: Seq<char>)
    ensures
        aterm::strings_outcome(
            written_list(string_writer(), values) + rest,
        ) == Ok::<(Seq<char>, Seq<Seq<char>>), Failure>((rest, values)),
{
    lemma_strings_read_back();
    law_list_is_read_back(
        aterm::string_grammar(),
        string_writer(),
        |value: Seq<char>| value,
        values,
        rest,
    );
    assert(values.map_values(|value: Seq<char>| value) =~= values);
}

proof fn lemma_output_is_read(output: WrittenOutput, rest: Seq<char>)
    ensures
        aterm::output_outcome(written_output(output) + rest) == Ok::<
            (Seq<char>, (Seq<char>, Seq<char>)),
            Failure,
        >((rest, (output.name, output.path))),
{
    let s4 = seq![')'] + rest;
    let s3 = seq![','] + written_string(output.hash) + s4;
    let s2 = seq![','] + written_string(output.hash_algo) + s3;
    let s1 = seq![','] + written_string(output.path) + s2;
    let s0 = seq!['('] + written_string(output.name) + s1;
    assert(written_output(output) + rest =~= s0);
    lemma_behind_is_read('(', output.name, s1);
    lemma_behind_is_read(',', output.path, s2);
    lemma_behind_is_read(',', output.hash_algo, s3);
    lemma_behind_is_read(',', output.hash, s4);
    assert(s4.drop_first() =~= rest);
}

proof fn lemma_input_is_read(input: (Seq<char>, Seq<Seq<char>>), rest: Seq<char>)
    ensures
        aterm::drv_input_outcome(written_input(input) + rest) == Ok::<
            (Seq<char>, (Seq<char>, Seq<Seq<char>>)),
            Failure,
        >((rest, input)),
{
    let s3 = seq![')'] + rest;
    let s2 = written_list(string_writer(), input.1) + s3;
    let s1 = seq![','] + s2;
    let s0 = seq!['('] + written_string(input.0) + s1;
    assert(written_input(input) + rest =~= s0);
    lemma_behind_is_read('(', input.0, s1);
    assert(s1.drop_first() =~= s2);
    lemma_string_list_is_read(input.1, s3);
    assert(s3.drop_first() =~= rest);
}

proof fn lemma_env_is_read(variable: (Seq<char>, Seq<char>), rest: Seq<char>)
    ensures
        aterm::env_outcome(written_env(variable) + rest) == Ok::<
            (Seq<char>, (Seq<char>, Seq<char>)),
            Failure,
        >((rest, variable)),
{
    let s2 = seq![')'] + rest;
    let s1 = seq![','] + written_string(variable.1) + s2;
    let s0 = seq!['('] + written_string(variable.0) + s1;
    assert(written_env(variable) + rest =~= s0);
    lemma_behind_is_read('(', variable.0, s1);
    lemma_behind_is_read(',', variable.1, s2);
    assert(s2.drop_first() =~= rest);
}

proof fn lemma_outputs_read_back()
    ensures
        reads_back(
            aterm::output_grammar(),
            output_writer(),
            |output: WrittenOutput| (output.name, output.path),
        ),
{
    let write = output_writer();
    assert forall|value: WrittenOutput, rest: Seq<char>| aterm::output_grammar()(
        #[trigger] (write(value) + rest),
    ) == Ok::<(Seq<char>, (Seq<char>, Seq<char>)), Failure>(
        (rest, (value.name, value.path)),
    ) by {
        lemma_output_is_read(value, rest);
    }
}

proof fn lemma_inputs_read_back()
    ensures
        reads_back(
            aterm::drv_input_grammar(),
            input_writer(),
            |input: (Seq<char>, Seq<Seq<char>>)| input,
        ),
{
    let write = input_writer();
    assert forall|value: (Seq<char>, Seq<Seq<char>>), rest: Seq<char>| aterm::drv_input_grammar()(
        #[trigger] (write(value) + rest),
    ) == Ok::<(Seq<char>, (Seq<char>, Seq<Seq<char>>)), Failure>((rest, value)) by {
        lemma_input_is_read(value, rest);
    }
}

proof fn lemma_envs_read_back()
    ensures
        reads_back(
            aterm::env_grammar(),
            env_writer(),
            |variable: (Seq<char>, Seq<char>)| variable,
        ),
{
    let write = env_writer();
    assert forall|value: (Seq<char>, Seq<char>), rest: Seq<char>| aterm::env_grammar()(
        #[trigger] (write(value) + rest),
    ) == Ok::<(Seq<char>, (Seq<char>, Seq<char>)), Failure>((rest, value)) by {
        lemma_env_is_read(value, rest);
    }
}

proof fn lemma_list_behind_is_read<V, T>(
    item: spec_fn(Seq<char>) -> Outcome<T>,
    write: spec_fn(V) -> Seq<char>,
    keep: spec_fn(V) -> T,
    values: Seq<V>,
    rest: Seq<char>,
)
    requires
        reads_back(item, write, keep),
    ensures
        aterm::list_behind(item, seq![','] + written_list(write, values) + rest) == Ok::<
            (Seq<char>, Seq<T>),
            Failure,
        >((rest, values.map_values(keep))),
{
    let s = seq![','] + written_list(write, values) + rest;
    assert(s.drop_first() =~= written_list(write, values) + rest);
    law_list_is_read_back(item, write, keep, values, rest);
}

/// A derivation that is written down is read back: its outputs without their hashes, its inputs
/// and its environment, whatever stands behind it.
pub proof fn law_derivation_is_read_back(drv: WrittenDerivation, rest: Seq<char>)
    ensures
        aterm::derivation_outcome(written_derivation(drv, rest)) == Ok::<
            (Seq<char>, DerivationText),
            Failure,
        >((rest, kept(drv))),
{
    let same_string = |value: Seq<char>| value;
    let same_input = |input: (Seq<char>, Seq<Seq<char>>)| input;
    let same_env = |variable: (Seq<char>, Seq<char>)| variable;
    let s8 = seq![')'] + rest;
    let s7 = seq![','] + written_list(env_writer(), drv.env) + s8;
    let s6 = seq![','] + written_list(string_writer(), drv.builder_args) + s7;
    let s5 = seq![','] + written_string(drv.builder) + s6;
    let s4 = seq![','] + written_string(drv.system) + s5;
    let s3 = seq![','] + written_list(string_writer(), drv.path_inputs) + s4;
    let s2 = seq![','] + written_list(input_writer(), drv.inputs) + s3;
    let s1 = written_list(output_writer(), drv.outputs) + s2;
    let s0 = "Derive("@ + s1;
    assert(written_derivation(drv, rest) == s0);
    assert("Derive("@.is_prefix_of(s0)) by {
        assert("Derive("@ =~= s0.subrange(0, "Derive("@.len() as int));
    }
    assert(s0.skip("Derive("@.len() as int) =~= s1);
    lemma_outputs_read_back();
    lemma_inputs_read_back();
    lemma_strings_read_back();
    lemma_envs_read_back();
    law_list_is_read_back(
        aterm::output_grammar(),
        output_writer(),
        |output: WrittenOutput| (output.name, output.path),
        drv.outputs,
        s2,
    );
    lemma_list_behind_is_read(aterm::drv_input_grammar(), input_writer(), same_input, drv.inputs, s3);
    lemma_list_behind_is_read(aterm::string_grammar(), string_writer(), same_string, drv.path_inputs, s4);
    lemma_behind_is_read(',', drv.system, s5);
    lemma_behind_is_read(',', drv.builder, s6);
    lemma_list_behind_is_read(aterm::string_grammar(), string_writer(), same_string, drv.builder_args, s7);
    lemma_list_behind_is_read(aterm::env_grammar(), env_writer(), same_env, drv.env, s8);
    assert(drv.inputs.map_values(same_input) =~= drv.inputs);
    assert(drv.env.map_values(same_env) =~= drv.env);
    reveal_strlit(")");
    assert(")"@ =~= seq![')']);
    assert(")"@.is_prefix_of(s8)) by {
        assert(")"@ =~= s8.subrange(0, 1));
    }
    assert(s8.skip(1) =~= rest);
}

proof fn lemma_char_is_steady(s: Seq<char>, c: char, t: Seq<char>)
    ensures
        aterm::char_outcome(s, c) matches Ok(rest) ==> aterm::char_outcome(s + t, c) == Ok::<
            Seq<char>,
            Failure,
        >(rest + t),
{
    if s.len() > 0 {
        assert((s + t).drop_first() =~= s.drop_first() + t);
    }
}

proof fn lemma_body_is_steady(s: Seq<char>, t: Seq<char>)
    ensures
        aterm::body_of(s) matches aterm::Body::Closed { value, rest } ==> aterm::body_of(s + t) == (
        aterm::Body::Closed { value, rest: rest + t }),
    decreases s.len(),
{
    if s.len() > 0 {
        assert((s + t).drop_first() =~= s.drop_first() + t);
        if s[0] == '"' {
        } else if s[0] == '\\' {
            if s.len() > 1 {
                assert((s + t).skip(2) =~= s.skip(2) + t);
                lemma_body_is_steady(s.skip(2), t);
            }
        } else {
            lemma_body_is_steady(s.drop_first(), t);
        }
    }
}

/// Whether text behind what the grammar `item` reads does not change how it is read, and a
/// closing bracket is not taken for an item.
#[verifier::opaque]
pub open spec fn steady<T>(item: spec_fn(Seq<char>) -> Outcome<T>) -> bool {
    &&& forall|s: Seq<char>, t: Seq<char>|
        #![trigger item(s + t)]
        item(s) matches Ok((rest, value)) ==> item(s + t) == Ok::<(Seq<char>, T), Failure>(
            (rest + t, value),
        )
    &&& forall|s: Seq<char>| s.len() > 0 && s[0] == ']' ==> (#[trigger] item(s)) is Err
}

/// Text behind a string does not change how the string is read.
pub proof fn lemma_string_is_steady(s: Seq<char>, t: Seq<char>)
    ensures
        aterm::string_outcome(s) matches Ok((rest, value)) ==> aterm::string_outcome(s + t) == Ok::<
            (Seq<char>, Seq<char>),
            Failure,
        >((rest + t, value)),
{
    lemma_char_is_steady(s, '"', t);
    if let Ok(body) = aterm::char_outcome(s, '"') {
        lemma_body_is_steady(body, t);
    }
}

proof fn lemma_string_behind_is_steady(s: Seq<char>, c: char, t: Seq<char>)
    ensures
        aterm::string_behind(s, c) matches Ok((rest, value)) ==> aterm::string_behind(s + t, c)
            == Ok::<(Seq<char>, Seq<char>), Failure>((rest + t, value)),
{
    lemma_char_is_steady(s, c, t);
    if let Ok(rest) = aterm::char_outcome(s, c) {
        lemma_string_is_steady(rest, t);
    }
}

proof fn lemma_items_are_steady<T>(
    item: spec_fn(Seq<char>) -> Outcome<T>,
    s: Seq<char>,
    t: Seq<char>,
)
    requires
        steady(item),
        aterm::items_outcome(item, s) matches Ok((end, values)) && end.len() > 0 && end[0] == ']',
    ensures
        aterm::items_outcome(item, s + t) == Ok::<(Seq<char>, Seq<T>), Failure>(
            (
                aterm::items_outcome(item, s)->Ok_0.0 + t,
                aterm::items_outcome(item, s)->Ok_0.1,
            ),
        ),
    decreases text::size(s),
{
    reveal(steady);
    match item(s) {
        Err(_) => {
            assert((s + t)[0] == ']');
        },
        Ok((rest, value)) => {
            let next = aterm::skip_comma(rest);
            lemma_items_are_steady(item, next, t);
            assert(item(s + t) == Ok::<(Seq<char>, T), Failure>((rest + t, value)));
            lemma_char_is_steady(rest, ',', t);
            assert(rest.len() > 0) by {
                if rest.len() == 0 {
                    assert(next == rest);
                    if let Ok((more, first)) = item(next) {
                        assert(text::size(next) == 0);
                    }
                }
            }
            assert((rest + t)[0] == rest[0]);
            assert(aterm::skip_comma(rest + t) == next + t);
            text::lemma_size_add(next, t);
            text::lemma_size_add(s, t);
        },
    }
}

/// Text behind a list of items that are read steadily does not change how the list is read.
pub proof fn lemma_list_is_steady<T>(
    item: spec_fn(Seq<char>) -> Outcome<T>,
    s: Seq<char>,
    t: Seq<char>,
)
    requires
        steady(item),
    ensures
        aterm::list_outcome(item, s) matches Ok((rest, values)) ==> aterm::list_outcome(item, s + t)
            == Ok::<(Seq<char>, Seq<T>), Failure>((rest + t, values)),
        aterm::list_behind(item, s) matches Ok((rest, values)) ==> aterm::list_behind(item, s + t)
            == Ok::<(Seq<char>, Seq<T>), Failure>((rest + t, values)),
{
    lemma_list_alone_is_steady(item, s, t);
    lemma_char_is_steady(s, ',', t);
    if let Ok(rest) = aterm::char_outcome(s, ',') {
        lemma_list_alone_is_steady(item, rest, t);
    }
}

proof fn lemma_list_alone_is_steady<T>(
    item: spec_fn(Seq<char>) -> Outcome<T>,
    s: Seq<char>,
    t: Seq<char>,
)
    requires
        steady(item),
    ensures
        aterm::list_outcome(item, s) matches Ok((rest, values)) ==> aterm::list_outcome(item, s + t)
            == Ok::<(Seq<char>, Seq<T>), Failure>((rest + t, values)),
{
    if let Ok((rest, values)) = aterm::list_outcome(item, s) {
        lemma_char_is_steady(s, '[', t);
        let inside = s.drop_first();
        let (end, _) = aterm::items_outcome(item, inside)->Ok_0;
        lemma_items_are_steady(item, inside, t);
        lemma_char_is_steady(end, ']', t);
    }
}

/// The items of the lists of a derivation are read steadily.
pub proof fn lemma_items_of_derivations_are_steady()
    ensures
        steady(aterm::string_grammar()),
        steady(aterm::output_grammar()),
        steady(aterm::drv_input_grammar()),
        steady(aterm::env_grammar()),
{
    assert(steady(aterm::string_grammar())) by {
        reveal(steady);
        assert forall|s: Seq<char>, t: Seq<char>| #![trigger aterm::string_grammar()(s + t)]
            aterm::string_grammar()(s) matches Ok((rest, value))
                ==> aterm::string_grammar()(s + t) == Ok::<(Seq<char>, Seq<char>), Failure>(
            (rest + t, value),
        ) by {
            lemma_string_is_steady(s, t);
        }
    }
    assert(steady(aterm::output_grammar())) by {
        reveal(steady);
        assert forall|s: Seq<char>, t: Seq<char>| #![trigger aterm::output_grammar()(s + t)]
            aterm::output_grammar()(s) matches Ok((rest, value))
                ==> aterm::output_grammar()(s + t) == Ok::<
            (Seq<char>, (Seq<char>, Seq<char>)),
            Failure,
        >((rest + t, value)) by {
            if aterm::output_outcome(s) is Ok {
                lemma_string_behind_is_steady(s, '(', t);
                let s1 = aterm::string_behind(s, '(')->Ok_0.0;
                lemma_string_behind_is_steady(s1, ',', t);
                let s2 = aterm::string_behind(s1, ',')->Ok_0.0;
                lemma_string_behind_is_steady(s2, ',', t);
                let s3 = aterm::string_behind(s2, ',')->Ok_0.0;
                lemma_string_behind_is_steady(s3, ',', t);
                let s4 = aterm::string_behind(s3, ',')->Ok_0.0;
                lemma_char_is_steady(s4, ')', t);
            }
        }
    }
    assert(steady(aterm::drv_input_grammar())) by {
        reveal(steady);
        assert forall|s: Seq<char>, t: Seq<char>| #![trigger aterm::drv_input_grammar()(s + t)]
            aterm::drv_input_grammar()(s) matches Ok((rest, value))
                ==> aterm::drv_input_grammar()(s + t) == Ok::<
            (Seq<char>, (Seq<char>, Seq<Seq<char>>)),
            Failure,
        >((rest + t, value)) by {
            if aterm::drv_input_outcome(s) is Ok {
                lemma_string_behind_is_steady(s, '(', t);
                let s1 = aterm::string_behind(s, '(')->Ok_0.0;
                lemma_char_is_steady(s1, ',', t);
                let s2 = aterm::char_outcome(s1, ',')->Ok_0;
                lemma_list_is_steady(aterm::string_grammar(), s2, t);
                let s3 = aterm::strings_outcome(s2)->Ok_0.0;
                lemma_char_is_steady(s3, ')', t);
            }
        }
    }
    assert(steady(aterm::env_grammar())) by {
        reveal(steady);
        assert forall|s: Seq<char>, t: Seq<char>| #![trigger aterm::env_grammar()(s + t)]
            aterm::env_grammar()(s) matches Ok((rest, value))
                ==> aterm::env_grammar()(s + t) == Ok::<
            (Seq<char>, (Seq<char>, Seq<char>)),
            Failure,
        >((rest + t, value)) by {
            if aterm::env_outcome(s) is Ok {
                lemma_string_behind_is_steady(s, '(', t);
                let s1 = aterm::string_behind(s, '(')->Ok_0.0;
                lemma_string_behind_is_steady(s1, ',', t);
                let s2 = aterm::string_behind(s1, ',')->Ok_0.0;
                lemma_char_is_steady(s2, ')', t);
            }
        }
    }
}

proof fn lemma_tag_is_steady(s: Seq<char>, word: Seq<char>, t: Seq<char>)
    ensures
        aterm::tag_outcome(s, word) matches Ok(rest) ==> aterm::tag_outcome(s + t, word) == Ok::<
            Seq<char>,
            Failure,
        >(rest + t),
{
    if word.is_prefix_of(s) {
        let n = word.len() as int;
        assert((s + t).subrange(0, n) =~= s.subrange(0, n));
        assert((s + t).skip(n) =~= s.skip(n) + t);
    }
}

/// Text behind a derivation is left over and does not change how the derivation is read.
pub proof fn law_text_behind_a_derivation_is_left(s: Seq<char>, t: Seq<char>)
    ensures
        aterm::derivation_outcome(s) matches Ok((rest, drv)) ==> aterm::derivation_outcome(s + t)
            == Ok::<(Seq<char>, DerivationText), Failure>((rest + t, drv)),
{
    if aterm::derivation_outcome(s) is Ok {
        lemma_items_of_derivations_are_steady();
        lemma_tag_is_steady(s, "Derive("@, t);
        let s0 = aterm::tag_outcome(s, "Derive("@)->Ok_0;
        lemma_list_is_steady(aterm::output_grammar(), s0, t);
        let s1 = aterm::list_outcome(aterm::output_grammar(), s0)->Ok_0.0;
        lemma_list_is_steady(aterm::drv_input_grammar(), s1, t);
        let s2 = aterm::list_behind(aterm::drv_input_grammar(), s1)->Ok_0.0;
        lemma_list_is_steady(aterm::string_grammar(), s2, t);
        let s3 = aterm::list_behind(aterm::string_grammar(), s2)->Ok_0.0;
        lemma_string_behind_is_steady(s3, ',', t);
        let s4 = aterm::string_behind(s3, ',')->Ok_0.0;
        lemma_string_behind_is_steady(s4, ',', t);
        let s5 = aterm::string_behind(s4, ',')->Ok_0.0;
        lemma_list_is_steady(aterm::string_grammar(), s5, t);
        let s6 = aterm::list_behind(aterm::string_grammar(), s5)->Ok_0.0;
        lemma_list_is_steady(aterm::env_grammar(), s6, t);
        let s7 = aterm::list_behind(aterm::env_grammar(), s6)->Ok_0.0;
        lemma_tag_is_steady(s7, ")"@, t);
    }
}

} // verus!
