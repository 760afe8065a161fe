//! The fields of a derivation file as texts: every derivation that is read is made of them, and
//! those of which nothing is kept do not change what is read.

use crate::aterm;
use crate::aterm::{DerivationText, Failure, Outcome};
use crate::aterm_laws;
use crate::text;
use vstd::prelude::*;

verus! {

/// The fields of an output, each as the text of a string with its quotes, and whether a comma
/// stands behind the output.
pub struct OutputFields {
    pub name: Seq<char>,
    pub path: Seq<char>,
    pub hash_algo: Seq<char>,
    pub hash: Seq<char>,
    pub comma: bool,
}

/// The fields of a derivation file, each as a text, and the text behind the derivation.
pub struct DerivationFields {
    pub outputs: Seq<OutputFields>,
    pub inputs: Seq<char>,
    pub path_inputs: Seq<char>,
    pub system: Seq<char>,
    pub builder: Seq<char>,
    pub builder_args: Seq<char>,
    pub env: Seq<char>,
    pub rest: Seq<char>,
}

/// An output made of its fields, with `rest` behind it.
pub open spec fn output_text(output: OutputFields, rest: Seq<char>) -> Seq<char> {
    let hash = seq![','] + (output.hash + (seq![')'] + rest));
    let hash_algo = seq![','] + (output.hash_algo + hash);
    let path = seq![','] + (output.path + hash_algo);
    seq!['('] + (output.name + path)
}

/// Outputs made of their fields, with the closing bracket and `rest` behind them.
pub open spec fn outputs_text(outputs: Seq<OutputFields>, rest: Seq<char>) -> Seq<char>
    decreases outputs.len(),
{
    if outputs.len() == 0 {
        seq![']'] + rest
    } else {
        let more = outputs_text(outputs.drop_first(), rest);
        output_text(
            outputs[0],
            if outputs[0].comma {
                seq![','] + more
            } else {
                more
            },
        )
    }
}

/// A derivation file made of its fields.
pub open spec fn derivation_text(fields: DerivationFields) -> Seq<char> {
    let env = seq![','] + (fields.env + (seq![')'] + fields.rest));
    let builder_args = seq![','] + (fields.builder_args + env);
    let builder = seq![','] + (fields.builder + builder_args);
    let system = seq![','] + (fields.system + builder);
    let path_inputs = seq![','] + (fields.path_inputs + system);
    let inputs = seq![','] + (fields.inputs + path_inputs);
    "Derive("@ + (seq!['['] + outputs_text(fields.outputs, inputs))
}

/// The grammar of a list as a function.
pub open spec fn list_grammar<T>(item: spec_fn(Seq<char>) -> Outcome<T>) -> spec_fn(
    Seq<char>,
) -> Outcome<Seq<T>> {
    |s: Seq<char>| aterm::list_outcome(item, s)
}

/// Whether a grammar reads a text to its end.
pub open spec fn reads_all<T>(grammar: spec_fn(Seq<char>) -> Outcome<T>, s: Seq<char>) -> bool {
    grammar(s) matches Ok((rest, _)) && rest.len() == 0
}

/// What a grammar reads in a text.
pub open spec fn value_of<T>(grammar: spec_fn(Seq<char>) -> Outcome<T>, s: Seq<char>) -> T {
    grammar(s)->Ok_0.1
}

/// Whether the fields of an output are strings.
pub open spec fn is_output(output: OutputFields) -> bool {
    let string = aterm::string_grammar();
    &&& reads_all(string, output.name)
    &&& reads_all(string, output.path)
    &&& reads_all(string, output.hash_algo)
    &&& reads_all(string, output.hash)
}

/// Whether each field of a derivation has the form that it must have.
pub open spec fn is_derivation(fields: DerivationFields) -> bool {
    let string = aterm::string_grammar();
    &&& forall|i: int| 0 <= i < fields.outputs.len() ==> is_output(#[trigger] fields.outputs[i])
    &&& reads_all(list_grammar(aterm::drv_input_grammar()), fields.inputs)
    &&& reads_all(list_grammar(string), fields.path_inputs)
    &&& reads_all(string, fields.system)
    &&& reads_all(string, fields.builder)
    &&& reads_all(list_grammar(string), fields.builder_args)
    &&& reads_all(list_grammar(aterm::env_grammar()), fields.env)
}

/// Whether a text is a derivation file made of the given fields.
pub open spec fn made_of(s: Seq<char>, fields: DerivationFields) -> bool {
    is_derivation(fields) && derivation_text(fields) == s
}

/// What is kept of an output.
pub open spec fn output_value(output: OutputFields) -> (Seq<char>, Seq<char>) {
    let string = aterm::string_grammar();
    (value_of(string, output.name), value_of(string, output.path))
}

/// What is kept of outputs.
pub open spec fn outputs_value(outputs: Seq<OutputFields>) -> Seq<(Seq<char>, Seq<char>)> {
    outputs.map_values(|output: OutputFields| output_value(output))
}

/// What is kept of a derivation.
pub open spec fn derivation_value(fields: DerivationFields) -> DerivationText {
    DerivationText {
        outputs: outputs_value(fields.outputs),
        inputs: value_of(list_grammar(aterm::drv_input_grammar()), fields.inputs),
        env: value_of(list_grammar(aterm::env_grammar()), fields.env),
    }
}

/// Whether two derivation files have the same fields but for those of which nothing is kept: the
/// files among the inputs, the system, the builder, its arguments and the hashes of the outputs.
pub open spec fn same_kept(x: DerivationFields, y: DerivationFields) -> bool {
    &&& x.outputs.len() == y.outputs.len()
    &&& forall|i: int|
        0 <= i < x.outputs.len() ==> (#[trigger] x.outputs[i]).name == y.outputs[i].name
            && x.outputs[i].path == y.outputs[i].path
    &&& x.inputs == y.inputs
    &&& x.env == y.env
    &&& x.rest == y.rest
}

/// Whether two texts are derivation files that differ at most in fields of which nothing is kept.
pub open spec fn alike(x: Seq<char>, y: Seq<char>) -> bool {
    exists|a: DerivationFields, b: DerivationFields| #[trigger]
        made_of(x, a) && #[trigger] made_of(y, b) && same_kept(a, b)
}

/// A string behind a character is read, whatever follows.
pub proof fn lemma_string_field(c: char, field: Seq<char>, rest: Seq<char>)
    requires
        reads_all(aterm::string_grammar(), field),
    ensures
        aterm::string_behind(seq![c] + (field + rest), c) == Ok::<(Seq<char>, Seq<char>), Failure>(
            (rest, value_of(aterm::string_grammar(), field)),
        ),
{
    let s = seq![c] + (field + rest);
    assert(s.drop_first() =~= field + rest);
    aterm_laws::lemma_string_is_steady(field, rest);
    let none = aterm::string_outcome(field)->Ok_0.0;
    assert(none + rest =~= rest);
}

/// A list behind a comma is read, whatever follows.
pub proof fn lemma_list_field<T>(
    item: spec_fn(Seq<char>) -> Outcome<T>,
    field: Seq<char>,
    rest: Seq<char>,
)
    requires
        aterm_laws::steady(item),
        reads_all(list_grammar(item), field),
    ensures
        aterm::list_behind(item, seq![','] + (field + rest)) == Ok::<(Seq<char>, Seq<T>), Failure>(
            (rest, value_of(list_grammar(item), field)),
        ),
{
    let s = seq![','] + (field + rest);
    assert(s.drop_first() =~= field + rest);
    aterm_laws::lemma_list_is_steady(item, field, rest);
    let none = aterm::list_outcome(item, field)->Ok_0.0;
    assert(none + rest =~= rest);
}

proof fn lemma_output_fields(output: OutputFields, rest: Seq<char>)
    requires
        is_output(output),
    ensures
        aterm::output_outcome(output_text(output, rest)) == Ok::<
            (Seq<char>, (Seq<char>, Seq<char>)),
            Failure,
        >((rest, output_value(output))),
        text::size(rest) < text::size(output_text(output, rest)),
{
    let s4 = seq![')'] + rest;
    let s3 = seq![','] + (output.hash + s4);
    let s2 = seq![','] + (output.hash_algo + s3);
    let s1 = seq![','] + (output.path + s2);
    let s = output_text(output, rest);
    lemma_string_field('(', output.name, s1);
    lemma_string_field(',', output.path, s2);
    lemma_string_field(',', output.hash_algo, s3);
    lemma_string_field(',', output.hash, s4);
    assert(s4.drop_first() =~= rest);
    let n = s.len() - rest.len();
    assert(s.skip(n) =~= rest);
    text::lemma_size_skip(s, n);
}

/// Outputs made of fields are read, up to the closing bracket.
pub proof fn lemma_outputs_fields(outputs: Seq<OutputFields>, rest: Seq<char>)
    requires
        forall|i: int| 0 <= i < outputs.len() ==> is_output(#[trigger] outputs[i]),
    ensures
        aterm::items_outcome(aterm::output_grammar(), outputs_text(outputs, rest)) == Ok::<
            (Seq<char>, Seq<(Seq<char>, Seq<char>)>),
            Failure,
        >((seq![']'] + rest, outputs_value(outputs))),
    decreases outputs.len(),
{
    let s = outputs_text(outputs, rest);
    if outputs.len() == 0 {
        assert(outputs_value(outputs) =~= Seq::empty());
        assert(s[0] == ']');
    } else {
        let tail = outputs.drop_first();
        let more = outputs_text(tail, rest);
        let behind = if outputs[0].comma {
            seq![','] + more
        } else {
            more
        };
        assert forall|i: int| 0 <= i < tail.len() implies is_output(#[trigger] tail[i]) by {
            assert(is_output(outputs[i + 1]));
        }
        assert(is_output(outputs[0]));
        lemma_output_fields(outputs[0], behind);
        lemma_outputs_fields(tail, rest);
        assert(more[0] != ',') by {
            if tail.len() == 0 {
                assert(more[0] == ']');
            } else {
                assert(more[0] == '(');
            }
        }
        if outputs[0].comma {
            assert(behind.drop_first() =~= more);
            text::lemma_size_drop_first(behind);
        }
        assert(aterm::skip_comma(behind) == more);
        assert(seq![output_value(outputs[0])] + outputs_value(tail) =~= outputs_value(outputs));
    }
}

/// A derivation that is made of fields is read field by field.
#[verifier::rlimit(60)]
#[verifier::spinoff_prover]
pub proof fn law_fields_are_read(fields: DerivationFields)
    requires
        is_derivation(fields),
    ensures
        aterm::derivation_outcome(derivation_text(fields)) == Ok::<
            (Seq<char>, DerivationText),
            Failure,
        >((fields.rest, derivation_value(fields))),
{
    let s8 = seq![')'] + fields.rest;
    let s7 = seq![','] + (fields.env + s8);
    let s6 = seq![','] + (fields.builder_args + s7);
    let s5 = seq![','] + (fields.builder + s6);
    let s4 = seq![','] + (fields.system + s5);
    let s3 = seq![','] + (fields.path_inputs + s4);
    let s2 = seq![','] + (fields.inputs + s3);
    let s1 = seq!['['] + outputs_text(fields.outputs, s2);
    let s0 = "Derive("@ + s1;
    assert("Derive("@.is_prefix_of(s0)) by {
        assert("Derive("@ =~= s0.subrange(0, "Derive("@.len() as int));
    }
    assert(s0.skip("Derive("@.len() as int) =~= s1);
    assert(s1.drop_first() =~= outputs_text(fields.outputs, s2));
    lemma_outputs_fields(fields.outputs, s2);
    assert((seq![']'] + s2).drop_first() =~= s2);
    aterm_laws::lemma_items_of_derivations_are_steady();
    lemma_list_field(aterm::drv_input_grammar(), fields.inputs, s3);
    lemma_list_field(aterm::string_grammar(), fields.path_inputs, s4);
    lemma_string_field(',', fields.system, s5);
    lemma_string_field(',', fields.builder, s6);
    lemma_list_field(aterm::string_grammar(), fields.builder_args, s7);
    lemma_list_field(aterm::env_grammar(), fields.env, s8);
    reveal_strlit(")");
    assert(")"@ =~= seq![')']);
    assert(")"@.is_prefix_of(s8)) by {
        assert(")"@ =~= s8.subrange(0, 1));
    }
    assert(s8.skip(1) =~= fields.rest);
}

/// Two derivation files that differ at most in fields of which nothing is kept are read alike:
/// the same outputs, inputs and environment, and the same text behind.
pub proof fn law_dropped_fields_do_not_matter(x: Seq<char>, y: Seq<char>)
    requires
        alike(x, y),
    ensures
        aterm::derivation_outcome(x) is Ok,
        aterm::derivation_outcome(x) == aterm::derivation_outcome(y),
{
    let (a, b) = choose|a: DerivationFields, b: DerivationFields| #[trigger]
        made_of(x, a) && #[trigger] made_of(y, b) && same_kept(a, b);
    law_fields_are_read(a);
    law_fields_are_read(b);
    assert(outputs_value(a.outputs) =~= outputs_value(b.outputs));
}

/// Whether `rest` is the end of `s`.
pub open spec fn is_end(rest: Seq<char>, s: Seq<char>) -> bool {
    rest.len() <= s.len() && s.skip(s.len() - rest.len()) == rest
}

/// The part of `s` in front of its end `rest`.
pub open spec fn front(s: Seq<char>, rest: Seq<char>) -> Seq<char> {
    s.take(s.len() - rest.len())
}

proof fn lemma_front(s: Seq<char>, rest: Seq<char>)
    requires
        is_end(rest, s),
    ensures
        front(s, rest) + rest == s,
{
    assert(front(s, rest) + rest =~= s);
}

proof fn lemma_end_of_end(a: Seq<char>, b: Seq<char>, c: Seq<char>)
    requires
        is_end(a, b),
        is_end(b, c),
    ensures
        is_end(a, c),
{
    assert(c.skip(c.len() - a.len()) =~= b.skip(b.len() - a.len()));
}

/// The end of `s + t` is the end of `s` with `t` behind it, if it is no shorter than `t`.
proof fn lemma_end_with_tail(rest: Seq<char>, s: Seq<char>, t: Seq<char>) -> (r: Seq<char>)
    requires
        is_end(rest, s + t),
        rest.len() >= t.len(),
    ensures
        rest == r + t,
        is_end(r, s),
        r == front(rest, t),
{
    let r = front(rest, t);
    let n = s.len() + t.len() - rest.len();
    assert(rest =~= (s + t).skip(n));
    assert(r =~= s.skip(n));
    assert(rest =~= r + t);
    r
}

/// Whether the grammar `item` leaves the end of a text, and reads the same where text behind
/// what it read is taken away.
#[verifier::opaque]
pub open spec fn tight<T>(item: spec_fn(Seq<char>) -> Outcome<T>) -> bool {
    &&& forall|s: Seq<char>| (#[trigger] item(s)) matches Ok((rest, _)) ==> is_end(rest, s)
    &&& forall|s: Seq<char>, t: Seq<char>|
        #![trigger item(s + t)]
        item(s + t) matches Ok((rest, value)) ==> (rest.len() >= t.len() ==> item(s) == Ok::<
            (Seq<char>, T),
            Failure,
        >((front(rest, t), value)))
}

proof fn lemma_without_tail<T>(
    item: spec_fn(Seq<char>) -> Outcome<T>,
    s: Seq<char>,
    t: Seq<char>,
    r: Seq<char>,
    value: T,
)
    requires
        tight(item),
        item(s + t) == Ok::<(Seq<char>, T), Failure>((r + t, value)),
    ensures
        item(s) == Ok::<(Seq<char>, T), Failure>((r, value)),
{
    reveal(tight);
    assert(front(r + t, t) =~= r);
}

/// A character that is read is the front of the text, and the rest its end.
pub proof fn lemma_char_is_tight(s: Seq<char>, c: char)
    ensures
        aterm::char_outcome(s, c) matches Ok(rest) ==> is_end(rest, s) && rest.len() < s.len()
            && seq![c] + rest == s,
{
    if s.len() > 0 && s[0] == c {
        let rest = s.drop_first();
        assert(s.skip(s.len() - rest.len()) =~= rest);
        assert(seq![c] + rest =~= s);
    }
}

proof fn lemma_char_without_tail(s: Seq<char>, c: char, t: Seq<char>)
    ensures
        aterm::char_outcome(s + t, c) is Ok && s.len() > 0 ==> aterm::char_outcome(s, c) == Ok::<
            Seq<char>,
            Failure,
        >(s.drop_first()) && aterm::char_outcome(s + t, c) == Ok::<Seq<char>, Failure>(
            s.drop_first() + t,
        ),
{
    if s.len() > 0 {
        assert((s + t)[0] == s[0]);
        assert((s + t).drop_first() =~= s.drop_first() + t);
    }
}

proof fn lemma_body_is_tight(s: Seq<char>)
    ensures
        aterm::body_of(s) matches aterm::Body::Closed { value, rest } ==> is_end(rest, s)
            && rest.len() < s.len(),
    decreases s.len(),
{
    if s.len() > 0 {
        let tail = s.drop_first();
        assert(s.skip(s.len() - tail.len()) =~= tail);
        if s[0] == '"' {
        } else if s[0] == '\\' {
            if s.len() > 1 {
                let later = s.skip(2);
                assert(s.skip(s.len() - later.len()) =~= later);
                lemma_body_is_tight(later);
                if let aterm::Body::Closed { value, rest } = aterm::body_of(later) {
                    lemma_end_of_end(rest, later, s);
                }
            }
        } else {
            lemma_body_is_tight(tail);
            if let aterm::Body::Closed { value, rest } = aterm::body_of(tail) {
                lemma_end_of_end(rest, tail, s);
            }
        }
    }
}

proof fn lemma_body_without_tail(s: Seq<char>, t: Seq<char>)
    requires
        aterm::body_of(s + t) matches aterm::Body::Closed { value, rest } && rest.len() >= t.len(),
    ensures
        aterm::body_of(s) matches aterm::Body::Closed { value, rest } && aterm::body_of(s + t) == (
        aterm::Body::Closed { value, rest: rest + t }),
    decreases s.len(),
{
    let whole = s + t;
    lemma_body_is_tight(whole);
    assert(s.len() > 0);
    assert(whole[0] == s[0]);
    assert(whole.drop_first() =~= s.drop_first() + t);
    if s[0] == '"' {
    } else if s[0] == '\\' {
        lemma_body_is_tight(whole.skip(2));
        assert(s.len() > 1);
        assert(whole[1] == s[1]);
        assert(whole.skip(2) =~= s.skip(2) + t);
        lemma_body_without_tail(s.skip(2), t);
    } else {
        lemma_body_without_tail(s.drop_first(), t);
    }
}

/// Strings are read tightly.
pub proof fn lemma_string_is_tight()
    ensures
        tight(aterm::string_grammar()),
{
    reveal(tight);
    let item = aterm::string_grammar();
    assert forall|s: Seq<char>| (#[trigger] item(s)) matches Ok((rest, _)) ==> is_end(rest, s) by {
        lemma_char_is_tight(s, '"');
        if let Ok(body) = aterm::char_outcome(s, '"') {
            lemma_body_is_tight(body);
            if let aterm::Body::Closed { value, rest } = aterm::body_of(body) {
                lemma_end_of_end(rest, body, s);
            }
        }
    }
    assert forall|s: Seq<char>, t: Seq<char>|
        #![trigger item(s + t)]
        (item(s + t) matches Ok((rest, _)) && rest.len() >= t.len()) implies item(s) == Ok::<
        _,
        Failure,
    >((front(item(s + t)->Ok_0.0, t), item(s + t)->Ok_0.1)) by {
        let (rest, value) = item(s + t)->Ok_0;
        let r = lemma_end_with_tail(rest, s, t);
        lemma_char_is_tight(s + t, '"');
        lemma_char_without_tail(s, '"', t);
        let body = aterm::char_outcome(s + t, '"')->Ok_0;
        lemma_body_is_tight(body);
        assert(s.len() > 0);
        lemma_body_without_tail(s.drop_first(), t);
        if let aterm::Body::Closed { value: v, rest } = aterm::body_of(s.drop_first()) {
            lemma_same_behind(rest, r, t);
        }
    }
}

proof fn lemma_same_behind(a: Seq<char>, b: Seq<char>, t: Seq<char>)
    requires
        a + t == b + t,
    ensures
        a == b,
{
    assert(a =~= (a + t).take((a + t).len() - t.len()));
    assert(b =~= (b + t).take((b + t).len() - t.len()));
}

proof fn lemma_items_are_tight<T>(item: spec_fn(Seq<char>) -> Outcome<T>, s: Seq<char>)
    requires
        tight(item),
    ensures
        aterm::items_outcome(item, s) matches Ok((rest, _)) ==> is_end(rest, s),
    decreases text::size(s),
{
    reveal(tight);
    assert(s.skip(0) =~= s);
    if let Ok((rest, value)) = item(s) {
        let next = aterm::skip_comma(rest);
        lemma_char_is_tight(rest, ',');
        assert(rest.skip(0) =~= rest);
        lemma_end_of_end(next, rest, s);
        if text::size(next) < text::size(s) {
            lemma_items_are_tight(item, next);
            if let Ok((end, _)) = aterm::items_outcome(item, next) {
                lemma_end_of_end(end, next, s);
            }
        }
    }
}

proof fn lemma_items_without_tail<T>(
    item: spec_fn(Seq<char>) -> Outcome<T>,
    s: Seq<char>,
    t: Seq<char>,
    end: Seq<char>,
    values: Seq<T>,
)
    requires
        tight(item),
        aterm_laws::steady(item),
        aterm::items_outcome(item, s + t) == Ok::<(Seq<char>, Seq<T>), Failure>((end + t, values)),
        end.len() > 0,
        end[0] == ']',
    ensures
        aterm::items_outcome(item, s) == Ok::<(Seq<char>, Seq<T>), Failure>((end, values)),
    decreases text::size(s + t),
{
    reveal(aterm_laws::steady);
    match item(s + t) {
        Err(_) => {
            lemma_same_behind(s, end, t);
        },
        Ok((rest, value)) => {
            let next = aterm::skip_comma(rest);
            lemma_items_are_tight(item, next);
            lemma_char_is_tight(rest, ',');
            assert(rest.len() >= end.len() + t.len());
            assert(is_end(rest, s + t)) by {
                reveal(tight);
            }
            let r = lemma_end_with_tail(rest, s, t);
            lemma_without_tail(item, s, t, r, value);
            lemma_char_without_tail(r, ',', t);
            assert((r + t)[0] == r[0]);
            let later = aterm::skip_comma(r);
            assert(next == later + t);
            text::lemma_size_add(later, t);
            text::lemma_size_add(s, t);
            let more = aterm::items_outcome(item, next)->Ok_0.1;
            lemma_items_without_tail(item, later, t, end, more);
        },
    }
}

proof fn lemma_list_is_tight<T>(item: spec_fn(Seq<char>) -> Outcome<T>)
    requires
        tight(item),
        aterm_laws::steady(item),
    ensures
        tight(list_grammar(item)),
{
    let list = list_grammar(item);
    assert forall|s: Seq<char>| (#[trigger] list(s)) matches Ok((rest, _)) ==> is_end(rest, s) by {
        lemma_char_is_tight(s, '[');
        if let Ok(inside) = aterm::char_outcome(s, '[') {
            lemma_items_are_tight(item, inside);
            if let Ok((end, _)) = aterm::items_outcome(item, inside) {
                lemma_end_of_end(end, inside, s);
                lemma_char_is_tight(end, ']');
                if let Ok(rest) = aterm::char_outcome(end, ']') {
                    lemma_end_of_end(rest, end, s);
                }
            }
        }
    }
    assert forall|s: Seq<char>, t: Seq<char>|
        #![trigger list(s + t)]
        (list(s + t) matches Ok((rest, _)) && rest.len() >= t.len()) implies list(s) == Ok::<
        _,
        Failure,
    >((front(list(s + t)->Ok_0.0, t), list(s + t)->Ok_0.1)) by {
        let (rest, values) = list(s + t)->Ok_0;
        let r = lemma_end_with_tail(rest, s, t);
        lemma_char_is_tight(s + t, '[');
        let inside = aterm::char_outcome(s + t, '[')->Ok_0;
        lemma_items_are_tight(item, inside);
        let end = aterm::items_outcome(item, inside)->Ok_0.0;
        lemma_char_is_tight(end, ']');
        let close = seq![']'] + r;
        assert(end =~= close + t);
        assert(s.len() > 0);
        lemma_char_without_tail(s, '[', t);
        lemma_items_without_tail(item, s.drop_first(), t, close, values);
        assert(close.drop_first() =~= r);
    }
    reveal(tight);
}

/// What a tight grammar reads behind a character, it reads also without the text behind it.
proof fn lemma_behind_without_tail<T>(
    grammar: spec_fn(Seq<char>) -> Outcome<T>,
    s: Seq<char>,
    c: char,
    t: Seq<char>,
) -> (r: Seq<char>)
    requires
        tight(grammar),
        aterm::char_outcome(s + t, c) matches Ok(behind) && (grammar(behind) matches Ok((rest, _))
            && rest.len() >= t.len()),
    ensures
        grammar(aterm::char_outcome(s + t, c)->Ok_0)->Ok_0.0 == r + t,
        aterm::char_outcome(s, c) is Ok,
        grammar(aterm::char_outcome(s, c)->Ok_0) == Ok::<(Seq<char>, T), Failure>(
            (r, grammar(aterm::char_outcome(s + t, c)->Ok_0)->Ok_0.1),
        ),
{
    reveal(tight);
    let behind = aterm::char_outcome(s + t, c)->Ok_0;
    let (rest, value) = grammar(behind)->Ok_0;
    assert(is_end(rest, behind));
    assert(behind.len() < (s + t).len());
    assert(s.len() > 0);
    lemma_char_without_tail(s, c, t);
    let r = lemma_end_with_tail(rest, s.drop_first(), t);
    lemma_without_tail(grammar, s.drop_first(), t, r, value);
    r
}

/// A closing character is read also without the text behind it.
proof fn lemma_close_without_tail(s: Seq<char>, c: char, t: Seq<char>, r: Seq<char>)
    requires
        aterm::char_outcome(s + t, c) == Ok::<Seq<char>, Failure>(r + t),
    ensures
        aterm::char_outcome(s, c) == Ok::<Seq<char>, Failure>(r),
{
    lemma_char_is_tight(s + t, c);
    assert((r + t).len() < (s + t).len());
    lemma_char_without_tail(s, c, t);
    lemma_same_behind(s.drop_first(), r, t);
}

/// What is left behind a character and a tight grammar is the end of the text.
proof fn lemma_behind_is_tight<T>(grammar: spec_fn(Seq<char>) -> Outcome<T>, s: Seq<char>, c: char)
    requires
        tight(grammar),
    ensures
        aterm::char_outcome(s, c) matches Ok(behind) ==> (grammar(behind) matches Ok((rest, _))
            ==> is_end(rest, s)),
{
    reveal(tight);
    lemma_char_is_tight(s, c);
    if let Ok(behind) = aterm::char_outcome(s, c) {
        if let Ok((rest, _)) = grammar(behind) {
            lemma_end_of_end(rest, behind, s);
        }
    }
}

/// Variables are read tightly.
pub proof fn lemma_env_is_tight()
    ensures
        tight(aterm::env_grammar()),
{
    let item = aterm::env_grammar();
    let string = aterm::string_grammar();
    lemma_string_is_tight();
    assert forall|s: Seq<char>| (#[trigger] item(s)) matches Ok((rest, _)) ==> is_end(rest, s) by {
        if let Ok((rest, _)) = item(s) {
            lemma_behind_is_tight(string, s, '(');
            let s1 = aterm::string_behind(s, '(')->Ok_0.0;
            lemma_behind_is_tight(string, s1, ',');
            let s2 = aterm::string_behind(s1, ',')->Ok_0.0;
            lemma_char_is_tight(s2, ')');
            lemma_end_of_end(s2, s1, s);
            lemma_end_of_end(rest, s2, s);
        }
    }
    assert forall|s: Seq<char>, t: Seq<char>|
        #![trigger item(s + t)]
        (item(s + t) matches Ok((rest, _)) && rest.len() >= t.len()) implies item(s) == Ok::<
        _,
        Failure,
    >((front(item(s + t)->Ok_0.0, t), item(s + t)->Ok_0.1)) by {
        let (rest, value) = item(s + t)->Ok_0;
        let r = lemma_end_with_tail(rest, s, t);
        let s1 = aterm::string_behind(s + t, '(')->Ok_0.0;
        let s2 = aterm::string_behind(s1, ',')->Ok_0.0;
        lemma_behind_is_tight(string, s1, ',');
        lemma_char_is_tight(s2, ')');
        let r1 = lemma_behind_without_tail(string, s, '(', t);
        let r2 = lemma_behind_without_tail(string, r1, ',', t);
        lemma_close_without_tail(r2, ')', t, r);
    }
    reveal(tight);
}

/// Inputs are read tightly.
pub proof fn lemma_drv_input_is_tight()
    ensures
        tight(aterm::drv_input_grammar()),
{
    let item = aterm::drv_input_grammar();
    let string = aterm::string_grammar();
    let list = list_grammar(string);
    lemma_string_is_tight();
    aterm_laws::lemma_items_of_derivations_are_steady();
    lemma_list_is_tight(string);
    assert forall|s: Seq<char>| (#[trigger] item(s)) matches Ok((rest, _)) ==> is_end(rest, s) by {
        if let Ok((rest, _)) = item(s) {
            lemma_behind_is_tight(string, s, '(');
            let s1 = aterm::string_behind(s, '(')->Ok_0.0;
            lemma_behind_is_tight(list, s1, ',');
            let s2 = list(aterm::char_outcome(s1, ',')->Ok_0)->Ok_0.0;
            lemma_char_is_tight(s2, ')');
            lemma_end_of_end(s2, s1, s);
            lemma_end_of_end(rest, s2, s);
        }
    }
    assert forall|s: Seq<char>, t: Seq<char>|
        #![trigger item(s + t)]
        (item(s + t) matches Ok((rest, _)) && rest.len() >= t.len()) implies item(s) == Ok::<
        _,
        Failure,
    >((front(item(s + t)->Ok_0.0, t), item(s + t)->Ok_0.1)) by {
        let (rest, value) = item(s + t)->Ok_0;
        let r = lemma_end_with_tail(rest, s, t);
        let s1 = aterm::string_behind(s + t, '(')->Ok_0.0;
        let s2 = list(aterm::char_outcome(s1, ',')->Ok_0)->Ok_0.0;
        lemma_behind_is_tight(list, s1, ',');
        lemma_char_is_tight(s2, ')');
        let r1 = lemma_behind_without_tail(string, s, '(', t);
        let r2 = lemma_behind_without_tail(list, r1, ',', t);
        lemma_close_without_tail(r2, ')', t, r);
    }
    reveal(tight);
}

/// A grammar that reads tightly reads all of what stands in front of the rest.
pub proof fn lemma_field<T>(grammar: spec_fn(Seq<char>) -> Outcome<T>, s: Seq<char>) -> (field: Seq<
    char,
>)
    requires
        tight(grammar),
        grammar(s) is Ok,
    ensures
        reads_all(grammar, field),
        s == field + grammar(s)->Ok_0.0,
{
    reveal(tight);
    let (rest, value) = grammar(s)->Ok_0;
    let field = front(s, rest);
    lemma_front(s, rest);
    let none = Seq::<char>::empty();
    assert(none + rest =~= rest);
    lemma_without_tail(grammar, field, rest, none, value);
    field
}

/// A field that is read behind a character is all that stands between it and the rest.
pub proof fn lemma_field_behind<T>(
    grammar: spec_fn(Seq<char>) -> Outcome<T>,
    s: Seq<char>,
    c: char,
) -> (field: Seq<char>)
    requires
        tight(grammar),
        aterm::char_outcome(s, c) matches Ok(behind) && grammar(behind) is Ok,
    ensures
        reads_all(grammar, field),
        s == seq![c] + (field + grammar(aterm::char_outcome(s, c)->Ok_0)->Ok_0.0),
{
    lemma_char_is_tight(s, c);
    lemma_field(grammar, aterm::char_outcome(s, c)->Ok_0)
}

/// An output that is read is made of fields.
proof fn lemma_output_has_fields(s: Seq<char>, comma: bool) -> (output: OutputFields)
    requires
        aterm::output_outcome(s) is Ok,
    ensures
        is_output(output),
        output.comma == comma,
        s == output_text(output, aterm::output_outcome(s)->Ok_0.0),
{
    lemma_string_is_tight();
    let string = aterm::string_grammar();
    let name = lemma_field_behind(string, s, '(');
    let s1 = aterm::string_behind(s, '(')->Ok_0.0;
    let path = lemma_field_behind(string, s1, ',');
    let s2 = aterm::string_behind(s1, ',')->Ok_0.0;
    let hash_algo = lemma_field_behind(string, s2, ',');
    let s3 = aterm::string_behind(s2, ',')->Ok_0.0;
    let hash = lemma_field_behind(string, s3, ',');
    let s4 = aterm::string_behind(s3, ',')->Ok_0.0;
    lemma_char_is_tight(s4, ')');
    OutputFields { name, path, hash_algo, hash, comma }
}

proof fn lemma_outputs_have_fields(s: Seq<char>) -> (outputs: Seq<OutputFields>)
    requires
        aterm::items_outcome(aterm::output_grammar(), s) matches Ok((end, _)) && end.len() > 0
            && end[0] == ']',
    ensures
        forall|i: int| 0 <= i < outputs.len() ==> is_output(#[trigger] outputs[i]),
        s == outputs_text(
            outputs,
            aterm::items_outcome(aterm::output_grammar(), s)->Ok_0.0.drop_first(),
        ),
    decreases text::size(s),
{
    let item = aterm::output_grammar();
    let end = aterm::items_outcome(item, s)->Ok_0.0;
    let rest = end.drop_first();
    match item(s) {
        Err(_) => {
            let outputs = Seq::<OutputFields>::empty();
            assert(seq![']'] + rest =~= s);
            outputs
        },
        Ok((behind, _)) => {
            let next = aterm::skip_comma(behind);
            lemma_char_is_tight(behind, ',');
            let comma = aterm::char_outcome(behind, ',') is Ok;
            let first = lemma_output_has_fields(s, comma);
            let more = lemma_outputs_have_fields(next);
            let outputs = seq![first] + more;
            assert(outputs.drop_first() =~= more);
            assert forall|i: int| 0 <= i < outputs.len() implies is_output(
                #[trigger] outputs[i],
            ) by {
                if i > 0 {
                    assert(is_output(more[i - 1]));
                }
            }
            outputs
        },
    }
}

proof fn lemma_tag_is_front(s: Seq<char>, word: Seq<char>)
    ensures
        aterm::tag_outcome(s, word) matches Ok(rest) ==> s == word + rest,
{
    if word.is_prefix_of(s) {
        assert(s =~= word + s.skip(word.len() as int));
    }
}

/// The lists of a derivation are read tightly.
pub proof fn lemma_items_of_derivations_are_tight()
    ensures
        tight(list_grammar(aterm::drv_input_grammar())),
        tight(list_grammar(aterm::string_grammar())),
        tight(list_grammar(aterm::env_grammar())),
{
    lemma_string_is_tight();
    aterm_laws::lemma_items_of_derivations_are_steady();
    lemma_list_is_tight(aterm::string_grammar());
    lemma_drv_input_is_tight();
    lemma_env_is_tight();
    lemma_list_is_tight(aterm::drv_input_grammar());
    lemma_list_is_tight(aterm::env_grammar());
}

/// Every derivation that is read is made of fields.
pub proof fn law_every_derivation_is_made_of_fields(s: Seq<char>) -> (fields: DerivationFields)
    requires
        aterm::derivation_outcome(s) is Ok,
    ensures
        made_of(s, fields),
        aterm::derivation_outcome(s) == Ok::<(Seq<char>, DerivationText), Failure>(
            (fields.rest, derivation_value(fields)),
        ),
{
    lemma_string_is_tight();
    lemma_items_of_derivations_are_tight();
    let string = aterm::string_grammar();
    let strings = list_grammar(string);
    lemma_tag_is_front(s, "Derive("@);
    let s0 = aterm::tag_outcome(s, "Derive("@)->Ok_0;
    lemma_char_is_tight(s0, '[');
    let inside = s0.drop_first();
    let end = aterm::items_outcome(aterm::output_grammar(), inside)->Ok_0.0;
    let outputs = lemma_outputs_have_fields(inside);
    let s1 = aterm::list_outcome(aterm::output_grammar(), s0)->Ok_0.0;
    assert(s1 == end.drop_first());
    let inputs = lemma_field_behind(list_grammar(aterm::drv_input_grammar()), s1, ',');
    let s2 = aterm::list_behind(aterm::drv_input_grammar(), s1)->Ok_0.0;
    let path_inputs = lemma_field_behind(strings, s2, ',');
    let s3 = aterm::list_behind(string, s2)->Ok_0.0;
    let system = lemma_field_behind(string, s3, ',');
    let s4 = aterm::string_behind(s3, ',')->Ok_0.0;
    let builder = lemma_field_behind(string, s4, ',');
    let s5 = aterm::string_behind(s4, ',')->Ok_0.0;
    let builder_args = lemma_field_behind(strings, s5, ',');
    let s6 = aterm::list_behind(string, s5)->Ok_0.0;
    let env = lemma_field_behind(list_grammar(aterm::env_grammar()), s6, ',');
    let s7 = aterm::list_behind(aterm::env_grammar(), s6)->Ok_0.0;
    lemma_tag_is_front(s7, ")"@);
    reveal_strlit(")");
    assert(")"@ =~= seq![')']);
    let rest = aterm::tag_outcome(s7, ")"@)->Ok_0;
    let fields = DerivationFields {
        outputs,
        inputs,
        path_inputs,
        system,
        builder,
        builder_args,
        env,
        rest,
    };
    assert(derivation_text(fields) == s);
    law_fields_are_read(fields);
    fields
}

} // verus!
