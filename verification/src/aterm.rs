//! The text of a derivation file: an ATerm, read from the front.
//!
//! Every parser takes the text that is left and gives back what it read and the text behind it,
//! or an error that says where it stopped and what it looked for. Next to each parser stands the
//! grammar that it follows, as a function on sequences of characters.

use crate::paths::{DrvPath, OutputName, StorePath};
use crate::text;
use vstd::prelude::*;

verus! {

/// What a parser looked for and did not find.
#[derive(Debug, Clone, Copy, PartialEq, Eq, Structural)]
pub enum ErrorKind {
    /// One given character, or an escape that is known.
    Char,
    /// A given word.
    Tag,
    /// More text: a string was not closed.
    Eof,
    /// Progress: an item of a list took no text.
    Many0,
}

/// An error of a parser: the text that it could not read, and what it looked for there.
#[derive(Debug, Clone, Copy, PartialEq, Eq)]
pub struct ParseError<'a> {
    pub input: &'a str,
    pub code: ErrorKind,
}

/// An error as a value of the grammar.
pub struct Failure {
    pub at: Seq<char>,
    pub code: ErrorKind,
}

/// What the grammar says of a text: the text behind what was read, and the value read.
pub type Outcome<T> = Result<(Seq<char>, T), Failure>;

impl<'a> View for ParseError<'a> {
    type V = Failure;

    open spec fn view(&self) -> Failure {
        Failure { at: self.input@, code: self.code }
    }
}

/// The result of a parser as a value of the grammar.
pub open spec fn outcome<'a, O: DeepView>(
    result: Result<(&'a str, O), ParseError<'a>>,
) -> Outcome<O::V> {
    match result {
        Ok((rest, value)) => Ok((rest@, value.deep_view())),
        Err(error) => Err(error@),
    }
}

/// The grammar of one given character: the text behind it.
pub open spec fn char_outcome(s: Seq<char>, c: char) -> Result<Seq<char>, Failure> {
    if s.len() > 0 && s[0] == c {
        Ok(s.drop_first())
    } else {
        Err(Failure { at: s, code: ErrorKind::Char })
    }
}

/// Reads one given character.
pub fn parse_char<'a>(input: &'a str, c: char) -> (result: Result<&'a str, ParseError<'a>>)
    ensures
        match result {
            Ok(rest) => char_outcome(input@, c) == Ok::<Seq<char>, Failure>(rest@),
            Err(error) => char_outcome(input@, c) == Err::<Seq<char>, Failure>(error@),
        },
{
    let mut chars = input.chars();
    match chars.next() {
        Some(first) if first == c => Ok(chars.as_str()),
        _ => Err(ParseError { input, code: ErrorKind::Char }),
    }
}

/// The grammar of a given word: the text behind it.
pub open spec fn tag_outcome(s: Seq<char>, word: Seq<char>) -> Result<Seq<char>, Failure> {
    if word.is_prefix_of(s) {
        Ok(s.skip(word.len() as int))
    } else {
        Err(Failure { at: s, code: ErrorKind::Tag })
    }
}

/// Reads a given word.
pub fn parse_tag<'a>(input: &'a str, word: &str) -> (result: Result<&'a str, ParseError<'a>>)
    ensures
        match result {
            Ok(rest) => tag_outcome(input@, word@) == Ok::<Seq<char>, Failure>(rest@),
            Err(error) => tag_outcome(input@, word@) == Err::<Seq<char>, Failure>(error@),
        },
{
    let mut left = word.chars();
    let mut chars = input.chars();
    let ghost mut done: int = 0;
    proof {
        assert(word@.skip(0) =~= word@);
        assert(input@.skip(0) =~= input@);
    }
    loop
        invariant
            0 <= done <= word@.len(),
            done <= input@.len(),
            vstd::std_specs::iter::IteratorSpec::remaining(&left) == word@.skip(done),
            vstd::std_specs::iter::IteratorSpec::remaining(&chars) == input@.skip(done),
            forall|i: int| 0 <= i < done ==> word@[i] == input@[i],
        decreases word@.len() - done,
    {
        match left.next() {
            None => {
                assert(word@.is_prefix_of(input@)) by {
                    assert(word@ =~= input@.subrange(0, word@.len() as int));
                }
                return Ok(chars.as_str());
            },
            Some(c) => {
                assert(word@.skip(done)[0] == word@[done]);
                match chars.next() {
                    Some(d) if d == c => {
                        proof {
                            assert(input@.skip(done)[0] == input@[done]);
                            assert(word@.skip(done).drop_first() =~= word@.skip(done + 1));
                            assert(input@.skip(done).drop_first() =~= input@.skip(done + 1));
                            done = done + 1;
                        }
                    },
                    _ => {
                        proof {
                            if word@.is_prefix_of(input@) {
                                assert(word@[done] == input@[done]);
                                assert(input@.skip(done)[0] == input@[done]);
                            }
                        }
                        return Err(ParseError { input, code: ErrorKind::Tag });
                    },
                }
            },
        }
    }
}

/// The character that a backslash and `c` stand for.
pub open spec fn unescaped(c: char) -> Option<char> {
    if c == '"' {
        Some('"')
    } else if c == '\\' {
        Some('\\')
    } else if c == 'n' {
        Some('\n')
    } else if c == 'r' {
        Some('\r')
    } else if c == 't' {
        Some('\t')
    } else {
        None
    }
}

/// What follows the opening quote of a string.
pub enum Body {
    /// A value up to the closing quote, and the text behind the quote.
    Closed { value: Seq<char>, rest: Seq<char> },
    /// The text ends before a closing quote.
    Unclosed,
    /// A backslash stands before a character that it cannot escape.
    BadEscape,
}

/// A string whose value starts with `value` and goes on as `body`.
pub open spec fn prefixed(value: Seq<char>, body: Body) -> Body {
    match body {
        Body::Closed { value: more, rest } => Body::Closed { value: value + more, rest },
        _ => body,
    }
}

/// The grammar of what follows the opening quote of a string.
pub open spec fn body_of(s: Seq<char>) -> Body
    decreases s.len(),
{
    if s.len() == 0 {
        Body::Unclosed
    } else if s[0] == '"' {
        Body::Closed { value: Seq::empty(), rest: s.drop_first() }
    } else if s[0] == '\\' {
        if s.len() == 1 {
            Body::Unclosed
        } else {
            match unescaped(s[1]) {
                Some(c) => prefixed(seq![c], body_of(s.skip(2))),
                None => Body::BadEscape,
            }
        }
    } else {
        prefixed(seq![s[0]], body_of(s.drop_first()))
    }
}

/// The grammar of a string. What is wrong behind the opening quote is reported right behind it.
pub open spec fn string_outcome(s: Seq<char>) -> Outcome<Seq<char>> {
    match char_outcome(s, '"') {
        Err(failure) => Err(failure),
        Ok(body) => match body_of(body) {
            Body::Closed { value, rest } => Ok((rest, value)),
            Body::Unclosed => Err(Failure { at: body, code: ErrorKind::Eof }),
            Body::BadEscape => Err(Failure { at: body, code: ErrorKind::Char }),
        },
    }
}

proof fn lemma_prefixed_twice(a: Seq<char>, c: char, body: Body)
    ensures
        prefixed(a, prefixed(seq![c], body)) == prefixed(a.push(c), body),
{
    if let Body::Closed { value, rest } = body {
        assert(a + (seq![c] + value) =~= a.push(c) + value);
    }
}

/// Reads a string in double quotes.
pub fn parse_string<'a>(input: &'a str) -> (result: Result<(&'a str, String), ParseError<'a>>)
    ensures
        outcome(result) == string_outcome(input@),
        result matches Ok((rest, _)) ==> text::size(rest@) < text::size(input@),
{
    let body = match parse_char(input, '"') {
        Ok(body) => body,
        Err(error) => {
            return Err(error);
        },
    };
    let mut chars = body.chars();
    let mut value = String::new();
    let ghost mut left: Seq<char> = body@;
    proof {
        if let Body::Closed { value, rest } = body_of(body@) {
            assert(Seq::<char>::empty() + value =~= value);
        }
    }
    loop
        invariant
            char_outcome(input@, '"') == Ok::<Seq<char>, Failure>(body@),
            left == vstd::std_specs::iter::IteratorSpec::remaining(&chars),
            body_of(body@) == prefixed(value@, body_of(left)),
        decreases left.len(),
    {
        match chars.next() {
            None => {
                return Err(ParseError { input: body, code: ErrorKind::Eof });
            },
            Some(c) => {
                if c == '"' {
                    proof {
                        assert(value@ + Seq::<char>::empty() =~= value@);
                        lemma_string_takes_text(input@);
                    }
                    return Ok((chars.as_str(), value));
                } else if c == '\\' {
                    match chars.next() {
                        None => {
                            return Err(ParseError { input: body, code: ErrorKind::Eof });
                        },
                        Some(e) => {
                            let plain = if e == '"' {
                                '"'
                            } else if e == '\\' {
                                '\\'
                            } else if e == 'n' {
                                '\n'
                            } else if e == 'r' {
                                '\r'
                            } else if e == 't' {
                                '\t'
                            } else {
                                return Err(ParseError { input: body, code: ErrorKind::Char });
                            };
                            proof {
                                lemma_prefixed_twice(value@, plain, body_of(left.skip(2)));
                                assert(left.drop_first().drop_first() =~= left.skip(2));
                                left = left.skip(2);
                            }
                            value.push(plain);
                        },
                    }
                } else {
                    proof {
                        lemma_prefixed_twice(value@, c, body_of(left.drop_first()));
                        left = left.drop_first();
                    }
                    value.push(c);
                }
            },
        }
    }
}

/// The text behind a comma, if it starts with one.
pub open spec fn skip_comma(s: Seq<char>) -> Seq<char> {
    match char_outcome(s, ',') {
        Ok(rest) => rest,
        Err(_) => s,
    }
}

/// The grammar of the items of a list: as many as can be read, each with or without a comma
/// behind it. An item that takes no text is an error.
pub open spec fn items_outcome<T>(item: spec_fn(Seq<char>) -> Outcome<T>, s: Seq<char>) -> Outcome<
    Seq<T>,
>
    decreases text::size(s),
{
    match item(s) {
        Err(_) => Ok((s, Seq::empty())),
        Ok((rest, value)) => {
            let next = skip_comma(rest);
            if text::size(next) < text::size(s) {
                match items_outcome(item, next) {
                    Ok((end, values)) => Ok((end, seq![value] + values)),
                    Err(failure) => Err(failure),
                }
            } else {
                Err(Failure { at: s, code: ErrorKind::Many0 })
            }
        },
    }
}

/// The grammar of a list: items in square brackets.
pub open spec fn list_outcome<T>(item: spec_fn(Seq<char>) -> Outcome<T>, s: Seq<char>) -> Outcome<
    Seq<T>,
> {
    match char_outcome(s, '[') {
        Err(failure) => Err(failure),
        Ok(inside) => match items_outcome(item, inside) {
            Err(failure) => Err(failure),
            Ok((end, values)) => match char_outcome(end, ']') {
                Err(failure) => Err(failure),
                Ok(rest) => Ok((rest, values)),
            },
        },
    }
}

/// Whether a parser follows the grammar `item` on every text.
pub open spec fn follows<'a, O: DeepView, F: Fn(&'a str) -> Result<(&'a str, O), ParseError<'a>>>(
    parser: F,
    item: spec_fn(Seq<char>) -> Outcome<O::V>,
) -> bool {
    forall|s: &'a str, result: Result<(&'a str, O), ParseError<'a>>| #[trigger]
        call_ensures(parser, (s,), result) ==> outcome(result) == item(s@)
}

/// Values read so far, put in front of what the rest of the text gives.
pub open spec fn after_items<T>(values: Seq<T>, rest: Outcome<Seq<T>>) -> Outcome<Seq<T>> {
    match rest {
        Ok((end, more)) => Ok((end, values + more)),
        Err(failure) => Err(failure),
    }
}

/// Reads a list of what `parser` reads.
pub fn parse_list<'a, O: DeepView, F: Fn(&'a str) -> Result<(&'a str, O), ParseError<'a>>>(
    parser: F,
    input: &'a str,
) -> (result: Result<(&'a str, Vec<O>), ParseError<'a>>)
    requires
        forall|s: &'a str| #[trigger] call_requires(parser, (s,)),
        forall|s: &'a str, rest: &'a str, value: O| #[trigger]
            call_ensures(parser, (s,), Ok((rest, value))) ==> text::size(rest@) <= text::size(s@),
    ensures
        forall|item: spec_fn(Seq<char>) -> Outcome<O::V>| #[trigger]
            follows(parser, item) ==> outcome(result) == list_outcome(item, input@),
{
    let inside = match parse_char(input, '[') {
        Ok(inside) => inside,
        Err(error) => {
            return Err(error);
        },
    };
    let mut values: Vec<O> = Vec::new();
    let mut left = inside;
    proof {
        assert forall|item: spec_fn(Seq<char>) -> Outcome<O::V>| #[trigger]
            follows(parser, item) implies items_outcome(item, inside@) == after_items(
            values.deep_view(),
            items_outcome(item, left@),
        ) by {
            if let Ok((end, more)) = items_outcome(item, left@) {
                assert(values.deep_view() + more =~= more);
            }
        }
    }
    loop
        invariant_except_break
            char_outcome(input@, '[') == Ok::<Seq<char>, Failure>(inside@),
            forall|s: &'a str| #[trigger] call_requires(parser, (s,)),
            forall|s: &'a str, rest: &'a str, value: O| #[trigger]
                call_ensures(parser, (s,), Ok((rest, value))) ==> text::size(rest@) <= text::size(
                    s@,
                ),
            forall|item: spec_fn(Seq<char>) -> Outcome<O::V>| #[trigger]
                follows(parser, item) ==> items_outcome(item, inside@) == after_items(
                    values.deep_view(),
                    items_outcome(item, left@),
                ),
        ensures
            char_outcome(input@, '[') == Ok::<Seq<char>, Failure>(inside@),
            forall|item: spec_fn(Seq<char>) -> Outcome<O::V>| #[trigger]
                follows(parser, item) ==> items_outcome(item, inside@) == Ok::<
                    (Seq<char>, Seq<O::V>),
                    Failure,
                >((left@, values.deep_view())),
        decreases text::size(left@),
    {
        match parser(left) {
            Err(_) => {
                proof {
                    assert forall|item: spec_fn(Seq<char>) -> Outcome<O::V>| #[trigger]
                        follows(parser, item) implies items_outcome(item, inside@) == Ok::<
                        (Seq<char>, Seq<O::V>),
                        Failure,
                    >((left@, values.deep_view())) by {
                        assert(values.deep_view() + Seq::<O::V>::empty() =~= values.deep_view());
                    }
                }
                break;
            },
            Ok((rest, value)) => {
                let next = match parse_char(rest, ',') {
                    Ok(next) => next,
                    Err(_) => rest,
                };
                proof {
                    if rest@.len() > 0 {
                        text::lemma_size_drop_first(rest@);
                    }
                }
                if text::byte_len(next) == text::byte_len(left) {
                    return Err(ParseError { input: left, code: ErrorKind::Many0 });
                }
                let ghost before = values.deep_view();
                let ghost seen = value.deep_view();
                values.push(value);
                proof {
                    assert(values.deep_view() =~= before.push(seen));
                    assert forall|item: spec_fn(Seq<char>) -> Outcome<O::V>| #[trigger]
                        follows(parser, item) implies items_outcome(item, inside@) == after_items(
                        values.deep_view(),
                        items_outcome(item, next@),
                    ) by {
                        assert(item(left@) == Ok::<(Seq<char>, O::V), Failure>((rest@, seen)));
                        if let Ok((end, more)) = items_outcome(item, next@) {
                            assert(before + (seq![seen] + more) =~= before.push(seen) + more);
                        }
                    }
                }
                left = next;
            },
        }
    }
    match parse_char(left, ']') {
        Ok(rest) => Ok((rest, values)),
        Err(error) => Err(error),
    }
}

/// A string behind one given character.
pub open spec fn string_behind(s: Seq<char>, c: char) -> Outcome<Seq<char>> {
    match char_outcome(s, c) {
        Err(failure) => Err(failure),
        Ok(rest) => string_outcome(rest),
    }
}

/// Reads a string behind one given character.
fn parse_string_behind<'a>(input: &'a str, c: char) -> (result: Result<
    (&'a str, String),
    ParseError<'a>,
>)
    ensures
        outcome(result) == string_behind(input@, c),
{
    match parse_char(input, c) {
        Ok(rest) => parse_string(rest),
        Err(error) => Err(error),
    }
}

/// The grammar of an output: its name, its path, and the algorithm and value of its hash.
pub open spec fn output_outcome(s: Seq<char>) -> Outcome<(Seq<char>, Seq<char>)> {
    match string_behind(s, '(') {
        Err(failure) => Err(failure),
        Ok((s, name)) => match string_behind(s, ',') {
            Err(failure) => Err(failure),
            Ok((s, path)) => match string_behind(s, ',') {
                Err(failure) => Err(failure),
                Ok((s, _)) => match string_behind(s, ',') {
                    Err(failure) => Err(failure),
                    Ok((s, _)) => match char_outcome(s, ')') {
                        Err(failure) => Err(failure),
                        Ok(rest) => Ok((rest, (name, path))),
                    },
                },
            },
        },
    }
}

/// Reads an output; its hash is left out.
pub fn parse_output<'a>(input: &'a str) -> (result: Result<
    (&'a str, (OutputName, StorePath)),
    ParseError<'a>,
>)
    ensures
        outcome(result) == output_outcome(input@),
        result matches Ok((rest, _)) ==> text::size(rest@) < text::size(input@),
{
    proof {
        lemma_output_takes_text(input@);
    }
    let (input, name) = match parse_string_behind(input, '(') {
        Ok(read) => read,
        Err(error) => {
            return Err(error);
        },
    };
    let (input, path) = match parse_string_behind(input, ',') {
        Ok(read) => read,
        Err(error) => {
            return Err(error);
        },
    };
    let (input, _hash_algo) = match parse_string_behind(input, ',') {
        Ok(read) => read,
        Err(error) => {
            return Err(error);
        },
    };
    let (input, _hash) = match parse_string_behind(input, ',') {
        Ok(read) => read,
        Err(error) => {
            return Err(error);
        },
    };
    match parse_char(input, ')') {
        Ok(rest) => Ok((rest, (OutputName(name), StorePath(path)))),
        Err(error) => Err(error),
    }
}

/// The grammar of the items of a list of strings.
pub open spec fn string_grammar() -> spec_fn(Seq<char>) -> Outcome<Seq<char>> {
    |s: Seq<char>| string_outcome(s)
}

/// The grammar of a list of strings.
pub open spec fn strings_outcome(s: Seq<char>) -> Outcome<Seq<Seq<char>>> {
    list_outcome(string_grammar(), s)
}

/// What is left behind a string is shorter than the text that the string was read from.
proof fn lemma_string_takes_text(s: Seq<char>)
    ensures
        string_outcome(s) matches Ok((rest, _)) ==> text::size(rest) < text::size(s),
{
    if s.len() > 0 {
        text::lemma_size_drop_first(s);
        lemma_body_takes_text(s.drop_first());
    }
}

proof fn lemma_body_takes_text(s: Seq<char>)
    ensures
        body_of(s) matches Body::Closed { value, rest } ==> text::size(rest) < text::size(s),
    decreases s.len(),
{
    if s.len() > 0 {
        text::lemma_size_drop_first(s);
        if s[0] == '"' {
        } else if s[0] == '\\' {
            if s.len() > 1 {
                lemma_body_takes_text(s.skip(2));
                text::lemma_size_skip(s, 2);
            }
        } else {
            lemma_body_takes_text(s.drop_first());
        }
    }
}

/// Reads a list of strings.
fn parse_strings<'a>(input: &'a str) -> (result: Result<(&'a str, Vec<String>), ParseError<'a>>)
    ensures
        outcome(result) == strings_outcome(input@),
{
    assert(follows(parse_string, string_grammar()));
    parse_list(parse_string, input)
}

/// The grammar of an input: the path of a derivation and the names of its outputs in use.
pub open spec fn drv_input_outcome(s: Seq<char>) -> Outcome<(Seq<char>, Seq<Seq<char>>)> {
    match string_behind(s, '(') {
        Err(failure) => Err(failure),
        Ok((s, path)) => match char_outcome(s, ',') {
            Err(failure) => Err(failure),
            Ok(s) => match strings_outcome(s) {
                Err(failure) => Err(failure),
                Ok((s, outputs)) => match char_outcome(s, ')') {
                    Err(failure) => Err(failure),
                    Ok(rest) => Ok((rest, (path, outputs))),
                },
            },
        },
    }
}

/// Each of the names as the name of an output.
fn output_names(names: Vec<String>) -> (outputs: Vec<OutputName>)
    ensures
        outputs.deep_view() == names.deep_view(),
{
    let mut outputs: Vec<OutputName> = Vec::new();
    for i in 0..names.len()
        invariant
            outputs.len() == i,
            forall|j: int| 0 <= j < i ==> (#[trigger] outputs@[j])@ == names@[j]@,
    {
        outputs.push(OutputName(names[i].clone()));
    }
    assert(outputs.deep_view() =~= names.deep_view());
    outputs
}

/// Reads an input.
pub fn parse_drv_input<'a>(input: &'a str) -> (result: Result<
    (&'a str, (DrvPath, Vec<OutputName>)),
    ParseError<'a>,
>)
    ensures
        outcome(result) == drv_input_outcome(input@),
        result matches Ok((rest, _)) ==> text::size(rest@) < text::size(input@),
{
    proof {
        lemma_drv_input_takes_text(input@);
    }
    let (input, path) = match parse_string_behind(input, '(') {
        Ok(read) => read,
        Err(error) => {
            return Err(error);
        },
    };
    let input = match parse_char(input, ',') {
        Ok(input) => input,
        Err(error) => {
            return Err(error);
        },
    };
    let (input, outputs) = match parse_strings(input) {
        Ok(read) => read,
        Err(error) => {
            return Err(error);
        },
    };
    match parse_char(input, ')') {
        Ok(rest) => Ok((rest, (DrvPath(path), output_names(outputs)))),
        Err(error) => Err(error),
    }
}

/// The grammar of a variable of the environment: its name and its value.
pub open spec fn env_outcome(s: Seq<char>) -> Outcome<(Seq<char>, Seq<char>)> {
    match string_behind(s, '(') {
        Err(failure) => Err(failure),
        Ok((s, name)) => match string_behind(s, ',') {
            Err(failure) => Err(failure),
            Ok((s, value)) => match char_outcome(s, ')') {
                Err(failure) => Err(failure),
                Ok(rest) => Ok((rest, (name, value))),
            },
        },
    }
}

/// Reads a variable of the environment.
pub fn parse_env<'a>(input: &'a str) -> (result: Result<
    (&'a str, (String, String)),
    ParseError<'a>,
>)
    ensures
        outcome(result) == env_outcome(input@),
        result matches Ok((rest, _)) ==> text::size(rest@) < text::size(input@),
{
    proof {
        lemma_env_takes_text(input@);
    }
    let (input, name) = match parse_string_behind(input, '(') {
        Ok(read) => read,
        Err(error) => {
            return Err(error);
        },
    };
    let (input, value) = match parse_string_behind(input, ',') {
        Ok(read) => read,
        Err(error) => {
            return Err(error);
        },
    };
    match parse_char(input, ')') {
        Ok(rest) => Ok((rest, (name, value))),
        Err(error) => Err(error),
    }
}

proof fn lemma_char_takes_text(s: Seq<char>, c: char)
    ensures
        char_outcome(s, c) matches Ok(rest) ==> text::size(rest) < text::size(s),
{
    if s.len() > 0 {
        text::lemma_size_drop_first(s);
    }
}

proof fn lemma_string_behind_takes_text(s: Seq<char>, c: char)
    ensures
        string_behind(s, c) matches Ok((rest, _)) ==> text::size(rest) < text::size(s),
{
    lemma_char_takes_text(s, c);
    if let Ok(rest) = char_outcome(s, c) {
        lemma_string_takes_text(rest);
    }
}

/// What is left behind the items of a list is no longer than the text they were read from.
proof fn lemma_items_take_text<T>(item: spec_fn(Seq<char>) -> Outcome<T>, s: Seq<char>)
    ensures
        items_outcome(item, s) matches Ok((rest, _)) ==> text::size(rest) <= text::size(s),
    decreases text::size(s),
{
    if let Ok((rest, value)) = item(s) {
        let next = skip_comma(rest);
        if text::size(next) < text::size(s) {
            lemma_items_take_text(item, next);
        }
    }
}

proof fn lemma_list_takes_text<T>(item: spec_fn(Seq<char>) -> Outcome<T>, s: Seq<char>)
    ensures
        list_outcome(item, s) matches Ok((rest, _)) ==> text::size(rest) < text::size(s),
{
    lemma_char_takes_text(s, '[');
    if let Ok(inside) = char_outcome(s, '[') {
        lemma_items_take_text(item, inside);
        if let Ok((end, values)) = items_outcome(item, inside) {
            lemma_char_takes_text(end, ']');
        }
    }
}

/// What is left behind an output is shorter than the text it was read from.
proof fn lemma_output_takes_text(s: Seq<char>)
    ensures
        output_outcome(s) matches Ok((rest, _)) ==> text::size(rest) < text::size(s),
{
    lemma_string_behind_takes_text(s, '(');
    if let Ok((s1, _)) = string_behind(s, '(') {
        lemma_string_behind_takes_text(s1, ',');
        if let Ok((s2, _)) = string_behind(s1, ',') {
            lemma_string_behind_takes_text(s2, ',');
            if let Ok((s3, _)) = string_behind(s2, ',') {
                lemma_string_behind_takes_text(s3, ',');
                if let Ok((s4, _)) = string_behind(s3, ',') {
                    lemma_char_takes_text(s4, ')');
                }
            }
        }
    }
}

/// What is left behind an input is shorter than the text it was read from.
proof fn lemma_drv_input_takes_text(s: Seq<char>)
    ensures
        drv_input_outcome(s) matches Ok((rest, _)) ==> text::size(rest) < text::size(s),
{
    lemma_string_behind_takes_text(s, '(');
    if let Ok((s1, _)) = string_behind(s, '(') {
        lemma_char_takes_text(s1, ',');
        if let Ok(s2) = char_outcome(s1, ',') {
            lemma_list_takes_text(string_grammar(), s2);
            if let Ok((s3, _)) = strings_outcome(s2) {
                lemma_char_takes_text(s3, ')');
            }
        }
    }
}

/// What is left behind a variable is shorter than the text it was read from.
proof fn lemma_env_takes_text(s: Seq<char>)
    ensures
        env_outcome(s) matches Ok((rest, _)) ==> text::size(rest) < text::size(s),
{
    lemma_string_behind_takes_text(s, '(');
    if let Ok((s1, _)) = string_behind(s, '(') {
        lemma_string_behind_takes_text(s1, ',');
        if let Ok((s2, _)) = string_behind(s1, ',') {
            lemma_char_takes_text(s2, ')');
        }
    }
}

/// What a derivation file says, in the order in which it stands there.
#[derive(Debug, PartialEq, Eq)]
pub struct ParseDerivationResult {
    pub outputs: Vec<(OutputName, StorePath)>,
    pub inputs: Vec<(DrvPath, Vec<OutputName>)>,
    pub env: Vec<(String, String)>,
}

/// What a derivation file says, as a value of the grammar.
#[verifier::ext_equal]
pub struct DerivationText {
    pub outputs: Seq<(Seq<char>, Seq<char>)>,
    pub inputs: Seq<(Seq<char>, Seq<Seq<char>>)>,
    pub env: Seq<(Seq<char>, Seq<char>)>,
}

impl DeepView for ParseDerivationResult {
    type V = DerivationText;

    open spec fn deep_view(&self) -> DerivationText {
        DerivationText {
            outputs: self.outputs.deep_view(),
            inputs: self.inputs.deep_view(),
            env: self.env.deep_view(),
        }
    }
}

/// The grammar of an output as a function.
pub open spec fn output_grammar() -> spec_fn(Seq<char>) -> Outcome<(Seq<char>, Seq<char>)> {
    |s: Seq<char>| output_outcome(s)
}

/// The grammar of an input as a function.
pub open spec fn drv_input_grammar() -> spec_fn(Seq<char>) -> Outcome<
    (Seq<char>, Seq<Seq<char>>),
> {
    |s: Seq<char>| drv_input_outcome(s)
}

/// The grammar of a variable as a function.
pub open spec fn env_grammar() -> spec_fn(Seq<char>) -> Outcome<(Seq<char>, Seq<char>)> {
    |s: Seq<char>| env_outcome(s)
}

/// A list behind a comma.
pub open spec fn list_behind<T>(item: spec_fn(Seq<char>) -> Outcome<T>, s: Seq<char>) -> Outcome<
    Seq<T>,
> {
    match char_outcome(s, ',') {
        Err(failure) => Err(failure),
        Ok(rest) => list_outcome(item, rest),
    }
}

/// The grammar of a derivation: the word `Derive` and in parentheses the outputs, the inputs that
/// are derivations, the inputs that are files, the system, the builder, its arguments and the
/// environment.
pub open spec fn derivation_outcome(s: Seq<char>) -> Outcome<DerivationText> {
    match tag_outcome(s, "Derive("@) {
        Err(failure) => Err(failure),
        Ok(s) => match list_outcome(output_grammar(), s) {
            Err(failure) => Err(failure),
            Ok((s, outputs)) => match list_behind(drv_input_grammar(), s) {
                Err(failure) => Err(failure),
                Ok((s, inputs)) => match list_behind(string_grammar(), s) {
                    Err(failure) => Err(failure),
                    Ok((s, _)) => match string_behind(s, ',') {
                        Err(failure) => Err(failure),
                        Ok((s, _)) => match string_behind(s, ',') {
                            Err(failure) => Err(failure),
                            Ok((s, _)) => match list_behind(string_grammar(), s) {
                                Err(failure) => Err(failure),
                                Ok((s, _)) => match list_behind(env_grammar(), s) {
                                    Err(failure) => Err(failure),
                                    Ok((s, env)) => match tag_outcome(s, ")"@) {
                                        Err(failure) => Err(failure),
                                        Ok(rest) => Ok(
                                            (rest, DerivationText { outputs, inputs, env }),
                                        ),
                                    },
                                },
                            },
                        },
                    },
                },
            },
        },
    }
}

/// Reads a list of strings behind a comma.
fn parse_strings_behind<'a>(input: &'a str) -> (result: Result<
    (&'a str, Vec<String>),
    ParseError<'a>,
>)
    ensures
        outcome(result) == list_behind(string_grammar(), input@),
{
    match parse_char(input, ',') {
        Ok(input) => parse_strings(input),
        Err(error) => Err(error),
    }
}

/// Reads the outputs of a derivation.
fn parse_outputs<'a>(input: &'a str) -> (result: Result<
    (&'a str, Vec<(OutputName, StorePath)>),
    ParseError<'a>,
>)
    ensures
        outcome(result) == list_outcome(output_grammar(), input@),
{
    assert(follows(parse_output, output_grammar()));
    parse_list(parse_output, input)
}

/// Reads the inputs of a derivation that are derivations, behind a comma.
fn parse_drv_inputs_behind<'a>(input: &'a str) -> (result: Result<
    (&'a str, Vec<(DrvPath, Vec<OutputName>)>),
    ParseError<'a>,
>)
    ensures
        outcome(result) == list_behind(drv_input_grammar(), input@),
{
    assert(follows(parse_drv_input, drv_input_grammar()));
    match parse_char(input, ',') {
        Ok(input) => parse_list(parse_drv_input, input),
        Err(error) => Err(error),
    }
}

/// Reads the environment of a derivation, behind a comma.
fn parse_envs_behind<'a>(input: &'a str) -> (result: Result<
    (&'a str, Vec<(String, String)>),
    ParseError<'a>,
>)
    ensures
        outcome(result) == list_behind(env_grammar(), input@),
{
    assert(follows(parse_env, env_grammar()));
    match parse_char(input, ',') {
        Ok(input) => parse_list(parse_env, input),
        Err(error) => Err(error),
    }
}

/// Reads a derivation. Inputs that are files, the system, the builder and its arguments are
/// left out.
pub fn parse_derivation<'a>(input: &'a str) -> (result: Result<
    (&'a str, ParseDerivationResult),
    ParseError<'a>,
>)
    ensures
        outcome(result) == derivation_outcome(input@),
{
    let input = match parse_tag(input, "Derive(") {
        Ok(input) => input,
        Err(error) => {
            return Err(error);
        },
    };
    let (input, outputs) = match parse_outputs(input) {
        Ok(read) => read,
        Err(error) => {
            return Err(error);
        },
    };
    let (input, inputs) = match parse_drv_inputs_behind(input) {
        Ok(read) => read,
        Err(error) => {
            return Err(error);
        },
    };
    let (input, _path_inputs) = match parse_strings_behind(input) {
        Ok(read) => read,
        Err(error) => {
            return Err(error);
        },
    };
    let (input, _system) = match parse_string_behind(input, ',') {
        Ok(read) => read,
        Err(error) => {
            return Err(error);
        },
    };
    let (input, _builder) = match parse_string_behind(input, ',') {
        Ok(read) => read,
        Err(error) => {
            return Err(error);
        },
    };
    let (input, _builder_args) = match parse_strings_behind(input) {
        Ok(read) => read,
        Err(error) => {
            return Err(error);
        },
    };
    let (input, env) = match parse_envs_behind(input) {
        Ok(read) => read,
        Err(error) => {
            return Err(error);
        },
    };
    match parse_tag(input, ")") {
        Ok(rest) => Ok((rest, ParseDerivationResult { outputs, inputs, env })),
        Err(error) => Err(error),
    }
}

} // verus!
