//! Which texts the grammar of derivation files takes, what they mean, and where and how it refuses
//! all others.

use crate::aterm;
use crate::aterm::{DerivationText, ErrorKind, Failure, Outcome};
use crate::aterm_fields;
use crate::aterm_fields::{DerivationFields, OutputFields};
use crate::aterm_laws;
use crate::text;
use vstd::prelude::*;

verus! {

/// A piece of a string: the text that stands for one character of its value.
pub struct Piece {
    pub text: Seq<char>,
    pub value: char,
}

/// Whether a piece is a character that stands for itself, or one of the five escapes.
pub open spec fn is_piece(piece: Piece) -> bool {
    ||| piece.text == seq![piece.value] && piece.value != '"' && piece.value != '\\'
    ||| piece.text == seq!['\\', '"'] && piece.value == '"'
    ||| piece.text == seq!['\\', '\\'] && piece.value == '\\'
    ||| piece.text == seq!['\\', 'n'] && piece.value == '\n'
    ||| piece.text == seq!['\\', 'r'] && piece.value == '\r'
    ||| piece.text == seq!['\\', 't'] && piece.value == '\t'
}

/// Whether all are pieces.
pub open spec fn are_pieces(pieces: Seq<Piece>) -> bool {
    forall|i: int| 0 <= i < pieces.len() ==> is_piece(#[trigger] pieces[i])
}

/// The texts of pieces in a row, with `rest` behind them.
pub open spec fn pieces_text(pieces: Seq<Piece>, rest: Seq<char>) -> Seq<char>
    decreases pieces.len(),
{
    if pieces.len() == 0 {
        rest
    } else {
        pieces[0].text + pieces_text(pieces.drop_first(), rest)
    }
}

/// The characters for which pieces stand.
pub open spec fn pieces_value(pieces: Seq<Piece>) -> Seq<char> {
    pieces.map_values(|piece: Piece| piece.value)
}

proof fn lemma_pieces(pieces: Seq<Piece>, rest: Seq<char>)
    requires
        are_pieces(pieces),
    ensures
        aterm::body_of(pieces_text(pieces, rest)) == aterm::prefixed(
            pieces_value(pieces),
            aterm::body_of(rest),
        ),
    decreases pieces.len(),
{
    if pieces.len() == 0 {
        assert(pieces_value(pieces) =~= Seq::<char>::empty());
        if let aterm::Body::Closed { value, rest } = aterm::body_of(rest) {
            assert(Seq::<char>::empty() + value =~= value);
        }
    } else {
        let tail = pieces.drop_first();
        let first = pieces[0];
        assert(is_piece(first));
        assert forall|i: int| 0 <= i < tail.len() implies is_piece(#[trigger] tail[i]) by {
            assert(is_piece(pieces[i + 1]));
        }
        lemma_pieces(tail, rest);
        let more = pieces_text(tail, rest);
        let s = first.text + more;
        assert(seq![first.value] + pieces_value(tail) =~= pieces_value(pieces));
        if first.text.len() == 2 {
            assert(s[0] == '\\' && s[1] == first.text[1]);
            assert(s.skip(2) =~= more);
        } else {
            assert(s[0] == first.value);
            assert(s.drop_first() =~= more);
        }
        if let aterm::Body::Closed { value, rest } = aterm::body_of(rest) {
            assert(seq![first.value] + (pieces_value(tail) + value) =~= pieces_value(pieces)
                + value);
        }
    }
}

/// Pieces between quotes are read as a string: the characters for which the pieces stand.
pub proof fn law_pieces_are_read(pieces: Seq<Piece>, rest: Seq<char>)
    requires
        are_pieces(pieces),
    ensures
        aterm::string_outcome(seq!['"'] + pieces_text(pieces, seq!['"'] + rest)) == Ok::<
            (Seq<char>, Seq<char>),
            Failure,
        >((rest, pieces_value(pieces))),
{
    let behind = seq!['"'] + rest;
    let s = seq!['"'] + pieces_text(pieces, behind);
    assert(s.drop_first() =~= pieces_text(pieces, behind));
    lemma_pieces(pieces, behind);
    assert(behind.drop_first() =~= rest);
    assert(pieces_value(pieces) + Seq::<char>::empty() =~= pieces_value(pieces));
}

/// A string that is not closed is refused for the end of the text, right behind its opening quote,
/// also where the text ends in the middle of an escape.
pub proof fn law_unclosed_strings_are_refused(pieces: Seq<Piece>, in_escape: bool)
    requires
        are_pieces(pieces),
    ensures
        ({
            let body = pieces_text(
                pieces,
                if in_escape {
                    seq!['\\']
                } else {
                    Seq::empty()
                },
            );
            aterm::string_outcome(seq!['"'] + body) == Err::<(Seq<char>, Seq<char>), Failure>(
                Failure { at: body, code: ErrorKind::Eof },
            )
        }),
{
    let end = if in_escape {
        seq!['\\']
    } else {
        Seq::empty()
    };
    let body = pieces_text(pieces, end);
    let s = seq!['"'] + body;
    assert(s.drop_first() =~= body);
    lemma_pieces(pieces, end);
}

/// A backslash before any other character than the five that it can escape is refused, right
/// behind the opening quote of the string.
pub proof fn law_other_escapes_are_refused(pieces: Seq<Piece>, c: char, rest: Seq<char>)
    requires
        are_pieces(pieces),
        c != '"' && c != '\\' && c != 'n' && c != 'r' && c != 't',
    ensures
        ({
            let body = pieces_text(pieces, seq!['\\', c] + rest);
            aterm::string_outcome(seq!['"'] + body) == Err::<(Seq<char>, Seq<char>), Failure>(
                Failure { at: body, code: ErrorKind::Char },
            )
        }),
{
    let end = seq!['\\', c] + rest;
    let body = pieces_text(pieces, end);
    let s = seq!['"'] + body;
    assert(s.drop_first() =~= body);
    lemma_pieces(pieces, end);
    assert(end[0] == '\\' && end[1] == c);
}

/// What does not begin with a quote is no string.
pub proof fn law_strings_begin_with_a_quote(s: Seq<char>)
    requires
        s.len() == 0 || s[0] != '"',
    ensures
        aterm::string_outcome(s) == Err::<(Seq<char>, Seq<char>), Failure>(
            Failure { at: s, code: ErrorKind::Char },
        ),
{
}

proof fn lemma_one_piece_more(first: Piece, more: Seq<Piece>, end: Seq<char>)
    requires
        is_piece(first),
        are_pieces(more),
    ensures
        are_pieces(seq![first] + more),
        pieces_text(seq![first] + more, end) == first.text + pieces_text(more, end),
{
    let pieces = seq![first] + more;
    assert(pieces.drop_first() =~= more);
    assert forall|i: int| 0 <= i < pieces.len() implies is_piece(#[trigger] pieces[i]) by {
        if i > 0 {
            assert(is_piece(more[i - 1]));
        }
    }
}

/// Every text behind a quote is pieces and then a closing quote, the end of the text, a lone
/// backslash at the end, or an escape that is none of the five.
pub proof fn law_every_text_is_pieces(s: Seq<char>) -> (parts: (Seq<Piece>, Seq<char>))
    ensures
        are_pieces(parts.0),
        s == pieces_text(parts.0, parts.1),
        parts.1.len() == 0 || parts.1[0] == '"' || (parts.1[0] == '\\' && (parts.1.len() == 1 || (
        parts.1[1] != '"' && parts.1[1] != '\\' && parts.1[1] != 'n' && parts.1[1] != 'r'
            && parts.1[1] != 't'))),
    decreases s.len(),
{
    let none = Seq::<Piece>::empty();
    if s.len() == 0 || s[0] == '"' {
        (none, s)
    } else if s[0] == '\\' {
        if s.len() > 1 && (s[1] == '"' || s[1] == '\\' || s[1] == 'n' || s[1] == 'r' || s[1]
            == 't') {
            let value = if s[1] == '"' {
                '"'
            } else if s[1] == '\\' {
                '\\'
            } else if s[1] == 'n' {
                '\n'
            } else if s[1] == 'r' {
                '\r'
            } else {
                '\t'
            };
            let first = Piece { text: seq!['\\', s[1]], value };
            let (more, end) = law_every_text_is_pieces(s.skip(2));
            lemma_one_piece_more(first, more, end);
            assert(s =~= first.text + s.skip(2));
            (seq![first] + more, end)
        } else {
            (none, s)
        }
    } else {
        let first = Piece { text: seq![s[0]], value: s[0] };
        let (more, end) = law_every_text_is_pieces(s.drop_first());
        lemma_one_piece_more(first, more, end);
        assert(s =~= first.text + s.drop_first());
        (seq![first] + more, end)
    }
}

/// An item of a list as a text, and whether a comma stands behind it.
pub struct ItemText {
    pub text: Seq<char>,
    pub comma: bool,
}

/// Whether a grammar reads all of each item, and none begins with a comma.
pub open spec fn are_items<T>(item: spec_fn(Seq<char>) -> Outcome<T>, items: Seq<ItemText>) -> bool {
    forall|i: int|
        0 <= i < items.len() ==> aterm_fields::reads_all(item, (#[trigger] items[i]).text)
            && items[i].text.len() > 0 && items[i].text[0] != ','
}

/// Items in a row, with `rest` behind them.
pub open spec fn items_text(items: Seq<ItemText>, rest: Seq<char>) -> Seq<char>
    decreases items.len(),
{
    if items.len() == 0 {
        rest
    } else {
        let more = items_text(items.drop_first(), rest);
        items[0].text + if items[0].comma {
            seq![','] + more
        } else {
            more
        }
    }
}

/// What is read in items.
pub open spec fn items_value<T>(
    item: spec_fn(Seq<char>) -> Outcome<T>,
    items: Seq<ItemText>,
) -> Seq<T> {
    items.map_values(|one: ItemText| aterm_fields::value_of(item, one.text))
}

proof fn lemma_items<T>(
    item: spec_fn(Seq<char>) -> Outcome<T>,
    items: Seq<ItemText>,
    rest: Seq<char>,
)
    requires
        aterm_laws::steady(item),
        are_items(item, items),
        rest.len() == 0 || rest[0] != ',',
        item(rest) is Err,
    ensures
        aterm::items_outcome(item, items_text(items, rest)) == Ok::<
            (Seq<char>, Seq<T>),
            Failure,
        >((rest, items_value(item, items))),
        items.len() > 0 ==> items_text(items, rest)[0] != ',' && items_text(items, rest).len() > 0,
    decreases items.len(),
{
    if items.len() == 0 {
        assert(items_value(item, items) =~= Seq::<T>::empty());
    } else {
        let tail = items.drop_first();
        let first = items[0];
        assert(aterm_fields::reads_all(item, first.text));
        assert forall|i: int| 0 <= i < tail.len() implies aterm_fields::reads_all(
            item,
            (#[trigger] tail[i]).text,
        ) && tail[i].text.len() > 0 && tail[i].text[0] != ',' by {
            assert(aterm_fields::reads_all(item, items[i + 1].text));
        }
        lemma_items(item, tail, rest);
        let more = items_text(tail, rest);
        let behind = if first.comma {
            seq![','] + more
        } else {
            more
        };
        let s = first.text + behind;
        assert(item(s) == Ok::<(Seq<char>, T), Failure>(
            (behind, aterm_fields::value_of(item, first.text)),
        )) by {
            reveal(aterm_laws::steady);
            let none = item(first.text)->Ok_0.0;
            assert(item(first.text + behind) == Ok::<(Seq<char>, T), Failure>(
                (none + behind, aterm_fields::value_of(item, first.text)),
            ));
            assert(none + behind =~= behind);
        }
        if first.comma {
            assert(behind.drop_first() =~= more);
            text::lemma_size_drop_first(behind);
        }
        assert(aterm::skip_comma(behind) == more);
        assert(s.skip(first.text.len() as int) =~= behind);
        text::lemma_size_skip(s, first.text.len() as int);
        assert(seq![aterm_fields::value_of(item, first.text)] + items_value(item, tail)
            =~= items_value(item, items));
    }
}

/// Items in brackets are read as a list, in their order, whichever of them have a comma behind
/// them.
pub proof fn law_items_are_read<T>(
    item: spec_fn(Seq<char>) -> Outcome<T>,
    items: Seq<ItemText>,
    rest: Seq<char>,
)
    requires
        aterm_laws::steady(item),
        are_items(item, items),
    ensures
        aterm::list_outcome(item, seq!['['] + items_text(items, seq![']'] + rest)) == Ok::<
            (Seq<char>, Seq<T>),
            Failure,
        >((rest, items_value(item, items))),
{
    let end = seq![']'] + rest;
    let s = seq!['['] + items_text(items, end);
    assert(s.drop_first() =~= items_text(items, end));
    assert(item(end) is Err) by {
        reveal(aterm_laws::steady);
        assert(end[0] == ']');
    }
    lemma_items(item, items, end);
    assert(end.drop_first() =~= rest);
}

/// A list that goes on with neither an item nor the closing bracket is refused there.
pub proof fn law_lists_must_be_closed<T>(
    item: spec_fn(Seq<char>) -> Outcome<T>,
    items: Seq<ItemText>,
    rest: Seq<char>,
)
    requires
        aterm_laws::steady(item),
        are_items(item, items),
        item(rest) is Err,
        rest.len() == 0 || (rest[0] != ',' && rest[0] != ']'),
    ensures
        aterm::list_outcome(item, seq!['['] + items_text(items, rest)) == Err::<
            (Seq<char>, Seq<T>),
            Failure,
        >(Failure { at: rest, code: ErrorKind::Char }),
{
    let s = seq!['['] + items_text(items, rest);
    assert(s.drop_first() =~= items_text(items, rest));
    lemma_items(item, items, rest);
}

/// What does not begin with a bracket is no list.
pub proof fn law_lists_begin_with_a_bracket<T>(
    item: spec_fn(Seq<char>) -> Outcome<T>,
    s: Seq<char>,
)
    requires
        s.len() == 0 || s[0] != '[',
    ensures
        aterm::list_outcome(item, s) == Err::<(Seq<char>, Seq<T>), Failure>(
            Failure { at: s, code: ErrorKind::Char },
        ),
{
}

/// Whether no item begins with a comma and every item takes some text.
pub open spec fn is_plain<T>(item: spec_fn(Seq<char>) -> Outcome<T>) -> bool {
    forall|s: Seq<char>| (#[trigger] item(s)) is Ok ==> s.len() > 0 && s[0] != ','
}

proof fn lemma_items_have_texts<T>(item: spec_fn(Seq<char>) -> Outcome<T>, s: Seq<char>) -> (items:
    Seq<ItemText>)
    requires
        aterm_fields::tight(item),
        is_plain(item),
        aterm::items_outcome(item, s) is Ok,
    ensures
        are_items(item, items),
        s == items_text(items, aterm::items_outcome(item, s)->Ok_0.0),
        aterm::items_outcome(item, s)->Ok_0.1 == items_value(item, items),
    decreases text::size(s),
{
    match item(s) {
        Err(_) => {
            let items = Seq::<ItemText>::empty();
            assert(items_value(item, items) =~= Seq::<T>::empty());
            items
        },
        Ok((behind, value)) => {
            let next = aterm::skip_comma(behind);
            aterm_fields::lemma_char_is_tight(behind, ',');
            let field = aterm_fields::lemma_field(item, s);
            let first = ItemText { text: field, comma: aterm::char_outcome(behind, ',') is Ok };
            let more = lemma_items_have_texts(item, next);
            let items = seq![first] + more;
            assert(items.drop_first() =~= more);
            assert(item(field) is Ok);
            assert(aterm_fields::value_of(item, field) == value) by {
                reveal(aterm_fields::tight);
                assert(item(field + behind) == item(s));
                assert(aterm_fields::front(behind, behind) =~= Seq::<char>::empty());
            }
            assert(seq![value] + items_value(item, more) =~= items_value(item, items));
            assert forall|i: int| 0 <= i < items.len() implies aterm_fields::reads_all(
                item,
                (#[trigger] items[i]).text,
            ) && items[i].text.len() > 0 && items[i].text[0] != ',' by {
                if i > 0 {
                    assert(aterm_fields::reads_all(item, more[i - 1].text));
                }
            }
            items
        },
    }
}

proof fn lemma_items_of_derivations_are_plain()
    ensures
        is_plain(aterm::string_grammar()),
        is_plain(aterm::output_grammar()),
        is_plain(aterm::drv_input_grammar()),
        is_plain(aterm::env_grammar()),
{
}

/// Every list of strings that is read is items in brackets, each with or without a comma behind
/// it.
pub proof fn law_every_list_of_strings_is_items(s: Seq<char>) -> (parts: (Seq<ItemText>, Seq<char>))
    requires
        aterm::strings_outcome(s) is Ok,
    ensures
        are_items(aterm::string_grammar(), parts.0),
        s == seq!['['] + items_text(parts.0, seq![']'] + parts.1),
        aterm::strings_outcome(s) == Ok::<(Seq<char>, Seq<Seq<char>>), Failure>(
            (parts.1, items_value(aterm::string_grammar(), parts.0)),
        ),
{
    aterm_fields::lemma_string_is_tight();
    lemma_items_of_derivations_are_plain();
    lemma_list_has_texts(aterm::string_grammar(), s)
}

proof fn lemma_list_has_texts<T>(item: spec_fn(Seq<char>) -> Outcome<T>, s: Seq<char>) -> (parts: (
    Seq<ItemText>,
    Seq<char>,
))
    requires
        aterm_fields::tight(item),
        is_plain(item),
        aterm::list_outcome(item, s) is Ok,
    ensures
        are_items(item, parts.0),
        s == seq!['['] + items_text(parts.0, seq![']'] + parts.1),
        aterm::list_outcome(item, s) == Ok::<(Seq<char>, Seq<T>), Failure>(
            (parts.1, items_value(item, parts.0)),
        ),
{
    aterm_fields::lemma_char_is_tight(s, '[');
    let inside = aterm::char_outcome(s, '[')->Ok_0;
    let items = lemma_items_have_texts(item, inside);
    let end = aterm::items_outcome(item, inside)->Ok_0.0;
    aterm_fields::lemma_char_is_tight(end, ']');
    (items, end.drop_first())
}

/// Every list of inputs that is read is items in brackets.
pub proof fn law_every_list_of_inputs_is_items(s: Seq<char>) -> (parts: (Seq<ItemText>, Seq<char>))
    requires
        aterm::list_outcome(aterm::drv_input_grammar(), s) is Ok,
    ensures
        are_items(aterm::drv_input_grammar(), parts.0),
        s == seq!['['] + items_text(parts.0, seq![']'] + parts.1),
        aterm::list_outcome(aterm::drv_input_grammar(), s) == Ok::<
            (Seq<char>, Seq<(Seq<char>, Seq<Seq<char>>)>),
            Failure,
        >((parts.1, items_value(aterm::drv_input_grammar(), parts.0))),
{
    aterm_fields::lemma_drv_input_is_tight();
    lemma_items_of_derivations_are_plain();
    lemma_list_has_texts(aterm::drv_input_grammar(), s)
}

/// Every list of variables that is read is items in brackets.
pub proof fn law_every_list_of_variables_is_items(s: Seq<char>) -> (parts: (
    Seq<ItemText>,
    Seq<char>,
))
    requires
        aterm::list_outcome(aterm::env_grammar(), s) is Ok,
    ensures
        are_items(aterm::env_grammar(), parts.0),
        s == seq!['['] + items_text(parts.0, seq![']'] + parts.1),
        aterm::list_outcome(aterm::env_grammar(), s) == Ok::<
            (Seq<char>, Seq<(Seq<char>, Seq<char>)>),
            Failure,
        >((parts.1, items_value(aterm::env_grammar(), parts.0))),
{
    aterm_fields::lemma_env_is_tight();
    lemma_items_of_derivations_are_plain();
    lemma_list_has_texts(aterm::env_grammar(), s)
}

/// A string and a list of strings in parentheses are read as an input: its path and the names of
/// its outputs.
pub proof fn law_inputs_are_read(path: Seq<char>, names: Seq<char>, rest: Seq<char>)
    requires
        aterm_fields::reads_all(aterm::string_grammar(), path),
        aterm_fields::reads_all(aterm_fields::list_grammar(aterm::string_grammar()), names),
    ensures
        aterm::drv_input_outcome(
            seq!['('] + (path + (seq![','] + (names + (seq![')'] + rest)))),
        ) == Ok::<(Seq<char>, (Seq<char>, Seq<Seq<char>>)), Failure>(
            (
                rest,
                (
                    aterm::string_outcome(path)->Ok_0.1,
                    aterm::list_outcome(aterm::string_grammar(), names)->Ok_0.1,
                ),
            ),
        ),
{
    aterm_laws::lemma_items_of_derivations_are_steady();
    let s2 = seq![')'] + rest;
    let s1 = seq![','] + (names + s2);
    aterm_fields::lemma_string_field('(', path, s1);
    aterm_fields::lemma_list_field(aterm::string_grammar(), names, s2);
    assert(s2.drop_first() =~= rest);
}

/// Every input that is read is a string and a list of strings in parentheses.
pub proof fn law_every_input_is_a_path_and_names(s: Seq<char>) -> (parts: (
    Seq<char>,
    Seq<char>,
    Seq<char>,
))
    requires
        aterm::drv_input_outcome(s) is Ok,
    ensures
        aterm_fields::reads_all(aterm::string_grammar(), parts.0),
        aterm_fields::reads_all(aterm_fields::list_grammar(aterm::string_grammar()), parts.1),
        s == seq!['('] + (parts.0 + (seq![','] + (parts.1 + (seq![')'] + parts.2)))),
        aterm::drv_input_outcome(s)->Ok_0.0 == parts.2,
{
    aterm_fields::lemma_string_is_tight();
    aterm_fields::lemma_items_of_derivations_are_tight();
    let path = aterm_fields::lemma_field_behind(aterm::string_grammar(), s, '(');
    let s1 = aterm::string_behind(s, '(')->Ok_0.0;
    let strings = aterm_fields::list_grammar(aterm::string_grammar());
    let names = aterm_fields::lemma_field_behind(strings, s1, ',');
    let s2 = strings(aterm::char_outcome(s1, ',')->Ok_0)->Ok_0.0;
    aterm_fields::lemma_char_is_tight(s2, ')');
    (path, names, s2.drop_first())
}

/// Two strings in parentheses are read as a variable: its name and its value.
pub proof fn law_variables_are_read(name: Seq<char>, value: Seq<char>, rest: Seq<char>)
    requires
        aterm_fields::reads_all(aterm::string_grammar(), name),
        aterm_fields::reads_all(aterm::string_grammar(), value),
    ensures
        aterm::env_outcome(
            seq!['('] + (name + (seq![','] + (value + (seq![')'] + rest)))),
        ) == Ok::<(Seq<char>, (Seq<char>, Seq<char>)), Failure>(
            (
                rest,
                (aterm::string_outcome(name)->Ok_0.1, aterm::string_outcome(value)->Ok_0.1),
            ),
        ),
{
    let s2 = seq![')'] + rest;
    let s1 = seq![','] + (value + s2);
    aterm_fields::lemma_string_field('(', name, s1);
    aterm_fields::lemma_string_field(',', value, s2);
    assert(s2.drop_first() =~= rest);
}

/// Every variable that is read is two strings in parentheses.
pub proof fn law_every_variable_is_a_name_and_a_value(s: Seq<char>) -> (parts: (
    Seq<char>,
    Seq<char>,
    Seq<char>,
))
    requires
        aterm::env_outcome(s) is Ok,
    ensures
        aterm_fields::reads_all(aterm::string_grammar(), parts.0),
        aterm_fields::reads_all(aterm::string_grammar(), parts.1),
        s == seq!['('] + (parts.0 + (seq![','] + (parts.1 + (seq![')'] + parts.2)))),
        aterm::env_outcome(s)->Ok_0.0 == parts.2,
{
    aterm_fields::lemma_string_is_tight();
    let name = aterm_fields::lemma_field_behind(aterm::string_grammar(), s, '(');
    let s1 = aterm::string_behind(s, '(')->Ok_0.0;
    let value = aterm_fields::lemma_field_behind(aterm::string_grammar(), s1, ',');
    let s2 = aterm::string_behind(s1, ',')->Ok_0.0;
    aterm_fields::lemma_char_is_tight(s2, ')');
    (name, value, s2.drop_first())
}

/// The first `n` fields of a derivation file, counting its first word, with `t` behind them.
pub open spec fn front_text(fields: DerivationFields, n: nat, t: Seq<char>) -> Seq<char> {
    let s7 = if n > 7 {
        seq![','] + (fields.env + t)
    } else {
        t
    };
    let s6 = if n > 6 {
        seq![','] + (fields.builder_args + s7)
    } else {
        t
    };
    let s5 = if n > 5 {
        seq![','] + (fields.builder + s6)
    } else {
        t
    };
    let s4 = if n > 4 {
        seq![','] + (fields.system + s5)
    } else {
        t
    };
    let s3 = if n > 3 {
        seq![','] + (fields.path_inputs + s4)
    } else {
        t
    };
    let s2 = if n > 2 {
        seq![','] + (fields.inputs + s3)
    } else {
        t
    };
    let s1 = if n > 1 {
        seq!['['] + aterm_fields::outputs_text(fields.outputs, s2)
    } else {
        t
    };
    if n > 0 {
        "Derive("@ + s1
    } else {
        t
    }
}

/// What is wrong with a text in the place of field `n`, if anything is.
pub open spec fn field_failure(n: nat, t: Seq<char>) -> Option<Failure> {
    if n == 0 {
        match aterm::tag_outcome(t, "Derive("@) {
            Err(failure) => Some(failure),
            Ok(_) => None,
        }
    } else if n == 1 {
        match aterm::list_outcome(aterm::output_grammar(), t) {
            Err(failure) => Some(failure),
            Ok(_) => None,
        }
    } else if n == 2 {
        match aterm::list_behind(aterm::drv_input_grammar(), t) {
            Err(failure) => Some(failure),
            Ok(_) => None,
        }
    } else if n == 3 || n == 6 {
        match aterm::list_behind(aterm::string_grammar(), t) {
            Err(failure) => Some(failure),
            Ok(_) => None,
        }
    } else if n == 4 || n == 5 {
        match aterm::string_behind(t, ',') {
            Err(failure) => Some(failure),
            Ok(_) => None,
        }
    } else if n == 7 {
        match aterm::list_behind(aterm::env_grammar(), t) {
            Err(failure) => Some(failure),
            Ok(_) => None,
        }
    } else {
        match aterm::tag_outcome(t, ")"@) {
            Err(failure) => Some(failure),
            Ok(_) => None,
        }
    }
}

/// A derivation file is refused for the first thing that is wrong in it: whatever comes in front
/// of it, and whatever comes behind.
#[verifier::rlimit(60)]
#[verifier::spinoff_prover]
pub proof fn law_first_error_is_reported(fields: DerivationFields, n: nat, t: Seq<char>)
    requires
        aterm_fields::is_derivation(fields),
        n <= 8,
        field_failure(n, t) is Some,
    ensures
        aterm::derivation_outcome(front_text(fields, n, t)) == Err::<
            (Seq<char>, DerivationText),
            Failure,
        >(field_failure(n, t)->Some_0),
{
    let s7 = if n > 7 {
        seq![','] + (fields.env + t)
    } else {
        t
    };
    let s6 = if n > 6 {
        seq![','] + (fields.builder_args + s7)
    } else {
        t
    };
    let s5 = if n > 5 {
        seq![','] + (fields.builder + s6)
    } else {
        t
    };
    let s4 = if n > 4 {
        seq![','] + (fields.system + s5)
    } else {
        t
    };
    let s3 = if n > 3 {
        seq![','] + (fields.path_inputs + s4)
    } else {
        t
    };
    let s2 = if n > 2 {
        seq![','] + (fields.inputs + s3)
    } else {
        t
    };
    let s1 = if n > 1 {
        seq!['['] + aterm_fields::outputs_text(fields.outputs, s2)
    } else {
        t
    };
    aterm_laws::lemma_items_of_derivations_are_steady();
    if n > 0 {
        let s0 = "Derive("@ + s1;
        assert("Derive("@.is_prefix_of(s0)) by {
            assert("Derive("@ =~= s0.subrange(0, "Derive("@.len() as int));
        }
        assert(s0.skip("Derive("@.len() as int) =~= s1);
    }
    if n > 1 {
        assert(s1.drop_first() =~= aterm_fields::outputs_text(fields.outputs, s2));
        aterm_fields::lemma_outputs_fields(fields.outputs, s2);
        assert((seq![']'] + s2).drop_first() =~= s2);
    }
    if n > 2 {
        aterm_fields::lemma_list_field(aterm::drv_input_grammar(), fields.inputs, s3);
    }
    if n > 3 {
        aterm_fields::lemma_list_field(aterm::string_grammar(), fields.path_inputs, s4);
    }
    if n > 4 {
        aterm_fields::lemma_string_field(',', fields.system, s5);
    }
    if n > 5 {
        aterm_fields::lemma_string_field(',', fields.builder, s6);
    }
    if n > 6 {
        aterm_fields::lemma_list_field(aterm::string_grammar(), fields.builder_args, s7);
    }
    if n > 7 {
        aterm_fields::lemma_list_field(aterm::env_grammar(), fields.env, t);
    }
}

/// A derivation file that does not begin with its word, or does not end with a parenthesis, is
/// refused there; between fields there must be a comma.
pub proof fn law_marks_of_a_derivation_are_needed(n: nat, t: Seq<char>)
    requires
        n <= 8,
    ensures
        n == 0 && !"Derive("@.is_prefix_of(t) ==> field_failure(n, t) == Some(
            Failure { at: t, code: ErrorKind::Tag },
        ),
        n == 8 && !")"@.is_prefix_of(t) ==> field_failure(n, t) == Some(
            Failure { at: t, code: ErrorKind::Tag },
        ),
        2 <= n < 8 && (t.len() == 0 || t[0] != ',') ==> field_failure(n, t) == Some(
            Failure { at: t, code: ErrorKind::Char },
        ),
        n == 1 && (t.len() == 0 || t[0] != '[') ==> field_failure(n, t) == Some(
            Failure { at: t, code: ErrorKind::Char },
        ),
{
}

/// A list whose items could take no text is refused where that happens.
pub proof fn law_items_must_take_text<T>(item: spec_fn(Seq<char>) -> Outcome<T>, s: Seq<char>)
    requires
        item(s) matches Ok((rest, _)) && rest == s,
        s.len() == 0 || s[0] != ',',
    ensures
        aterm::list_outcome(item, seq!['['] + s) == Err::<(Seq<char>, Seq<T>), Failure>(
            Failure { at: s, code: ErrorKind::Many0 },
        ),
{
    assert((seq!['['] + s).drop_first() =~= s);
}

/// The first `n` fields of an output with `t` behind them.
pub open spec fn output_front(output: OutputFields, n: nat, t: Seq<char>) -> Seq<char> {
    let s3 = if n > 3 {
        seq![','] + (output.hash + t)
    } else {
        t
    };
    let s2 = if n > 2 {
        seq![','] + (output.hash_algo + s3)
    } else {
        t
    };
    let s1 = if n > 1 {
        seq![','] + (output.path + s2)
    } else {
        t
    };
    if n > 0 {
        seq!['('] + (output.name + s1)
    } else {
        t
    }
}

/// An output is refused for the first thing that is wrong in it.
pub proof fn law_first_error_of_an_output_is_reported(output: OutputFields, n: nat, t: Seq<char>)
    requires
        aterm_fields::is_output(output),
    ensures
        n == 0 ==> (aterm::string_behind(t, '(') matches Err(failure) ==> aterm::output_outcome(
            output_front(output, n, t),
        ) == Err::<(Seq<char>, (Seq<char>, Seq<char>)), Failure>(failure)),
        0 < n < 4 ==> (aterm::string_behind(t, ',') matches Err(failure) ==> aterm::output_outcome(
            output_front(output, n, t),
        ) == Err::<(Seq<char>, (Seq<char>, Seq<char>)), Failure>(failure)),
        n == 4 && (t.len() == 0 || t[0] != ')') ==> aterm::output_outcome(
            output_front(output, n, t),
        ) == Err::<(Seq<char>, (Seq<char>, Seq<char>)), Failure>(
            Failure { at: t, code: ErrorKind::Char },
        ),
{
    let s3 = if n > 3 {
        seq![','] + (output.hash + t)
    } else {
        t
    };
    let s2 = if n > 2 {
        seq![','] + (output.hash_algo + s3)
    } else {
        t
    };
    let s1 = if n > 1 {
        seq![','] + (output.path + s2)
    } else {
        t
    };
    aterm_fields::lemma_string_field('(', output.name, s1);
    aterm_fields::lemma_string_field(',', output.path, s2);
    aterm_fields::lemma_string_field(',', output.hash_algo, s3);
    aterm_fields::lemma_string_field(',', output.hash, t);
}

/// An input is refused for the first thing that is wrong in it.
pub proof fn law_first_error_of_an_input_is_reported(
    path: Seq<char>,
    names: Seq<char>,
    t: Seq<char>,
)
    requires
        aterm_fields::reads_all(aterm::string_grammar(), path),
        aterm_fields::reads_all(aterm_fields::list_grammar(aterm::string_grammar()), names),
    ensures
        aterm::string_behind(t, '(') matches Err(failure) ==> aterm::drv_input_outcome(t) == Err::<
            (Seq<char>, (Seq<char>, Seq<Seq<char>>)),
            Failure,
        >(failure),
        aterm::list_behind(aterm::string_grammar(), t) matches Err(failure)
            ==> aterm::drv_input_outcome(seq!['('] + (path + t)) == Err::<
            (Seq<char>, (Seq<char>, Seq<Seq<char>>)),
            Failure,
        >(failure),
        t.len() == 0 || t[0] != ')' ==> aterm::drv_input_outcome(
            seq!['('] + (path + (seq![','] + (names + t))),
        ) == Err::<(Seq<char>, (Seq<char>, Seq<Seq<char>>)), Failure>(
            Failure { at: t, code: ErrorKind::Char },
        ),
{
    aterm_laws::lemma_items_of_derivations_are_steady();
    aterm_fields::lemma_string_field('(', path, t);
    aterm_fields::lemma_string_field('(', path, seq![','] + (names + t));
    aterm_fields::lemma_list_field(aterm::string_grammar(), names, t);
}

/// A variable is refused for the first thing that is wrong in it.
pub proof fn law_first_error_of_a_variable_is_reported(
    name: Seq<char>,
    value: Seq<char>,
    t: Seq<char>,
)
    requires
        aterm_fields::reads_all(aterm::string_grammar(), name),
        aterm_fields::reads_all(aterm::string_grammar(), value),
    ensures
        aterm::string_behind(t, '(') matches Err(failure) ==> aterm::env_outcome(t) == Err::<
            (Seq<char>, (Seq<char>, Seq<char>)),
            Failure,
        >(failure),
        aterm::string_behind(t, ',') matches Err(failure) ==> aterm::env_outcome(
            seq!['('] + (name + t),
        ) == Err::<(Seq<char>, (Seq<char>, Seq<char>)), Failure>(failure),
        t.len() == 0 || t[0] != ')' ==> aterm::env_outcome(
            seq!['('] + (name + (seq![','] + (value + t))),
        ) == Err::<(Seq<char>, (Seq<char>, Seq<char>)), Failure>(
            Failure { at: t, code: ErrorKind::Char },
        ),
{
    aterm_fields::lemma_string_field('(', name, t);
    aterm_fields::lemma_string_field('(', name, seq![','] + (value + t));
    aterm_fields::lemma_string_field(',', value, t);
}

} // verus!
