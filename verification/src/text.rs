//! Text: what the rest of the library needs of `str` and `String`.

use std::str::Chars;
use vstd::prelude::*;

verus! {

/// `String::push` appends one character.
pub assume_specification[ String::push ](s: &mut String, c: char)
    ensures
        final(s)@ == old(s)@.push(c),
;

/// `Chars::as_str` is the part of the text that the iterator has not handed out yet.
pub assume_specification<'a>[ Chars::<'a>::as_str ](chars: &Chars<'a>) -> (rest: &'a str)
    ensures
        rest@ == vstd::std_specs::iter::IteratorSpec::remaining(chars),
;

/// The number of bytes that a text takes in UTF-8.
pub open spec fn size(s: Seq<char>) -> nat {
    vstd::utf8::encode_utf8(s).len()
}

/// Every character takes at least one byte.
pub proof fn lemma_size_drop_first(s: Seq<char>)
    requires
        s.len() > 0,
    ensures
        size(s.drop_first()) < size(s),
{
}

/// Dropping characters from the front never makes a text longer.
pub proof fn lemma_size_skip(s: Seq<char>, n: int)
    requires
        0 <= n <= s.len(),
    ensures
        size(s.skip(n)) <= size(s),
        n > 0 ==> size(s.skip(n)) < size(s),
    decreases n,
{
    if n > 0 {
        lemma_size_drop_first(s);
        lemma_size_skip(s.drop_first(), n - 1);
        assert(s.drop_first().skip(n - 1) =~= s.skip(n));
    } else {
        assert(s.skip(0) =~= s);
    }
}

/// The size of two texts in a row is the sum of their sizes.
pub proof fn lemma_size_add(a: Seq<char>, b: Seq<char>)
    ensures
        size(a + b) == size(a) + size(b),
    decreases a.len(),
{
    if a.len() == 0 {
        assert(a + b =~= b);
    } else {
        assert((a + b).drop_first() =~= a.drop_first() + b);
        lemma_size_add(a.drop_first(), b);
    }
}

/// The size of a text in bytes.
pub fn byte_len(s: &str) -> (n: usize)
    ensures
        n == size(s@),
{
    s.as_bytes().len()
}

/// Whether two texts hold the same characters.
pub fn same_text(a: &str, b: &str) -> (same: bool)
    ensures
        same == (a@ == b@),
{
    let mut left = a.chars();
    let mut right = b.chars();
    let ghost mut done: int = 0;
    proof {
        assert(a@.skip(0) =~= a@);
        assert(b@.skip(0) =~= b@);
    }
    loop
        invariant
            0 <= done <= a@.len(),
            done <= b@.len(),
            vstd::std_specs::iter::IteratorSpec::remaining(&left) == a@.skip(done),
            vstd::std_specs::iter::IteratorSpec::remaining(&right) == b@.skip(done),
            a@.take(done) == b@.take(done),
        decreases a@.len() - done,
    {
        let x = left.next();
        let y = right.next();
        match (x, y) {
            (None, None) => {
                assert(a@ =~= a@.take(done));
                assert(b@ =~= b@.take(done));
                return true;
            },
            (Some(c), Some(d)) => {
                if c != d {
                    assert(a@.skip(done)[0] == a@[done]);
                    assert(b@.skip(done)[0] == b@[done]);
                    return false;
                }
                proof {
                    assert(a@.skip(done)[0] == a@[done]);
                    assert(b@.skip(done)[0] == b@[done]);
                    assert(a@.skip(done).drop_first() =~= a@.skip(done + 1));
                    assert(b@.skip(done).drop_first() =~= b@.skip(done + 1));
                    assert(a@.take(done + 1) =~= a@.take(done).push(a@[done]));
                    assert(b@.take(done + 1) =~= b@.take(done).push(b@[done]));
                    done = done + 1;
                }
            },
            _ => {
                assert(a@.len() != b@.len());
                return false;
            },
        }
    }
}

/// The order of texts: the first byte in which two differ decides, and a text comes before
/// every longer one that starts with it.
pub open spec fn bytes_precede(a: Seq<u8>, b: Seq<u8>) -> bool {
    exists|k: int| #[trigger] differ_first_at(a, b, k)
}

/// `a` and `b` agree on their first `k` bytes, and there `a` ends or has the smaller byte.
pub open spec fn differ_first_at(a: Seq<u8>, b: Seq<u8>, k: int) -> bool {
    &&& 0 <= k <= a.len()
    &&& k < b.len()
    &&& forall|i: int| 0 <= i < k ==> a[i] == b[i]
    &&& k < a.len() ==> a[k] < b[k]
}

/// The order of texts by their bytes in UTF-8.
pub open spec fn text_precedes(a: Seq<char>, b: Seq<char>) -> bool {
    bytes_precede(vstd::utf8::encode_utf8(a), vstd::utf8::encode_utf8(b))
}

/// No text comes before itself.
pub proof fn lemma_precedes_irreflexive(a: Seq<char>)
    ensures
        !text_precedes(a, a),
{
}

/// The order of texts is transitive.
pub proof fn lemma_precedes_transitive(a: Seq<char>, b: Seq<char>, c: Seq<char>)
    requires
        text_precedes(a, b),
        text_precedes(b, c),
    ensures
        text_precedes(a, c),
{
    let (x, y, z) = (vstd::utf8::encode_utf8(a), vstd::utf8::encode_utf8(b), vstd::utf8::encode_utf8(c));
    let k = choose|k: int| differ_first_at(x, y, k);
    let l = choose|l: int| differ_first_at(y, z, l);
    let m = if k <= l { k } else { l };
    assert(differ_first_at(x, z, m));
}

/// Of two different texts one comes before the other.
pub proof fn lemma_precedes_total(a: Seq<char>, b: Seq<char>)
    ensures
        a == b || text_precedes(a, b) || text_precedes(b, a),
{
    let (x, y) = (vstd::utf8::encode_utf8(a), vstd::utf8::encode_utf8(b));
    lemma_bytes_total(x, y, 0);
    if x == y {
        vstd::utf8::encode_utf8_decode_utf8(a);
        vstd::utf8::encode_utf8_decode_utf8(b);
    }
}

proof fn lemma_bytes_total(x: Seq<u8>, y: Seq<u8>, k: int)
    requires
        0 <= k <= x.len(),
        k <= y.len(),
        forall|i: int| 0 <= i < k ==> x[i] == y[i],
    ensures
        x == y || bytes_precede(x, y) || bytes_precede(y, x),
    decreases x.len() - k,
{
    if k < x.len() && k < y.len() {
        if x[k] == y[k] {
            lemma_bytes_total(x, y, k + 1);
        } else if x[k] < y[k] {
            assert(differ_first_at(x, y, k));
        } else {
            assert(differ_first_at(y, x, k));
        }
    } else if k < y.len() {
        assert(differ_first_at(x, y, k));
    } else if k < x.len() {
        assert(differ_first_at(y, x, k));
    } else {
        assert(x =~= y);
    }
}

/// Whether `a` comes before `b` in the order of texts.
pub fn precedes(a: &str, b: &str) -> (before: bool)
    ensures
        before == text_precedes(a@, b@),
{
    let x = a.as_bytes();
    let y = b.as_bytes();
    let mut k: usize = 0;
    while k < x.len() && k < y.len() && x[k] == y[k]
        invariant
            k <= x.len(),
            k <= y.len(),
            forall|i: int| 0 <= i < k ==> x@[i] == y@[i],
        decreases x.len() - k,
    {
        k = k + 1;
    }
    let before = k < y.len() && (k == x.len() || x[k] < y[k]);
    proof {
        if before {
            assert(differ_first_at(x@, y@, k as int));
        } else if bytes_precede(x@, y@) {
            let l = choose|l: int| differ_first_at(x@, y@, l);
            assert(l >= k) by {
                if l < k {
                    assert(x@[l] == y@[l]);
                }
            }
            assert(l <= k) by {
                if k < l {
                    assert(x@[k as int] == y@[k as int]);
                }
            }
        }
    }
    before
}

/// Whether bytes `from` to `to` of a text can be cut out of it: the range lies inside the text
/// and cuts no character in two.
pub open spec fn cuts_cleanly(s: Seq<char>, from: int, to: int) -> bool {
    &&& 0 <= from <= to <= size(s)
    &&& vstd::utf8::is_char_boundary(vstd::utf8::encode_utf8(s), from)
    &&& vstd::utf8::is_char_boundary(vstd::utf8::encode_utf8(s), to)
}

/// The characters whose bytes are bytes `from` to `to` of a text.
pub open spec fn byte_range(s: Seq<char>, from: int, to: int) -> Seq<char> {
    vstd::utf8::decode_utf8(vstd::utf8::encode_utf8(s).subrange(from, to))
}

/// Bytes `from` to `to` of a text that is cut cleanly are the bytes of `byte_range`.
pub proof fn lemma_byte_range(s: Seq<char>, from: int, to: int)
    requires
        cuts_cleanly(s, from, to),
    ensures
        vstd::utf8::encode_utf8(byte_range(s, from, to)) == vstd::utf8::encode_utf8(s).subrange(
            from,
            to,
        ),
        vstd::utf8::is_char_boundary(vstd::utf8::encode_utf8(s).subrange(0, to), from),
{
    let bytes = vstd::utf8::encode_utf8(s);
    let front = bytes.subrange(0, to);
    vstd::utf8::encode_utf8_valid_utf8(s);
    vstd::utf8::valid_utf8_split(bytes, to);
    vstd::utf8::is_char_boundary_start_end_of_seq(front);
    if from < to {
        vstd::utf8::is_char_boundary_iff_not_is_continuation_byte(bytes, from);
        vstd::utf8::is_char_boundary_iff_not_is_continuation_byte(front, from);
        assert(bytes[from] == front[from]);
    }
    vstd::utf8::valid_utf8_split(front, from);
    assert(front.subrange(from, front.len() as int) =~= bytes.subrange(from, to));
    vstd::utf8::decode_utf8_encode_utf8(bytes.subrange(from, to));
}

/// The bytes of two texts in a row are the bytes of one and then of the other, and the place
/// between them cuts no character in two.
proof fn lemma_bytes_add(a: Seq<char>, b: Seq<char>)
    ensures
        vstd::utf8::encode_utf8(a + b) == vstd::utf8::encode_utf8(a) + vstd::utf8::encode_utf8(b),
        vstd::utf8::is_char_boundary(vstd::utf8::encode_utf8(a + b), size(a) as int),
    decreases a.len(),
{
    vstd::utf8::encode_utf8_valid_utf8(a + b);
    if a.len() == 0 {
        assert(a + b =~= b);
        assert(Seq::<u8>::empty() + vstd::utf8::encode_utf8(b) =~= vstd::utf8::encode_utf8(b));
    } else {
        let rest = a.drop_first();
        let head = vstd::utf8::encode_scalar(a[0] as u32);
        assert((a + b).drop_first() =~= rest + b);
        lemma_bytes_add(rest, b);
        assert(head + (vstd::utf8::encode_utf8(rest) + vstd::utf8::encode_utf8(b)) =~= (head
            + vstd::utf8::encode_utf8(rest)) + vstd::utf8::encode_utf8(b));
        vstd::utf8::encode_utf8_first_scalar(a + b);
        let bytes = vstd::utf8::encode_utf8(a + b);
        assert(vstd::utf8::pop_first_scalar(bytes) =~= vstd::utf8::encode_utf8(rest + b));
    }
}

/// A text that stands between two others can be cut out of the three in a row.
pub proof fn lemma_middle_part(a: Seq<char>, b: Seq<char>, c: Seq<char>)
    ensures
        cuts_cleanly(a + b + c, size(a) as int, (size(a) + size(b)) as int),
        byte_range(a + b + c, size(a) as int, (size(a) + size(b)) as int) == b,
        size(a + b + c) == size(a) + size(b) + size(c),
{
    assert(a + b + c =~= a + (b + c));
    lemma_size_add(a, b);
    lemma_size_add(a + b, c);
    lemma_bytes_add(a + b, c);
    lemma_bytes_add(a, b);
    lemma_bytes_add(a, b + c);
    assert(vstd::utf8::encode_utf8(a + b + c).subrange(
        size(a) as int,
        (size(a) + size(b)) as int,
    ) =~= vstd::utf8::encode_utf8(b));
    vstd::utf8::encode_utf8_decode_utf8(b);
}

/// Cuts bytes `from` to `to` out of a text.
pub fn cut(s: &str, from: usize, to: usize) -> (part: &str)
    requires
        cuts_cleanly(s@, from as int, to as int),
    ensures
        part@ == byte_range(s@, from as int, to as int),
{
    proof {
        lemma_byte_range(s@, from as int, to as int);
    }
    let (front, _) = s.split_at(to);
    let (_, part) = front.split_at(from);
    proof {
        let bytes = vstd::utf8::encode_utf8(s@);
        assert(bytes.subrange(0, to as int).subrange(from as int, to as int) =~= bytes.subrange(
            from as int,
            to as int,
        ));
        vstd::utf8::encode_utf8_decode_utf8(part@);
    }
    part
}

/// Whether bytes `from` to `to` can be cut out of a text.
pub fn can_cut(s: &str, from: usize, to: usize) -> (clean: bool)
    ensures
        clean == cuts_cleanly(s@, from as int, to as int),
{
    from <= to && to <= byte_len(s) && s.is_char_boundary(from) && s.is_char_boundary(to)
}

/// The last component of a path: its longest suffix without a slash.
pub open spec fn base_name(s: Seq<char>) -> Seq<char>
    decreases s.len(),
{
    if s.len() == 0 || s.last() == '/' {
        Seq::empty()
    } else {
        base_name(s.drop_last()).push(s.last())
    }
}

/// What follows a slash and holds none is the last component.
pub proof fn lemma_base_name(dir: Seq<char>, name: Seq<char>)
    requires
        !name.contains('/'),
    ensures
        base_name(dir.push('/') + name) == name,
    decreases name.len(),
{
    let s = dir.push('/') + name;
    if name.len() > 0 {
        assert(s.drop_last() =~= dir.push('/') + name.drop_last());
        assert(s.last() == name.last());
        assert(name[name.len() - 1] != '/') by {
            if name[name.len() - 1] == '/' {
                assert(name.contains('/'));
            }
        }
        assert forall|i: int| 0 <= i < name.drop_last().len() implies name.drop_last()[i]
            != '/' by {
            assert(name[i] == name.drop_last()[i]);
            if name[i] == '/' {
                assert(name.contains('/'));
            }
        }
        lemma_base_name(dir, name.drop_last());
        assert(name =~= name.drop_last().push(name.last()));
    } else {
        assert(s =~= dir.push('/'));
    }
}

/// The last component of a path that has a slash.
pub fn file_name(path: &str) -> (name: Option<&str>)
    ensures
        name is Some == path@.contains('/'),
        name matches Some(name) ==> name@ == base_name(path@),
{
    let mut chars = path.chars();
    let mut name: Option<&str> = None;
    let ghost mut done: int = 0;
    let ghost mut start: int = 0;
    proof {
        assert(path@.skip(0) =~= path@);
    }
    loop
        invariant_except_break
            0 <= start <= done <= path@.len(),
            vstd::std_specs::iter::IteratorSpec::remaining(&chars) == path@.skip(done),
            forall|i: int| start <= i < done ==> path@[i] != '/',
            match name {
                Some(n) => start > 0 && path@[start - 1] == '/' && n@ == path@.skip(start),
                None => start == 0,
            },
        ensures
            done == path@.len(),
            0 <= start <= done,
            forall|i: int| start <= i < done ==> path@[i] != '/',
            match name {
                Some(n) => start > 0 && path@[start - 1] == '/' && n@ == path@.skip(start),
                None => start == 0,
            },
        decreases path@.len() - done,
    {
        match chars.next() {
            None => {
                break;
            },
            Some(c) => {
                proof {
                    assert(path@.skip(done)[0] == path@[done]);
                    assert(path@.skip(done).drop_first() =~= path@.skip(done + 1));
                    done = done + 1;
                }
                if c == '/' {
                    name = Some(chars.as_str());
                    proof {
                        start = done;
                    }
                }
            },
        }
    }
    proof {
        if let Some(n) = name {
            let dir = path@.take(start - 1);
            assert(path@ =~= dir.push('/') + n@);
            assert forall|i: int| 0 <= i < n@.len() implies n@[i] != '/' by {
                assert(n@[i] == path@[start + i]);
            }
            lemma_base_name(dir, n@);
            assert(path@.contains('/'));
        }
    }
    name
}

/// Where the bytes of two texts agree up to a place, that place decides which comes first: the
/// smaller byte, or the end of a text.
pub proof fn law_first_byte_that_differs_decides(a: Seq<char>, b: Seq<char>, k: int)
    requires
        0 <= k <= vstd::utf8::encode_utf8(a).len(),
        k <= vstd::utf8::encode_utf8(b).len(),
        forall|j: int|
            0 <= j < k ==> #[trigger] vstd::utf8::encode_utf8(a)[j] == vstd::utf8::encode_utf8(b)[j],
    ensures
        k < vstd::utf8::encode_utf8(a).len() && k < vstd::utf8::encode_utf8(b).len()
            && vstd::utf8::encode_utf8(a)[k] < vstd::utf8::encode_utf8(b)[k] ==> text_precedes(a, b)
            && !text_precedes(b, a),
        k == vstd::utf8::encode_utf8(a).len() && k < vstd::utf8::encode_utf8(b).len()
            ==> text_precedes(a, b) && !text_precedes(b, a),
        k == vstd::utf8::encode_utf8(a).len() && k == vstd::utf8::encode_utf8(b).len()
            ==> !text_precedes(a, b),
{
    let x = vstd::utf8::encode_utf8(a);
    let y = vstd::utf8::encode_utf8(b);
    if k < y.len() && (k == x.len() || x[k] < y[k]) {
        assert(differ_first_at(x, y, k));
        assert(text_precedes(a, b));
        if text_precedes(b, a) {
            lemma_precedes_transitive(a, b, a);
            lemma_precedes_irreflexive(a);
        }
    }
    if k == x.len() && k == y.len() {
        assert(x =~= y);
        vstd::utf8::encode_utf8_decode_utf8(a);
        vstd::utf8::encode_utf8_decode_utf8(b);
        lemma_precedes_irreflexive(a);
    }
}

/// The size of a text is the number of its bytes in UTF-8: it adds up, and an ASCII character
/// takes one byte.
pub proof fn law_size_counts_bytes(a: Seq<char>, b: Seq<char>)
    ensures
        size(a) == vstd::utf8::encode_utf8(a).len(),
        size(a + b) == size(a) + size(b),
        vstd::utf8::is_ascii_chars(a) ==> size(a) == a.len(),
{
    lemma_size_add(a, b);
    if vstd::utf8::is_ascii_chars(a) {
        vstd::utf8::is_ascii_chars_encode_utf8(a);
    }
}

/// A text that can be cut at two places is three texts in a row, and what is cut out is the one in
/// the middle.
pub proof fn law_clean_cuts_leave_three_texts(s: Seq<char>, from: int, to: int) -> (parts: (
    Seq<char>,
    Seq<char>,
    Seq<char>,
))
    requires
        cuts_cleanly(s, from, to),
    ensures
        s == parts.0 + parts.1 + parts.2,
        size(parts.0) == from,
        size(parts.0) + size(parts.1) == to,
        byte_range(s, from, to) == parts.1,
{
    let bytes = vstd::utf8::encode_utf8(s);
    vstd::utf8::encode_utf8_valid_utf8(s);
    vstd::utf8::is_char_boundary_start_end_of_seq(bytes);
    let a = byte_range(s, 0, from);
    let b = byte_range(s, from, to);
    let c = byte_range(s, to, size(s) as int);
    lemma_byte_range(s, 0, from);
    lemma_byte_range(s, from, to);
    lemma_byte_range(s, to, size(s) as int);
    lemma_bytes_add(a, b);
    lemma_bytes_add(a + b, c);
    assert(vstd::utf8::encode_utf8(a + b + c) =~= bytes);
    vstd::utf8::encode_utf8_decode_utf8(a + b + c);
    vstd::utf8::encode_utf8_decode_utf8(s);
    (a, b, c)
}

} // verus!
