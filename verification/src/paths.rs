//! The paths of the Nix store: store paths, derivation paths and the names of outputs.

use crate::text;
use vstd::prelude::*;

verus! {

/// A path in the Nix store, such as `/nix/store/<hash>-<name>`.
#[derive(Debug, Eq, PartialEq, Ord, PartialOrd, Hash)]
pub struct StorePath(pub String);

impl View for StorePath {
    type V = Seq<char>;

    open spec fn view(&self) -> Seq<char> {
        self.0@
    }
}

impl DeepView for StorePath {
    type V = Seq<char>;

    open spec fn deep_view(&self) -> Seq<char> {
        self.0@
    }
}

impl Clone for StorePath {
    fn clone(&self) -> (copy: Self)
        ensures
            copy == *self,
    {
        StorePath(self.0.clone())
    }
}

/// Whether the last component of a path has a hash in front: 32 bytes that end on a character.
pub open spec fn has_hash(path: Seq<char>) -> bool {
    path.contains('/') && text::cuts_cleanly(text::base_name(path), 0, 32)
}

/// Whether the last component of a path has a name behind the hash and its separator, one byte.
pub open spec fn has_name(path: Seq<char>) -> bool {
    path.contains('/') && text::cuts_cleanly(
        text::base_name(path),
        33,
        text::size(text::base_name(path)) as int,
    )
}

/// The hash in front of the last component of a path.
pub open spec fn hash_of(path: Seq<char>) -> Seq<char> {
    text::byte_range(text::base_name(path), 0, 32)
}

/// The name behind the hash and its separator.
pub open spec fn name_of(path: Seq<char>) -> Seq<char> {
    text::byte_range(
        text::base_name(path),
        33,
        text::size(text::base_name(path)) as int,
    )
}

/// Whether the last component of a path has a name between the hash with its separator and an
/// ending of four bytes (`.drv`).
pub open spec fn has_drv_name(path: Seq<char>) -> bool {
    path.contains('/') && text::cuts_cleanly(
        text::base_name(path),
        33,
        text::size(text::base_name(path)) - 4,
    )
}

/// The name between the hash with its separator and an ending of four bytes.
pub open spec fn drv_name_of(path: Seq<char>) -> Seq<char> {
    text::byte_range(
        text::base_name(path),
        33,
        text::size(text::base_name(path)) - 4,
    )
}

impl StorePath {
    /// The hash in the last component of the path.
    pub fn hash_part(&self) -> (hash: &str)
        requires
            has_hash(self@),
        ensures
            hash@ == hash_of(self@),
    {
        match text::file_name(self.0.as_str()) {
            Some(name) => text::cut(name, 0, 32),
            None => "",
        }
    }

    /// The name in the last component of the path.
    pub fn get_name(&self) -> (name: &str)
        requires
            has_name(self@),
        ensures
            name@ == name_of(self@),
    {
        match text::file_name(self.0.as_str()) {
            Some(name) => text::cut(name, 33, text::byte_len(name)),
            None => "",
        }
    }

    /// The path as text.
    pub fn as_str(&self) -> (s: &str)
        ensures
            s@ == self@,
    {
        self.0.as_str()
    }

    /// Whether the path has a hash part.
    pub fn has_hash_part(&self) -> (has: bool)
        ensures
            has == has_hash(self@),
    {
        match text::file_name(self.0.as_str()) {
            Some(name) => text::can_cut(name, 0, 32),
            None => false,
        }
    }

    /// Whether the path has a name.
    pub fn has_name_part(&self) -> (has: bool)
        ensures
            has == has_name(self@),
    {
        match text::file_name(self.0.as_str()) {
            Some(name) => text::can_cut(name, 33, text::byte_len(name)),
            None => false,
        }
    }
}

/// The path of a derivation in the Nix store, such as `/nix/store/<hash>-<name>.drv`.
#[derive(Debug, Eq, PartialEq, Ord, PartialOrd, Hash)]
pub struct DrvPath(pub String);

impl View for DrvPath {
    type V = Seq<char>;

    open spec fn view(&self) -> Seq<char> {
        self.0@
    }
}

impl DeepView for DrvPath {
    type V = Seq<char>;

    open spec fn deep_view(&self) -> Seq<char> {
        self.0@
    }
}

impl Clone for DrvPath {
    fn clone(&self) -> (copy: Self)
        ensures
            copy == *self,
    {
        DrvPath(self.0.clone())
    }
}

impl DrvPath {
    /// The name in the last component of the path, without hash and ending.
    pub fn get_name(&self) -> (name: &str)
        requires
            has_drv_name(self@),
        ensures
            name@ == drv_name_of(self@),
    {
        match text::file_name(self.0.as_str()) {
            Some(name) => text::cut(name, 33, text::byte_len(name) - 4),
            None => "",
        }
    }

    /// The path as text.
    pub fn as_str(&self) -> (s: &str)
        ensures
            s@ == self@,
    {
        self.0.as_str()
    }

    /// Whether the path has a name.
    pub fn has_name_part(&self) -> (has: bool)
        ensures
            has == has_drv_name(self@),
    {
        match text::file_name(self.0.as_str()) {
            Some(name) => text::byte_len(name) >= 4 && text::can_cut(
                name,
                33,
                text::byte_len(name) - 4,
            ),
            None => false,
        }
    }
}

/// The name of an output of a derivation, such as `out` or `dev`.
#[derive(Debug, Eq, PartialEq, Ord, PartialOrd, Hash)]
pub struct OutputName(pub String);

impl View for OutputName {
    type V = Seq<char>;

    open spec fn view(&self) -> Seq<char> {
        self.0@
    }
}

impl DeepView for OutputName {
    type V = Seq<char>;

    open spec fn deep_view(&self) -> Seq<char> {
        self.0@
    }
}

impl Clone for OutputName {
    fn clone(&self) -> (copy: Self)
        ensures
            copy == *self,
    {
        OutputName(self.0.clone())
    }
}

/// Where the last component of a path is a hash of 32 bytes, a separator of one byte and a name,
/// these are the hash and the name of the path.
pub proof fn law_hash_and_name_make_up_the_last_component(
    dir: Seq<char>,
    hash: Seq<char>,
    separator: char,
    name: Seq<char>,
)
    requires
        text::size(hash) == 32,
        text::size(seq![separator]) == 1,
        !(hash.push(separator) + name).contains('/'),
    ensures
        has_hash(dir.push('/') + hash.push(separator) + name),
        hash_of(dir.push('/') + hash.push(separator) + name) == hash,
        has_name(dir.push('/') + hash.push(separator) + name),
        name_of(dir.push('/') + hash.push(separator) + name) == name,
{
    let base = hash.push(separator) + name;
    let path = dir.push('/') + hash.push(separator) + name;
    assert(path =~= dir.push('/') + base);
    assert(path[dir.len() as int] == '/');
    text::lemma_base_name(dir, base);
    let none = Seq::<char>::empty();
    let middle = seq![separator];
    assert(base =~= none + hash + (middle + name));
    text::lemma_middle_part(none, hash, middle + name);
    assert(base =~= (hash + middle) + name + none);
    text::lemma_size_add(hash, middle);
    text::lemma_middle_part(hash + middle, name, none);
}

/// Where the last component of a path is a hash of 32 bytes, a separator of one byte, a name and
/// an ending of four bytes, the name is that of the derivation.
pub proof fn law_name_of_a_derivation_is_before_the_ending(
    dir: Seq<char>,
    hash: Seq<char>,
    separator: char,
    name: Seq<char>,
    ending: Seq<char>,
)
    requires
        text::size(hash) == 32,
        text::size(seq![separator]) == 1,
        text::size(ending) == 4,
        !(hash.push(separator) + name + ending).contains('/'),
    ensures
        has_drv_name(dir.push('/') + hash.push(separator) + name + ending),
        drv_name_of(dir.push('/') + hash.push(separator) + name + ending) == name,
{
    let base = hash.push(separator) + name + ending;
    let path = dir.push('/') + hash.push(separator) + name + ending;
    assert(path =~= dir.push('/') + base);
    assert(path[dir.len() as int] == '/');
    text::lemma_base_name(dir, base);
    let middle = seq![separator];
    assert(base =~= (hash + middle) + name + ending);
    text::lemma_size_add(hash, middle);
    text::lemma_middle_part(hash + middle, name, ending);
}

/// A path with a slash is a directory, a slash and the last component.
proof fn lemma_last_component(path: Seq<char>) -> (dir: Seq<char>)
    requires
        path.contains('/'),
    ensures
        path == dir.push('/') + text::base_name(path),
        !text::base_name(path).contains('/'),
    decreases path.len(),
{
    let base = text::base_name(path);
    if path.last() == '/' {
        let dir = path.drop_last();
        assert(dir.push('/') + base =~= path);
        dir
    } else {
        let less = path.drop_last();
        assert(less.contains('/')) by {
            let k = path.index_of('/');
            assert(less[k] == '/');
        }
        let dir = lemma_last_component(less);
        assert(base == text::base_name(less).push(path.last()));
        assert(path =~= less.push(path.last()));
        assert(dir.push('/') + base =~= (dir.push('/') + text::base_name(less)).push(path.last()));
        assert(!base.contains('/')) by {
            if base.contains('/') {
                let k = base.index_of('/');
                assert(text::base_name(less)[k] == '/');
                assert(text::base_name(less).contains('/'));
            }
        }
        dir
    }
}

/// A path has a hash exactly if its last component begins with 32 bytes that end on a character,
/// and those are the hash.
pub proof fn law_hash_is_what_the_last_component_begins_with(
    dir: Seq<char>,
    hash: Seq<char>,
    rest: Seq<char>,
)
    requires
        text::size(hash) == 32,
        !(hash + rest).contains('/'),
    ensures
        has_hash(dir.push('/') + (hash + rest)),
        hash_of(dir.push('/') + (hash + rest)) == hash,
{
    let path = dir.push('/') + (hash + rest);
    assert(path[dir.len() as int] == '/');
    text::lemma_base_name(dir, hash + rest);
    let none = Seq::<char>::empty();
    assert(hash + rest =~= none + hash + rest);
    text::lemma_middle_part(none, hash, rest);
}

/// No other path has a hash.
pub proof fn law_paths_with_a_hash(path: Seq<char>) -> (parts: (Seq<char>, Seq<char>, Seq<char>))
    requires
        has_hash(path),
    ensures
        path == parts.0.push('/') + (parts.1 + parts.2),
        !(parts.1 + parts.2).contains('/'),
        text::size(parts.1) == 32,
        hash_of(path) == parts.1,
{
    let base = text::base_name(path);
    let dir = lemma_last_component(path);
    let (none, hash, rest) = text::law_clean_cuts_leave_three_texts(base, 0, 32);
    assert(none =~= Seq::<char>::empty()) by {
        if none.len() > 0 {
            text::lemma_size_drop_first(none);
        }
    }
    assert(base =~= hash + rest);
    (dir, hash, rest)
}

/// A path has a name exactly if 33 bytes stand before it in the last component; the name is all
/// that follows.
pub proof fn law_name_is_what_follows(dir: Seq<char>, front: Seq<char>, name: Seq<char>)
    requires
        text::size(front) == 33,
        !(front + name).contains('/'),
    ensures
        has_name(dir.push('/') + (front + name)),
        name_of(dir.push('/') + (front + name)) == name,
{
    let path = dir.push('/') + (front + name);
    assert(path[dir.len() as int] == '/');
    text::lemma_base_name(dir, front + name);
    let none = Seq::<char>::empty();
    assert(front + name =~= front + name + none);
    text::lemma_middle_part(front, name, none);
}

/// No other path has a name.
pub proof fn law_paths_with_a_name(path: Seq<char>) -> (parts: (Seq<char>, Seq<char>, Seq<char>))
    requires
        has_name(path),
    ensures
        path == parts.0.push('/') + (parts.1 + parts.2),
        !(parts.1 + parts.2).contains('/'),
        text::size(parts.1) == 33,
        name_of(path) == parts.2,
{
    let base = text::base_name(path);
    let dir = lemma_last_component(path);
    let n = text::size(base) as int;
    let (front, name, none) = text::law_clean_cuts_leave_three_texts(base, 33, n);
    text::lemma_size_add(front + name, none);
    text::lemma_size_add(front, name);
    assert(none =~= Seq::<char>::empty()) by {
        if none.len() > 0 {
            text::lemma_size_drop_first(none);
        }
    }
    assert(base =~= front + name);
    (dir, front, name)
}

/// A path has the name of a derivation exactly if its last component is 33 bytes, the name, and
/// four bytes more.
pub proof fn law_paths_with_the_name_of_a_derivation(path: Seq<char>) -> (parts: (
    Seq<char>,
    Seq<char>,
    Seq<char>,
    Seq<char>,
))
    requires
        has_drv_name(path),
    ensures
        path == parts.0.push('/') + (parts.1 + parts.2 + parts.3),
        !(parts.1 + parts.2 + parts.3).contains('/'),
        text::size(parts.1) == 33,
        text::size(parts.3) == 4,
        drv_name_of(path) == parts.2,
{
    let base = text::base_name(path);
    let dir = lemma_last_component(path);
    let n = text::size(base) - 4;
    let (front, name, ending) = text::law_clean_cuts_leave_three_texts(base, 33, n);
    text::lemma_size_add(front + name, ending);
    text::lemma_size_add(front, name);
    (dir, front, name, ending)
}

} // verus!
