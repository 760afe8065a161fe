//! Where the outputs of derivations are found: in a binary cache, on this machine, or nowhere.

use crate::derivation::Derivation;
use crate::maps::TextMap;
use crate::paths;
use crate::paths::{DrvPath, StorePath};
use vstd::prelude::*;

verus! {

/// Where an output is found.
#[derive(Debug, Copy, Clone, Eq, PartialEq, PartialOrd, Ord, Hash, Structural)]
pub enum CacheStatus {
    NotBuilt,
    Local,
    Cached,
}

/// The name of the file by which a binary cache says that it has a path.
pub open spec fn narinfo_name(path: Seq<char>) -> Seq<char> {
    paths::hash_of(path) + ".narinfo"@
}

/// The name of the file by which a binary cache says that it has a path.
pub fn narinfo_filename(path: &StorePath) -> (name: String)
    requires
        paths::has_hash(path@),
    ensures
        name@ == narinfo_name(path@),
        name@ == paths::hash_of(path@) + ".narinfo"@,
{
    let mut name = path.hash_part().to_owned();
    name.append(".narinfo");
    name
}

/// What `reqwest::Url::join` makes of a file name, relative to the URL that a text stands for.
pub uninterp spec fn joined_url(base: Seq<char>, file: Seq<char>) -> Option<Seq<char>>;

/// `reqwest::Url::join`: the URL of a file relative to another URL, both as texts. There is none
/// if `reqwest::Url::parse` does not take the text in `base` for a URL, or if the two cannot be
/// joined.
#[verifier::external_body]
fn join_url(base: &str, file: &str) -> (url: Option<String>)
    ensures
        url.deep_view() == joined_url(base@, file@),
{
    let base = reqwest::Url::parse(base).ok()?;
    let url = base.join(file).ok()?;
    Some(url.to_string())
}

/// What is to be done next to find out where a path is.
#[derive(Debug)]
pub enum ProbeStep {
    /// The URL has to be asked for; there is none if the cache cannot be named.
    Ask(Option<String>),
    /// The path has to be looked for on this machine.
    Look,
    /// The path is known to be in a cache.
    Found,
}

/// The state of a search for a path in binary caches.
#[verifier::ext_equal]
pub struct ProbeModel {
    pub path: Seq<char>,
    /// The caches, in the order in which they are asked.
    pub substituters: Seq<Seq<char>>,
    /// How many caches answered.
    pub asked: nat,
    /// Whether the last answer was that the cache has the path.
    pub found: bool,
}

impl ProbeModel {
    /// Whether a cache is still to be asked.
    pub open spec fn has_more(self) -> bool {
        !self.found && self.asked < self.substituters.len()
    }

    /// The state after a cache answered.
    pub open spec fn answered(self, has: bool) -> ProbeModel {
        ProbeModel { asked: self.asked + 1, found: has, ..self }
    }

    /// The state after several answers. None is asked for after a cache had the path.
    pub open spec fn after(self, answers: Seq<bool>) -> ProbeModel
        decreases answers.len(),
    {
        if answers.len() == 0 || !self.has_more() {
            self
        } else {
            self.answered(answers[0]).after(answers.drop_first())
        }
    }

    /// The status of the path, if it is known whether it is on this machine.
    pub open spec fn status(self, exists: bool) -> CacheStatus {
        if self.found {
            CacheStatus::Cached
        } else if exists {
            CacheStatus::Local
        } else {
            CacheStatus::NotBuilt
        }
    }
}

/// A search for a path in binary caches, one after the other, and then on this machine.
#[derive(Debug)]
pub struct CacheProbe {
    path: StorePath,
    substituters: Vec<String>,
    asked: usize,
    found: bool,
}

impl View for CacheProbe {
    type V = ProbeModel;

    closed spec fn view(&self) -> ProbeModel {
        ProbeModel {
            path: self.path@,
            substituters: self.substituters.deep_view(),
            asked: self.asked as nat,
            found: self.found,
        }
    }
}

impl CacheProbe {
    /// A search that has not begun.
    pub fn new(path: StorePath, substituters: Vec<String>) -> (probe: Self)
        ensures
            probe@ == (ProbeModel {
                path: path@,
                substituters: substituters.deep_view(),
                asked: 0,
                found: false,
            }),
    {
        CacheProbe { path, substituters, asked: 0, found: false }
    }

    /// What is to be done next.
    pub fn step(&self) -> (step: ProbeStep)
        requires
            self@.has_more() ==> paths::has_hash(self@.path),
        ensures
            match step {
                ProbeStep::Found => self@.found,
                ProbeStep::Ask(url) => self@.has_more() && !self@.found && self@.asked
                    < self@.substituters.len() && url.deep_view() == joined_url(
                    self@.substituters[self@.asked as int],
                    paths::hash_of(self@.path) + ".narinfo"@,
                ),
                ProbeStep::Look => !self@.found && !self@.has_more() && self@.asked
                    >= self@.substituters.len(),
            },
    {
        if self.found {
            ProbeStep::Found
        } else if self.asked < self.substituters.len() {
            let name = narinfo_filename(&self.path);
            assert(self@.substituters[self.asked as int] == self.substituters@[self.asked as int]@);
            ProbeStep::Ask(join_url(self.substituters[self.asked].as_str(), name.as_str()))
        } else {
            ProbeStep::Look
        }
    }

    /// Takes in what a cache answered: whether it has the path. A cache that cannot be reached
    /// does not have it.
    pub fn answer(&mut self, has: bool)
        requires
            old(self)@.has_more(),
        ensures
            final(self)@ == old(self)@.answered(has),
            final(self)@.path == old(self)@.path,
            final(self)@.substituters == old(self)@.substituters,
            final(self)@.asked == old(self)@.asked + 1,
            final(self)@.found == has,
    {
        assert(self.asked < self.substituters.len());
        self.asked += 1;
        self.found = has;
    }

    /// The status of the path, after the caches were asked and the path was looked for.
    pub fn status(&self, exists: bool) -> (status: CacheStatus)
        requires
            !self@.has_more(),
        ensures
            status == self@.status(exists),
            (status == CacheStatus::Cached) == self@.found,
            (status == CacheStatus::Local) == (!self@.found && exists),
            (status == CacheStatus::NotBuilt) == (!self@.found && !exists),
    {
        if self.found {
            CacheStatus::Cached
        } else if exists {
            CacheStatus::Local
        } else {
            CacheStatus::NotBuilt
        }
    }
}

/// A path is cached exactly if some cache would answer that it has it; else it counts as local
/// or as not built, as it is on this machine or not.
pub proof fn law_any_cache_will_do(
    path: Seq<char>,
    substituters: Seq<Seq<char>>,
    answers: Seq<bool>,
    exists: bool,
)
    requires
        answers.len() == substituters.len(),
    ensures
        ({
            let start = ProbeModel { path, substituters, asked: 0, found: false };
            let end = start.after(answers);
            &&& !end.has_more()
            &&& end.status(exists) == if answers.contains(true) {
                CacheStatus::Cached
            } else if exists {
                CacheStatus::Local
            } else {
                CacheStatus::NotBuilt
            }
            &&& end.asked == if answers.contains(true) {
                answers.index_of_first(true)->Some_0 + 1
            } else {
                answers.len() as int
            }
        }),
{
    let start = ProbeModel { path, substituters, asked: 0, found: false };
    lemma_after(start, answers);
    if answers.contains(true) {
        answers.index_of_first_ensures(true);
    }
}

proof fn lemma_after(state: ProbeModel, answers: Seq<bool>)
    requires
        !state.found,
        state.asked + answers.len() == state.substituters.len(),
    ensures
        !state.after(answers).has_more(),
        state.after(answers).found == answers.contains(true),
        state.after(answers).asked == state.asked + if answers.contains(true) {
            answers.index_of_first(true)->Some_0 + 1
        } else {
            answers.len() as int
        },
    decreases answers.len(),
{
    answers.index_of_first_ensures(true);
    if answers.len() > 0 {
        let rest = answers.drop_first();
        let next = state.answered(answers[0]);
        if answers[0] {
            assert(answers.contains(true));
            assert(answers.index_of_first(true)->Some_0 == 0);
            reveal_with_fuel(ProbeModel::after, 2);
        } else {
            lemma_after(next, rest);
            rest.index_of_first_ensures(true);
            if answers.contains(true) {
                let k = answers.index_of(true);
                assert(rest[k - 1] == true);
                let first = answers.index_of_first(true)->Some_0;
                let later = rest.index_of_first(true)->Some_0;
                assert(answers[later + 1] == rest[later]);
                assert(rest[first - 1] == answers[first]);
            } else {
                assert forall|j: int| 0 <= j < rest.len() implies rest[j] != true by {
                    assert(answers[j + 1] == rest[j]);
                    assert(answers.contains(answers[j + 1]));
                }
            }
        }
    }
}

/// What is known of paths. A path has a cell, and a cell is filled once.
#[verifier::ext_equal]
pub struct StatusModel {
    /// The cell of each path that was asked for or marked.
    pub cells: Map<Seq<char>, nat>,
    /// What is in the cells.
    pub contents: Seq<Option<CacheStatus>>,
}

impl StatusModel {
    /// What is known of a path.
    pub open spec fn status(self, path: Seq<char>) -> Option<CacheStatus> {
        if self.cells.contains_key(path) {
            self.contents[self.cells[path] as int]
        } else {
            None
        }
    }

    /// Whether every cell of a path is there.
    pub open spec fn valid(self) -> bool {
        forall|path: Seq<char>| #[trigger]
            self.cells.contains_key(path) ==> self.cells[path] < self.contents.len()
    }

    /// The state after a path got a new cell.
    pub open spec fn with_cell(self, path: Seq<char>, content: Option<CacheStatus>) -> StatusModel {
        StatusModel {
            cells: self.cells.insert(path, self.contents.len()),
            contents: self.contents.push(content),
        }
    }

    /// The state after several paths got new cells, one after the other.
    pub open spec fn with_cells(
        self,
        paths: Seq<Seq<char>>,
        content: Option<CacheStatus>,
    ) -> StatusModel
        decreases paths.len(),
    {
        if paths.len() == 0 {
            self
        } else {
            self.with_cells(paths.drop_last(), content).with_cell(paths.last(), content)
        }
    }

    /// The state after a status was found for a cell. A cell that is filled keeps what it holds.
    pub open spec fn filled(self, cell: nat, found: CacheStatus) -> StatusModel {
        match self.contents[cell as int] {
            Some(_) => self,
            None => StatusModel {
                contents: self.contents.update(cell as int, Some(found)),
                ..self
            },
        }
    }
}

/// What is known of the status of paths.
pub struct StatusCache {
    index: TextMap<usize>,
    contents: Vec<Option<CacheStatus>>,
}

impl View for StatusCache {
    type V = StatusModel;

    closed spec fn view(&self) -> StatusModel {
        StatusModel {
            cells: self.index@.map_values(|cell: usize| cell as nat),
            contents: self.contents@,
        }
    }
}

/// What comes out of the command that uploads a path.
#[derive(Debug, Copy, Clone, Eq, PartialEq, Structural)]
pub enum UploadOutput {
    /// A line.
    Line,
    /// The end of what the command writes.
    End,
    /// An error in reading.
    Error,
}

/// How an upload goes on.
#[derive(Debug, Copy, Clone, Eq, PartialEq, Structural)]
pub enum UploadStep {
    /// More is to be read from the command.
    Read,
    /// The path was uploaded.
    Done,
    /// The upload failed.
    Fail,
}

impl StatusCache {
    /// Nothing is known.
    pub fn new() -> (cache: Self)
        ensures
            cache@.valid(),
            cache@.cells == Map::<Seq<char>, nat>::empty(),
            cache@.contents == Seq::<Option<CacheStatus>>::empty(),
    {
        let cache = StatusCache { index: TextMap::new(), contents: Vec::new() };
        assert(cache@.cells =~= Map::<Seq<char>, nat>::empty());
        cache
    }

    /// Gives a path a new cell.
    fn put(&mut self, path: &StorePath, content: Option<CacheStatus>) -> (cell: usize)
        requires
            old(self)@.valid(),
        ensures
            final(self)@.valid(),
            final(self)@ == old(self)@.with_cell(path@, content),
            cell == old(self)@.contents.len(),
    {
        let ghost before = self@;
        let ghost cells = self.index@;
        let cell: usize = self.contents.len();
        self.index.insert(path.0.clone(), cell);
        self.contents.push(content);
        proof {
            let number = |cell: usize| cell as nat;
            assert(self.index@.map_values(number) =~= cells.map_values(number).insert(
                path@,
                cell as nat,
            ));
            assert(self@ =~= before.with_cell(path@, content));
            assert forall|other: Seq<char>| #[trigger] self@.cells.contains_key(other) implies self@.cells[other]
                < self@.contents.len() by {
                if other != path@ {
                    assert(before.cells.contains_key(other));
                }
            }
        }
        cell
    }

    /// The cell of a path: the one that it has, or else a new one.
    pub fn cell_for(&mut self, path: &StorePath) -> (cell: usize)
        requires
            old(self)@.valid(),
        ensures
            final(self)@.valid(),
            final(self)@ == if old(self)@.cells.contains_key(path@) {
                old(self)@
            } else {
                old(self)@.with_cell(path@, None)
            },
            cell == final(self)@.cells[path@],
            cell < final(self)@.contents.len(),
            final(self)@.cells.contains_key(path@),
            old(self)@.contents.is_prefix_of(final(self)@.contents),
            !old(self)@.cells.contains_key(path@) ==> final(self)@.contents[cell as int]
                == None::<CacheStatus>,
            forall|other: Seq<char>| #[trigger]
                old(self)@.cells.contains_key(other) ==> final(self)@.cells.contains_key(other)
                    && final(self)@.cells[other] == old(self)@.cells[other],
    {
        match self.index.get(path.as_str()) {
            Some(cell) => {
                assert(self@.cells.contains_key(path@));
                *cell
            },
            None => self.put(path, None),
        }
    }

    /// What is in a cell.
    pub fn content(&self, cell: usize) -> (content: Option<CacheStatus>)
        requires
            cell < self@.contents.len(),
        ensures
            content == self@.contents[cell as int],
    {
        self.contents[cell]
    }

    /// Fills a cell, if it is not filled, and says what is in it.
    pub fn fill(&mut self, cell: usize, found: CacheStatus) -> (status: CacheStatus)
        requires
            old(self)@.valid(),
            cell < old(self)@.contents.len(),
        ensures
            final(self)@.valid(),
            final(self)@ == old(self)@.filled(cell as nat, found),
            Some(status) == final(self)@.contents[cell as int],
            status == match old(self)@.contents[cell as int] {
                Some(known) => known,
                None => found,
            },
            final(self)@.cells == old(self)@.cells,
            final(self)@.contents == old(self)@.contents.update(cell as int, Some(status)),
    {
        match self.contents[cell] {
            Some(status) => status,
            None => {
                let ghost before = self@;
                self.contents.set(cell, Some(found));
                assert forall|other: Seq<char>| #[trigger] self@.cells.contains_key(other) implies self@.cells[other]
                    < self@.contents.len() by {
                    assert(before.cells.contains_key(other));
                }
                found
            },
        }
    }

    /// Notes that a path is in a cache, whatever was known of it.
    pub fn mark_cached(&mut self, path: &StorePath)
        requires
            old(self)@.valid(),
        ensures
            final(self)@.valid(),
            final(self)@ == old(self)@.with_cell(path@, Some(CacheStatus::Cached)),
            final(self)@.cells.contains_key(path@),
            final(self)@.contents[final(self)@.cells[path@] as int] == Some(CacheStatus::Cached),
            old(self)@.contents.is_prefix_of(final(self)@.contents),
            final(self)@.cells.remove(path@) == old(self)@.cells.remove(path@),
    {
        self.put(path, Some(CacheStatus::Cached));
    }

    /// Notes that a path is on this machine, whatever was known of it.
    pub fn mark_local(&mut self, path: &StorePath)
        requires
            old(self)@.valid(),
        ensures
            final(self)@.valid(),
            final(self)@ == old(self)@.with_cell(path@, Some(CacheStatus::Local)),
            final(self)@.cells.contains_key(path@),
            final(self)@.contents[final(self)@.cells[path@] as int] == Some(CacheStatus::Local),
            old(self)@.contents.is_prefix_of(final(self)@.contents),
            final(self)@.cells.remove(path@) == old(self)@.cells.remove(path@),
    {
        self.put(path, Some(CacheStatus::Local));
    }

    /// Notes that all outputs of a derivation are on this machine.
    pub fn mark_outputs_local(&mut self, drv: &Derivation)
        requires
            old(self)@.valid(),
        ensures
            final(self)@.valid(),
            final(self)@ == old(self)@.with_cells(drv.output_paths(), Some(CacheStatus::Local)),
            drv.outputs.lists_its_keys(),
    {
        let ghost before = self@;
        let ghost paths = drv.output_paths();
        let n = drv.outputs.len();
        assert(before.with_cells(paths.take(0), Some(CacheStatus::Local)) == before);
        for i in 0..n
            invariant
                self@.valid(),
                paths == drv.output_paths(),
                n == drv.outputs.keys().len(),
                self@ == before.with_cells(paths.take(i as int), Some(CacheStatus::Local)),
        {
            let path = drv.outputs.value_at(i);
            self.mark_local(path);
            proof {
                assert(path@ == paths[i as int]);
                assert(paths.take(i + 1).drop_last() =~= paths.take(i as int));
            }
        }
        assert(paths.take(n as int) =~= paths);
    }

    /// Takes in what came out of the command that uploads a path. The path is in the cache once
    /// the command has nothing more to write.
    pub fn upload_output(&mut self, path: &StorePath, output: UploadOutput) -> (step: UploadStep)
        requires
            old(self)@.valid(),
        ensures
            final(self)@.valid(),
            match output {
                UploadOutput::Line => step == UploadStep::Read && final(self)@ == old(self)@,
                UploadOutput::End => step == UploadStep::Done && final(self)@
                    == old(self)@.with_cell(path@, Some(CacheStatus::Cached)),
                UploadOutput::Error => step == UploadStep::Fail && final(self)@ == old(self)@,
            },
    {
        match output {
            UploadOutput::Line => UploadStep::Read,
            UploadOutput::End => {
                self.mark_cached(path);
                UploadStep::Done
            },
            UploadOutput::Error => UploadStep::Fail,
        }
    }
}

/// The status of each derivation: of several that were found for one the last counts.
pub open spec fn last_found(found: Seq<(DrvPath, CacheStatus)>) -> Map<Seq<char>, CacheStatus>
    decreases found.len(),
{
    if found.len() == 0 {
        Map::empty()
    } else {
        last_found(found.drop_last()).insert(found.last().0@, found.last().1)
    }
}

/// The status of each derivation, from what was found one by one.
pub fn collect_statuses(found: Vec<(DrvPath, CacheStatus)>) -> (statuses: TextMap<CacheStatus>)
    ensures
        statuses@ == last_found(found@),
        forall|i: int|
            0 <= i < found@.len() && (forall|j: int|
                i < j < found@.len() ==> (#[trigger] found@[j]).0@ != found@[i].0@)
                ==> statuses@.contains_key((#[trigger] found@[i]).0@) && statuses@[found@[i].0@]
                == found@[i].1,
        forall|path: Seq<char>| #[trigger]
            statuses@.contains_key(path) ==> exists|i: int|
                0 <= i < found@.len() && (#[trigger] found@[i]).0@ == path,
{
    let mut statuses: TextMap<CacheStatus> = TextMap::new();
    assert(found@.take(0) =~= Seq::<(DrvPath, CacheStatus)>::empty());
    for i in 0..found.len()
        invariant
            statuses@ == last_found(found@.take(i as int)),
    {
        statuses.insert(found[i].0.0.clone(), found[i].1);
        assert(found@.take(i + 1).drop_last() =~= found@.take(i as int));
    }
    proof {
        assert(found@.take(found.len() as int) =~= found@);
        assert forall|i: int|
            0 <= i < found@.len() && (forall|j: int|
                i < j < found@.len() ==> (#[trigger] found@[j]).0@ != found@[i].0@) implies statuses@.contains_key(
            (#[trigger] found@[i]).0@,
        ) && statuses@[found@[i].0@] == found@[i].1 by {
            law_last_status_counts(found@, i);
        }
        assert forall|path: Seq<char>| #[trigger] statuses@.contains_key(path) implies exists|i: int|
            0 <= i < found@.len() && (#[trigger] found@[i]).0@ == path by {
            law_statuses_come_from_what_was_found(found@, path);
        }
    }
    statuses
}

/// What was found last for a derivation is its status, unchanged.
pub proof fn law_last_status_counts(found: Seq<(DrvPath, CacheStatus)>, i: int)
    requires
        0 <= i < found.len(),
        forall|j: int| i < j < found.len() ==> (#[trigger] found[j]).0@ != found[i].0@,
    ensures
        last_found(found).contains_key(found[i].0@),
        last_found(found)[found[i].0@] == found[i].1,
    decreases found.len(),
{
    if i < found.len() - 1 {
        let less = found.drop_last();
        assert(found[found.len() - 1].0@ != found[i].0@);
        assert forall|j: int| i < j < less.len() implies (#[trigger] less[j]).0@ != less[i].0@ by {
            assert(found[j].0@ != found[i].0@);
        }
        law_last_status_counts(less, i);
    }
}

/// No derivation has a status for which none was found.
pub proof fn law_statuses_come_from_what_was_found(
    found: Seq<(DrvPath, CacheStatus)>,
    path: Seq<char>,
)
    requires
        last_found(found).contains_key(path),
    ensures
        exists|i: int| 0 <= i < found.len() && (#[trigger] found[i]).0@ == path,
    decreases found.len(),
{
    if path == found.last().0@ {
        assert(found[found.len() - 1].0@ == path);
    } else {
        let less = found.drop_last();
        law_statuses_come_from_what_was_found(less, path);
        let i = choose|i: int| 0 <= i < less.len() && (#[trigger] less[i]).0@ == path;
        assert(found[i].0@ == path);
    }
}

/// Whether a path with a status has to be uploaded: unless a cache has it.
pub fn needs_upload(status: CacheStatus) -> (needed: bool)
    ensures
        needed == (status != CacheStatus::Cached),
{
    status != CacheStatus::Cached
}

/// What a path was marked with is what is known of it then, and of every other path the same is
/// known as before.
pub proof fn law_marks_replace_what_was_known(
    before: StatusModel,
    path: Seq<char>,
    other: Seq<char>,
    mark: CacheStatus,
)
    requires
        before.valid(),
    ensures
        before.with_cell(path, Some(mark)).status(path) == Some(mark),
        other != path ==> before.with_cell(path, Some(mark)).status(other) == before.status(other),
{
    if before.cells.contains_key(other) {
        assert(before.cells[other] < before.contents.len());
    }
}

/// After the outputs of a derivation were marked, that is what is known of each of them, and of
/// other paths the same is known as before.
pub proof fn law_all_outputs_are_marked(
    before: StatusModel,
    paths: Seq<Seq<char>>,
    mark: CacheStatus,
    path: Seq<char>,
)
    requires
        before.valid(),
    ensures
        before.with_cells(paths, Some(mark)).valid(),
        before.with_cells(paths, Some(mark)).status(path) == if paths.contains(path) {
            Some(mark)
        } else {
            before.status(path)
        },
    decreases paths.len(),
{
    if paths.len() > 0 {
        let less = paths.drop_last();
        let between = before.with_cells(less, Some(mark));
        law_all_outputs_are_marked(before, less, mark, path);
        law_marks_replace_what_was_known(between, paths.last(), path, mark);
        let after = between.with_cell(paths.last(), Some(mark));
        assert forall|other: Seq<char>| #[trigger] after.cells.contains_key(other) implies after.cells[other]
            < after.contents.len() by {
            if other != paths.last() {
                assert(between.cells.contains_key(other));
            }
        }
        if path == paths.last() {
            assert(paths[paths.len() - 1] == path);
        } else if paths.contains(path) {
            let k = paths.index_of(path);
            assert(less[k] == path);
        } else if less.contains(path) {
            let k = less.index_of(path);
            assert(paths[k] == path);
        }
    }
}

/// What is found for an empty cell is in it then, and no other cell changes.
pub proof fn law_empty_cells_take_what_is_found(
    before: StatusModel,
    cell: nat,
    found: CacheStatus,
    other: nat,
)
    requires
        cell < before.contents.len(),
        other < before.contents.len(),
    ensures
        before.contents[cell as int] is None ==> before.filled(cell, found).contents[cell as int]
            == Some(found),
        other != cell ==> before.filled(cell, found).contents[other as int]
            == before.contents[other as int],
        before.filled(cell, found).cells == before.cells,
        before.filled(cell, found).contents.len() == before.contents.len(),
{
}

/// A new cell is one that no path had, and the cells that were there keep what they hold.
pub proof fn law_new_cells_are_fresh(
    before: StatusModel,
    path: Seq<char>,
    content: Option<CacheStatus>,
    other: Seq<char>,
    cell: nat,
)
    requires
        before.valid(),
        cell < before.contents.len(),
    ensures
        before.with_cell(path, content).contents[cell as int] == before.contents[cell as int],
        before.with_cell(path, content).contents.len() == before.contents.len() + 1,
        before.with_cell(path, content).cells.contains_key(path),
        before.with_cell(path, content).contents[before.with_cell(
            path,
            content,
        ).cells[path] as int] == content,
        before.cells.contains_key(other) ==> before.with_cell(path, content).cells[path]
            != before.cells[other],
        before.cells.contains_key(other) && other != path ==> before.with_cell(
            path,
            content,
        ).cells.contains_key(other) && before.with_cell(path, content).cells[other]
            == before.cells[other],
{
}

/// What is in a cell stays there, whatever is found later.
pub proof fn law_first_status_stays(
    before: StatusModel,
    path: Seq<char>,
    status: CacheStatus,
    cell: nat,
    found: CacheStatus,
)
    requires
        before.valid(),
        before.status(path) == Some(status),
        cell < before.contents.len(),
    ensures
        before.filled(cell, found).status(path) == Some(status),
{
}

} // verus!
