//! The favourites of a folder as they are kept on disk: one record for a
//! favourite, the components of its path below the folder joined by tabs.
//!
//! What is here decides which record stands for a path, which path a record
//! stands for, and when the store may be used. Reading and writing the
//! records is left to the caller.

use vstd::prelude::*;
use vstd::string::StrSliceExecFns;
use itertools::Itertools;
use crate::path::{is_under, views, FilePath, PathView};
use crate::pathset::{first_index_of, lemma_first_index_of, PathSet};

verus! {

/// The character that parts the components of a path in a record.
pub const SEPARATOR: char = '\t';

/// The name of the file that holds the favourites of a folder.
pub open spec fn favourites_db() -> Seq<char> {
    "favourites.db"@
}

/// The texts of `parts`, one after the other, with `sep` between each two.
pub open spec fn joined(parts: Seq<Seq<char>>, sep: Seq<char>) -> Seq<char>
    decreases parts.len(),
{
    if parts.len() == 0 {
        Seq::empty()
    } else if parts.len() == 1 {
        parts[0]
    } else {
        joined(parts.drop_last(), sep) + sep + parts.last()
    }
}

/// The pieces into which the occurrences of `sep` part `text`; between two
/// occurrences side by side, and before one at the start or after one at the
/// end, lies an empty piece.
pub open spec fn split(text: Seq<char>, sep: char) -> Seq<Seq<char>>
    decreases text.len(),
{
    if text.len() == 0 {
        seq![Seq::empty()]
    } else {
        let head = split(text.drop_last(), sep);
        if text.last() == sep {
            head.push(Seq::empty())
        } else {
            head.drop_last().push(head.last().push(text.last()))
        }
    }
}

/// The pieces of `pieces` that are not empty.
pub open spec fn non_empty(pieces: Seq<Seq<char>>) -> Seq<Seq<char>> {
    pieces.filter(|piece: Seq<char>| piece.len() > 0)
}

/// The record that stands for `path` in the store of the folder `root`.
pub open spec fn record_of(root: PathView, path: PathView) -> Seq<char> {
    joined(path.skip(root.len() as int), seq![SEPARATOR])
}

/// The path below the folder that a record stands for: its pieces between
/// the tabs, without the empty ones.
pub open spec fn relative_path_of(record: Seq<char>) -> PathView {
    non_empty(split(record, SEPARATOR))
}

/// The path that a record stands for in the store of the folder `root`.
pub open spec fn path_of(root: PathView, record: Seq<char>) -> PathView {
    root + relative_path_of(record)
}

/// Whether a component can be told from its neighbours in a record: it is
/// not empty and holds no tab.
pub open spec fn plain_component(component: Seq<char>) -> bool {
    component.len() > 0 && !component.contains(SEPARATOR)
}

/// Calls `itertools::Itertools::join` on the parts. It writes each part as
/// it is and `sep` between each two, and the empty text for no parts.
#[verifier::external_body]
fn join_parts(parts: &Vec<String>, sep: &str) -> (text: String)
    ensures
        text@ == joined(Seq::new(parts@.len(), |i: int| parts@[i]@), sep@),
{
    parts.iter().join(sep)
}

/// The file in `folder` that holds its favourites.
pub fn get_db_file(folder: &FilePath) -> (file: FilePath)
    ensures
        file@ == folder@.push(favourites_db()),
{
    folder.child("favourites.db")
}

/// Why a path has no record in a store.
#[derive(Debug, Clone, Copy, PartialEq, Eq, Structural)]
pub enum PathError {
    /// The path does not lie in the folder of the store.
    NotUnderRoot,
}

/// Why the store did not do what was asked.
#[derive(Debug, Clone, Copy, PartialEq, Eq, Structural)]
pub enum StoreError {
    /// No connection has been opened.
    Unavailable,
    /// The store has been closed.
    Closed,
    /// The path has no record in this store.
    Path(PathError),
}

/// How far a store has come.
#[derive(Debug, Clone, Copy, PartialEq, Eq, Structural)]
pub enum StoreState {
    /// Made, but without a connection so far.
    Unopened,
    /// Connected.
    Open,
    /// Closed for good.
    Closed,
}

/// The state of a store after an attempt to connect it.
pub open spec fn state_after_open(state: StoreState, connected: bool) -> StoreState {
    match state {
        StoreState::Unopened => if connected {
            StoreState::Open
        } else {
            StoreState::Unopened
        },
        StoreState::Open => StoreState::Open,
        StoreState::Closed => StoreState::Closed,
    }
}

/// What a store answers to an attempt to connect it.
pub open spec fn answer_to_open(state: StoreState, connected: bool) -> Result<(), StoreError> {
    match state {
        StoreState::Unopened => if connected {
            Ok(())
        } else {
            Err(StoreError::Unavailable)
        },
        StoreState::Open => Ok(()),
        StoreState::Closed => Err(StoreError::Closed),
    }
}

/// The store of the favourites of one folder.
#[derive(Debug)]
pub struct DB {
    state: StoreState,
    folder: FilePath,
}

impl DB {
    /// How far the store has come.
    pub closed spec fn state(&self) -> StoreState {
        self.state
    }

    /// The folder whose favourites the store holds.
    pub closed spec fn folder(&self) -> PathView {
        self.folder@
    }

    /// The error that a store in this state answers a request with, if any.
    pub open spec fn refusal(&self) -> Option<StoreError> {
        match self.state() {
            StoreState::Unopened => Some(StoreError::Unavailable),
            StoreState::Open => None,
            StoreState::Closed => Some(StoreError::Closed),
        }
    }

    /// The answer to a request to write or delete the record of `path`.
    pub open spec fn record_answer(&self, path: PathView) -> Result<Seq<char>, StoreError> {
        match self.refusal() {
            Some(error) => Err(error),
            None => if is_under(path, self.folder()) {
                Ok(record_of(self.folder(), path))
            } else {
                Err(StoreError::Path(PathError::NotUnderRoot))
            },
        }
    }

    /// The store for `folder`, not yet connected.
    pub fn new(folder: &FilePath) -> (db: Self)
        ensures
            db.state() == StoreState::Unopened,
            db.folder() == folder@,
    {
        DB { state: StoreState::Unopened, folder: folder.clone() }
    }

    /// How far the store has come.
    pub fn current_state(&self) -> (state: StoreState)
        ensures
            state == self.state(),
    {
        self.state
    }

    /// The file that a connection to this store opens.
    pub fn file(&self) -> (file: FilePath)
        ensures
            file@ == self.folder().push(favourites_db()),
    {
        get_db_file(&self.folder)
    }

    /// Takes note of an attempt to connect. A store that was not connected
    /// is open after an attempt that succeeded and as before after one that
    /// failed, which is an error. A store that is open stays open. A closed
    /// store stays closed, which is an error.
    pub fn open(&mut self, connected: bool) -> (outcome: Result<(), StoreError>)
        ensures
            final(self).folder() == old(self).folder(),
            final(self).state() == state_after_open(old(self).state(), connected),
            outcome == answer_to_open(old(self).state(), connected),
    {
        match self.state {
            StoreState::Unopened => {
                if connected {
                    self.state = StoreState::Open;
                    Ok(())
                } else {
                    Err(StoreError::Unavailable)
                }
            },
            StoreState::Open => Ok(()),
            StoreState::Closed => Err(StoreError::Closed),
        }
    }

    /// Closes an open store for good. A store that is not open stays as it
    /// is and answers with an error.
    pub fn close(&mut self) -> (outcome: Result<(), StoreError>)
        ensures
            final(self).folder() == old(self).folder(),
            match old(self).refusal() {
                Some(error) => outcome == Err::<(), StoreError>(error) && final(self).state()
                    == old(self).state(),
                None => outcome == Ok::<(), StoreError>(()) && final(self).state()
                    == StoreState::Closed,
            },
    {
        match self.state {
            StoreState::Unopened => Err(StoreError::Unavailable),
            StoreState::Open => {
                self.state = StoreState::Closed;
                Ok(())
            },
            StoreState::Closed => Err(StoreError::Closed),
        }
    }

    /// The error that the store answers a request with in its present state.
    fn check_open(&self) -> (outcome: Result<(), StoreError>)
        ensures
            match self.refusal() {
                Some(error) => outcome == Err::<(), StoreError>(error),
                None => outcome == Ok::<(), StoreError>(()),
            },
    {
        match self.state {
            StoreState::Unopened => Err(StoreError::Unavailable),
            StoreState::Open => Ok(()),
            StoreState::Closed => Err(StoreError::Closed),
        }
    }

    /// The record that stands for `img_path`: the components below the
    /// folder, joined by tabs. A path that does not lie in the folder has
    /// none.
    pub fn prepare_record(&self, img_path: &FilePath) -> (record: Result<String, PathError>)
        ensures
            match record {
                Ok(text) => is_under(img_path@, self.folder()) && text@ == record_of(
                    self.folder(),
                    img_path@,
                ),
                Err(PathError::NotUnderRoot) => !is_under(img_path@, self.folder()),
            },
    {
        if !img_path.starts_with(&self.folder) {
            return Err(PathError::NotUnderRoot);
        }
        let mut rest: Vec<String> = Vec::new();
        let mut i: usize = self.folder.parts.len();
        let ghost below = img_path@.skip(self.folder@.len() as int);
        while i < img_path.parts.len()
            invariant
                self.folder.parts.len() <= i <= img_path.parts.len(),
                rest@.len() == i - self.folder.parts.len(),
                below == img_path@.skip(self.folder@.len() as int),
                forall|j: int| 0 <= j < rest@.len() ==> rest@[j]@ == below[j],
            decreases img_path.parts.len() - i,
        {
            rest.push(img_path.parts[i].clone());
            i += 1;
        }
        proof {
            reveal_strlit("\t");
            assert("\t"@ =~= seq![SEPARATOR]);
            assert(Seq::new(rest@.len(), |i: int| rest@[i]@) =~= below);
        }
        Ok(join_parts(&rest, "\t"))
    }

    /// The path below the folder that `path_with_tabs` stands for: its
    /// pieces between the tabs, in order, without the empty ones.
    pub fn join_path_parts(&self, path_with_tabs: &str) -> (path: FilePath)
        ensures
            path@ == relative_path_of(path_with_tabs@),
    {
        split_record(path_with_tabs)
    }

    /// The path that `record` stands for in this store.
    pub fn decode(&self, record: &str) -> (path: FilePath)
        ensures
            path@ == path_of(self.folder(), record@),
    {
        let below = split_record(record);
        let mut path = self.folder.clone();
        let mut i: usize = 0;
        while i < below.parts.len()
            invariant
                i <= below.parts.len(),
                path@ == self.folder@ + below@.take(i as int),
            decreases below.parts.len() - i,
        {
            let ghost before = path@;
            path.parts.push(below.parts[i].clone());
            assert(path@ =~= before.push(below@[i as int]));
            assert(below@.take(i + 1) =~= below@.take(i as int).push(below@[i as int]));
            assert(path@ =~= self.folder@ + below@.take(i + 1));
            i += 1;
        }
        assert(below@.take(below.parts.len() as int) =~= below@);
        path
    }

    /// The record to write so that `img_path` becomes a favourite. An error
    /// when the store is not open or the path does not lie in its folder.
    pub fn insert(&self, img_path: &FilePath) -> (record: Result<String, StoreError>)
        ensures
            match record {
                Ok(text) => self.record_answer(img_path@) == Ok::<Seq<char>, StoreError>(text@),
                Err(error) => self.record_answer(img_path@) == Err::<Seq<char>, StoreError>(error),
            },
    {
        if let Err(error) = self.check_open() {
            return Err(error);
        }
        match self.prepare_record(img_path) {
            Ok(text) => Ok(text),
            Err(error) => Err(StoreError::Path(error)),
        }
    }

    /// The record to delete so that `img_path` is a favourite no more. An
    /// error when the store is not open or the path does not lie in its
    /// folder.
    pub fn delete(&self, img_path: &FilePath) -> (record: Result<String, StoreError>)
        ensures
            match record {
                Ok(text) => self.record_answer(img_path@) == Ok::<Seq<char>, StoreError>(text@),
                Err(error) => self.record_answer(img_path@) == Err::<Seq<char>, StoreError>(error),
            },
    {
        if let Err(error) = self.check_open() {
            return Err(error);
        }
        match self.prepare_record(img_path) {
            Ok(text) => Ok(text),
            Err(error) => Err(StoreError::Path(error)),
        }
    }
}

/// The pieces of `record` between the tabs, in order, without the empty
/// ones, as the components of a path.
pub fn split_record(record: &str) -> (path: FilePath)
    ensures
        path@ == relative_path_of(record@),
{
    let n = record.unicode_len();
    let ghost text = record@;
    let ghost keep = |piece: Seq<char>| piece.len() > 0;
    let mut parts: Vec<String> = Vec::new();
    let ghost mut closed: Seq<Seq<char>> = Seq::empty();
    let mut start: usize = 0;
    let mut i: usize = 0;
    proof {
        reveal(Seq::filter);
        assert(text.take(0) =~= Seq::<char>::empty());
        assert(text.subrange(0, 0) =~= Seq::<char>::empty());
        assert(split(text.take(0), SEPARATOR) =~= closed.push(text.subrange(0, 0)));
    }
    while i < n
        invariant
            text == record@,
            n == text.len(),
            start <= i <= n,
            keep == |piece: Seq<char>| piece.len() > 0,
            split(text.take(i as int), SEPARATOR) == closed.push(
                text.subrange(start as int, i as int),
            ),
            Seq::new(parts@.len(), |k: int| parts@[k]@) == closed.filter(keep),
        decreases n - i,
    {
        let c = record.get_char(i);
        proof {
            let next = text.take(i + 1);
            let head = split(text.take(i as int), SEPARATOR);
            assert(next.drop_last() =~= text.take(i as int));
            assert(next.last() == c);
            assert(head.last() == text.subrange(start as int, i as int));
            assert(head.drop_last() =~= closed);
        }
        if c == SEPARATOR {
            let ghost piece = text.subrange(start as int, i as int);
            proof {
                closed.lemma_filter_push(piece, keep);
            }
            if start < i {
                let ghost before = Seq::new(parts@.len(), |k: int| parts@[k]@);
                parts.push(record.substring_char(start, i).to_owned());
                assert(Seq::new(parts@.len(), |k: int| parts@[k]@) =~= before.push(piece));
            }
            proof {
                closed = closed.push(piece);
                assert(text.subrange(i + 1, i + 1) =~= Seq::<char>::empty());
            }
            start = i + 1;
        } else {
            proof {
                assert(text.subrange(start as int, i as int).push(c) =~= text.subrange(
                    start as int,
                    i + 1,
                ));
            }
        }
        i += 1;
    }
    let ghost piece = text.subrange(start as int, n as int);
    proof {
        assert(text.take(n as int) =~= text);
        closed.lemma_filter_push(piece, keep);
    }
    if start < n {
        let ghost before = Seq::new(parts@.len(), |k: int| parts@[k]@);
        parts.push(record.substring_char(start, n).to_owned());
        assert(Seq::new(parts@.len(), |k: int| parts@[k]@) =~= before.push(piece));
    }
    let path = FilePath { parts };
    assert(path@ =~= Seq::new(parts@.len(), |k: int| parts@[k]@));
    path
}

/// The paths that the records `rows` stand for in the store of `root`.
pub open spec fn paths_of(root: PathView, rows: Seq<Seq<char>>) -> Seq<PathView> {
    Seq::new(rows.len(), |i: int| path_of(root, rows[i]))
}

/// The texts of a list of records, in order.
pub open spec fn texts(rows: Seq<String>) -> Seq<Seq<char>> {
    Seq::new(rows.len(), |i: int| rows[i]@)
}

/// Whether the path at `i` was found on disk: `on_disk` says so for each
/// place, and says nothing of places beyond its end.
pub open spec fn found_on_disk(on_disk: Seq<bool>, i: int) -> bool {
    0 <= i < on_disk.len() && on_disk[i]
}

/// The paths of `paths` that were found on disk, each once, in the order in
/// which they first occur.
pub open spec fn existing(paths: Seq<PathView>, on_disk: Seq<bool>) -> Seq<PathView>
    decreases paths.len(),
{
    if paths.len() == 0 {
        Seq::empty()
    } else {
        let head = existing(paths.drop_last(), on_disk);
        if found_on_disk(on_disk, paths.len() - 1) && !head.contains(paths.last()) {
            head.push(paths.last())
        } else {
            head
        }
    }
}

/// What is listed is what some record stands for whose file was found on
/// disk, and nothing is listed twice.
pub proof fn lemma_existing(paths: Seq<PathView>, on_disk: Seq<bool>)
    ensures
        existing(paths, on_disk).no_duplicates(),
        forall|p: PathView| #[trigger]
            existing(paths, on_disk).contains(p) <==> exists|i: int|
                0 <= i < paths.len() && #[trigger] paths[i] == p && found_on_disk(on_disk, i),
    decreases paths.len(),
{
    let listed = existing(paths, on_disk);
    if paths.len() > 0 {
        let front = paths.drop_last();
        let head = existing(front, on_disk);
        let last = paths.len() - 1;
        lemma_existing(front, on_disk);
        assert forall|p: PathView| #[trigger]
            listed.contains(p) <==> exists|i: int|
                0 <= i < paths.len() && #[trigger] paths[i] == p && found_on_disk(
                    on_disk,
                    i,
                ) by {
            if listed.contains(p) {
                let k = choose|k: int| 0 <= k < listed.len() && listed[k] == p;
                if k < head.len() {
                    assert(head[k] == p);
                    assert(head.contains(p));
                    let i = choose|i: int|
                        0 <= i < front.len() && #[trigger] front[i] == p && found_on_disk(
                            on_disk,
                            i,
                        );
                    assert(paths[i] == p);
                } else {
                    assert(paths[last] == p);
                }
            }
            if exists|i: int|
                0 <= i < paths.len() && #[trigger] paths[i] == p && found_on_disk(on_disk, i) {
                let i = choose|i: int|
                    0 <= i < paths.len() && #[trigger] paths[i] == p && found_on_disk(on_disk, i);
                if i < last {
                    assert(front[i] == p);
                    assert(head.contains(p));
                    let k = choose|k: int| 0 <= k < head.len() && head[k] == p;
                    assert(listed[k] == p);
                } else if head.contains(p) {
                    let k = choose|k: int| 0 <= k < head.len() && head[k] == p;
                    assert(listed[k] == p);
                } else {
                    assert(listed[head.len() as int] == p);
                }
            }
        }
        if listed.len() > head.len() {
            assert forall|a: int, b: int|
                0 <= a < listed.len() && 0 <= b < listed.len() && a != b implies listed[a]
                != listed[b] by {
                if a < head.len() && b < head.len() {
                } else if a < head.len() {
                    assert(head.contains(head[a]));
                } else {
                    assert(head.contains(head[b]));
                }
            }
        }
    } else {
        assert forall|p: PathView| !(#[trigger] listed.contains(p)) by {}
    }
}

/// Splitting a text that ends in a run without separators: the run belongs
/// to the last piece.
pub proof fn lemma_split_append(text: Seq<char>, run: Seq<char>, sep: char)
    requires
        !run.contains(sep),
    ensures
        split(text, sep).len() > 0,
        split(text + run, sep) == split(text, sep).drop_last().push(
            split(text, sep).last() + run,
        ),
    decreases run.len(), text.len(),
{
    let pieces = split(text, sep);
    if text.len() > 0 {
        lemma_split_append(text.drop_last(), Seq::empty(), sep);
    }
    if run.len() == 0 {
        assert(text + run =~= text);
        assert(pieces.last() + run =~= pieces.last());
        assert(pieces.drop_last().push(pieces.last()) =~= pieces);
    } else {
        let front = run.drop_last();
        assert forall|i: int| 0 <= i < front.len() implies front[i] != sep by {
            assert(run[i] == front[i]);
            assert(run.contains(run[i]));
        }
        assert(run.contains(run.last()));
        lemma_split_append(text, front, sep);
        assert((text + run).drop_last() =~= text + front);
        assert((text + run).last() == run.last());
        assert((pieces.last() + front).push(run.last()) =~= pieces.last() + run);
        let before = split(text + front, sep);
        assert(before.drop_last() =~= pieces.drop_last());
    }
}

/// Splitting what was joined gives the parts back, where there is at least
/// one part and none holds the separator.
pub proof fn lemma_split_joined(parts: Seq<Seq<char>>, sep: char)
    requires
        parts.len() > 0,
        forall|i: int| 0 <= i < parts.len() ==> !(#[trigger] parts[i]).contains(sep),
    ensures
        split(joined(parts, seq![sep]), sep) == parts,
    decreases parts.len(),
{
    if parts.len() == 1 {
        lemma_split_append(Seq::empty(), parts[0], sep);
        assert(Seq::<char>::empty() + parts[0] =~= parts[0]);
        assert(split(Seq::<char>::empty(), sep).drop_last().push(
            split(Seq::<char>::empty(), sep).last() + parts[0],
        ) =~= parts);
    } else {
        let front = parts.drop_last();
        let text = joined(front, seq![sep]);
        assert forall|i: int| 0 <= i < front.len() implies !(#[trigger] front[i]).contains(
            sep,
        ) by {
            assert(front[i] == parts[i]);
        }
        lemma_split_joined(front, sep);
        let marked = text + seq![sep];
        assert(marked.drop_last() =~= text);
        assert(split(marked, sep) == front.push(Seq::empty()));
        lemma_split_append(marked, parts.last(), sep);
        assert(front.push(Seq::<char>::empty()).drop_last() =~= front);
        assert(Seq::<char>::empty() + parts.last() =~= parts.last());
        assert(front.push(parts.last()) =~= parts);
    }
}

/// Pieces of which none is empty all stay.
pub proof fn lemma_non_empty_keeps_all(pieces: Seq<Seq<char>>)
    requires
        forall|i: int| 0 <= i < pieces.len() ==> (#[trigger] pieces[i]).len() > 0,
    ensures
        non_empty(pieces) == pieces,
    decreases pieces.len(),
{
    reveal(Seq::filter);
    if pieces.len() > 0 {
        let front = pieces.drop_last();
        assert forall|i: int| 0 <= i < front.len() implies (#[trigger] front[i]).len() > 0 by {
            assert(front[i] == pieces[i]);
        }
        lemma_non_empty_keeps_all(front);
        assert(front.push(pieces.last()) =~= pieces);
    }
}

/// A path in the folder comes back from its record: decoding what was
/// encoded gives the path again, where none of its components below the
/// folder is empty or holds a tab.
pub proof fn lemma_record_round_trip(root: PathView, path: PathView)
    requires
        is_under(path, root),
        forall|i: int| root.len() <= i < path.len() ==> plain_component(#[trigger] path[i]),
    ensures
        path_of(root, record_of(root, path)) == path,
{
    let below = path.skip(root.len() as int);
    assert(root + below =~= path);
    if below.len() == 0 {
        let none = Seq::<Seq<char>>::empty();
        let keep = |piece: Seq<char>| piece.len() > 0;
        none.lemma_filter_push(Seq::<char>::empty(), keep);
        assert(split(Seq::<char>::empty(), SEPARATOR) =~= none.push(Seq::<char>::empty()));
        reveal(Seq::filter);
        assert(none.filter(keep) =~= none);
    } else {
        assert forall|i: int| 0 <= i < below.len() implies !(#[trigger] below[i]).contains(
            SEPARATOR,
        ) && below[i].len() > 0 by {
            assert(below[i] == path[i + root.len()]);
        }
        lemma_split_joined(below, SEPARATOR);
        lemma_non_empty_keeps_all(below);
    }
}

/// A favourite is listed as long as its record is among the rows and its
/// file is on disk, and is not listed once no row that stands for it has its
/// file on disk: after its record was deleted, or after its file was.
pub proof fn lemma_favourite_round_trip(
    root: PathView,
    path: PathView,
    rows: Seq<Seq<char>>,
    on_disk: Seq<bool>,
)
    requires
        is_under(path, root),
        forall|i: int| root.len() <= i < path.len() ==> plain_component(#[trigger] path[i]),
    ensures
        (exists|i: int|
            0 <= i < rows.len() && #[trigger] rows[i] == record_of(root, path) && found_on_disk(
                on_disk,
                i,
            )) ==> existing(paths_of(root, rows), on_disk).contains(path),
        (forall|i: int|
            0 <= i < rows.len() && path_of(root, #[trigger] rows[i]) == path ==> !found_on_disk(
                on_disk,
                i,
            )) ==> !existing(paths_of(root, rows), on_disk).contains(path),
{
    let paths = paths_of(root, rows);
    lemma_record_round_trip(root, path);
    lemma_existing(paths, on_disk);
    if exists|i: int|
        0 <= i < rows.len() && #[trigger] rows[i] == record_of(root, path) && found_on_disk(
            on_disk,
            i,
        ) {
        let i = choose|i: int|
            0 <= i < rows.len() && #[trigger] rows[i] == record_of(root, path) && found_on_disk(
                on_disk,
                i,
            );
        assert(paths[i] == path);
    }
    if existing(paths, on_disk).contains(path) {
        let i = choose|i: int|
            0 <= i < paths.len() && #[trigger] paths[i] == path && found_on_disk(on_disk, i);
        assert(path_of(root, rows[i]) == path);
    }
}

impl DB {
    /// The paths that the records `rows` stand for, in order. An error when
    /// the store is not open.
    pub fn candidates(&self, rows: &Vec<String>) -> (paths: Result<Vec<FilePath>, StoreError>)
        ensures
            match self.refusal() {
                Some(error) => paths == Err::<Vec<FilePath>, StoreError>(error),
                None => paths.is_ok() && views(paths.unwrap()@) == paths_of(
                    self.folder(),
                    texts(rows@),
                ),
            },
    {
        if let Err(error) = self.check_open() {
            return Err(error);
        }
        let mut paths: Vec<FilePath> = Vec::new();
        let mut i: usize = 0;
        while i < rows.len()
            invariant
                i <= rows.len(),
                paths@.len() == i,
                forall|j: int| 0 <= j < i ==> paths@[j]@ == path_of(self.folder(), rows@[j]@),
            decreases rows.len() - i,
        {
            paths.push(self.decode(rows[i].as_str()));
            i += 1;
        }
        assert(views(paths@) =~= paths_of(self.folder(), texts(rows@)));
        Ok(paths)
    }

    /// The favourites that are still there: the paths that the records
    /// `rows` stand for, without those whose file was not found on disk.
    /// `on_disk` says of each row whether the file of its path was found. An
    /// error when the store is not open.
    pub fn get_all(&self, rows: &Vec<String>, on_disk: &Vec<bool>) -> (favourites: Result<
        PathSet,
        StoreError,
    >)
        ensures
            match self.refusal() {
                Some(error) => favourites.is_err() && favourites.unwrap_err() == error,
                None => favourites.is_ok() && favourites.unwrap()@ == existing(
                    paths_of(self.folder(), texts(rows@)),
                    on_disk@,
                ),
            },
    {
        if let Err(error) = self.check_open() {
            return Err(error);
        }
        let ghost paths = paths_of(self.folder(), texts(rows@));
        let mut favourites = PathSet::new();
        let mut i: usize = 0;
        assert(paths.take(0) =~= Seq::<PathView>::empty());
        while i < rows.len()
            invariant
                i <= rows.len(),
                paths == paths_of(self.folder(), texts(rows@)),
                favourites@ == existing(paths.take(i as int), on_disk@),
            decreases rows.len() - i,
        {
            proof {
                let next = paths.take(i + 1);
                assert(next.drop_last() =~= paths.take(i as int));
                assert(next.last() == path_of(self.folder(), rows@[i as int]@));
            }
            if i < on_disk.len() && on_disk[i] {
                let path = self.decode(rows[i].as_str());
                let _ = favourites.insert(path);
            }
            i += 1;
        }
        assert(paths.take(rows.len() as int) =~= paths);
        Ok(favourites)
    }
}

/// What a change of favourites asks of the store.
#[derive(Debug, PartialEq, Eq)]
pub enum FavouriteChange {
    /// The path became a favourite: this record is to be written.
    Added(String),
    /// The path is a favourite no more: this record is to be deleted.
    Removed(String),
}

/// Makes `img_path` a favourite if it is none, and ends its being one if it
/// is. The answer names the record that the store is to write or to delete.
/// Where the store is not open, or the path does not lie in its folder, the
/// favourites stay as they are and the error says why.
pub fn add_to_favourites(favourites: &mut PathSet, db: &DB, img_path: &FilePath) -> (change:
    Result<FavouriteChange, StoreError>)
    ensures
        match db.record_answer(img_path@) {
            Err(error) => {
                &&& change.is_err() && change.unwrap_err() == error
                &&& final(favourites)@ == old(favourites)@
            },
            Ok(text) => match first_index_of(old(favourites)@, img_path@) {
                None => {
                    &&& change matches Ok(FavouriteChange::Added(record)) && record@ == text
                    &&& final(favourites)@ == old(favourites)@.push(img_path@)
                },
                Some(i) => {
                    &&& change matches Ok(FavouriteChange::Removed(record)) && record@ == text
                    &&& final(favourites)@ == old(favourites)@.remove(i)
                    &&& !final(favourites)@.contains(img_path@)
                },
            },
        },
{
    proof {
        lemma_first_index_of(favourites@, img_path@);
    }
    if !favourites.contains(img_path) {
        match db.insert(img_path) {
            Ok(record) => {
                let _ = favourites.insert(img_path.clone());
                Ok(FavouriteChange::Added(record))
            },
            Err(error) => Err(error),
        }
    } else {
        match db.delete(img_path) {
            Ok(record) => {
                let _ = favourites.remove(img_path);
                Ok(FavouriteChange::Removed(record))
            },
            Err(error) => Err(error),
        }
    }
}

} // verus!
