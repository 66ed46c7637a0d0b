//! The ordered list of the files of a folder and the cursor that moves
//! through it.

use vstd::prelude::*;
use rand::seq::SliceRandom;
use crate::interleave::{insert_after_every, interleaved, lemma_interleaved_is_permutation};
use crate::natural::{sort_by_name, sorted_by_name};
use crate::path::{views, FilePath, PathView};
use crate::pathset::{clone_list, first_index_of, lemma_first_index_of, position_of, PathSet};

verus! {

/// Calls `rand::seq::SliceRandom::shuffle` on the list, with the generator
/// that `rand::thread_rng` hands out. The shuffle only swaps elements, so
/// whatever the generator yields, the list holds the same paths afterwards,
/// each as often as before.
#[verifier::external_body]
fn shuffle_paths(paths: &mut Vec<FilePath>)
    ensures
        views(final(paths)@).to_multiset() == views(old(paths)@).to_multiset(),
{
    let mut rng = rand::thread_rng();
    paths.shuffle(&mut rng);
}

/// Whether `ordered` is an ordering of `entries` that `order` may return:
/// always a rearrangement, and the natural sort unless a shuffle was asked
/// for.
pub open spec fn is_ordering_of(
    ordered: Seq<PathView>,
    entries: Seq<PathView>,
    randomize: bool,
) -> bool {
    &&& ordered.to_multiset() == entries.to_multiset()
    &&& !randomize ==> ordered == sorted_by_name(entries)
}

/// Puts the entries in order: shuffled when `randomize` is set, else sorted
/// by file name in natural order.
pub fn order(entries: Vec<FilePath>, randomize: bool) -> (ordered: Vec<FilePath>)
    ensures
        is_ordering_of(views(ordered@), views(entries@), randomize),
{
    if randomize {
        let mut ordered = entries;
        shuffle_paths(&mut ordered);
        ordered
    } else {
        sort_by_name(&entries)
    }
}

/// The members of an optional set of favourites, none for no set.
pub open spec fn favourites_of(favourites: Option<PathSet>) -> Seq<PathView> {
    match favourites {
        Some(set) => set@,
        None => Seq::empty(),
    }
}

/// Whether `listed` is a list that `get_image_filenames_for_directory` may
/// return for the files `dir_files`: the files in order, with the favourites
/// in their own order woven in where a spacing is set.
pub open spec fn is_listing_of(
    listed: Seq<PathView>,
    dir_files: Seq<PathView>,
    favourites: Seq<PathView>,
    randomize: bool,
    every: nat,
) -> bool {
    exists|files: Seq<PathView>, favs: Seq<PathView>|
        #![trigger interleaved(files, favs, every)]
        {
            &&& is_ordering_of(files, dir_files, randomize)
            &&& is_ordering_of(favs, favourites, randomize)
            &&& listed == interleaved(files, favs, every)
        }
}

/// Orders the files found in a folder: shuffled or sorted by name, and, where
/// `intersperse_with_favs_every_n` is not zero, with the favourites taken out
/// and woven back in at that spacing.
pub fn get_image_filenames_for_directory(
    dir_files: Vec<FilePath>,
    randomize: bool,
    favourites: &Option<PathSet>,
    intersperse_with_favs_every_n: usize,
) -> (listed: Vec<FilePath>)
    ensures
        is_listing_of(
            views(listed@),
            views(dir_files@),
            favourites_of(*favourites),
            randomize,
            intersperse_with_favs_every_n as nat,
        ),
        !randomize ==> views(listed@) == interleaved(
            sorted_by_name(views(dir_files@)),
            sorted_by_name(favourites_of(*favourites)),
            intersperse_with_favs_every_n as nat,
        ),
{
    let favourites_vec = match favourites {
        Some(set) => clone_list(set.as_list()),
        None => {
            let none: Vec<FilePath> = Vec::new();
            assert(views(none@) =~= Seq::<PathView>::empty());
            none
        },
    };
    let files = order(dir_files, randomize);
    let favs = order(favourites_vec, randomize);
    let ghost files_view = views(files@);
    let ghost favs_view = views(favs@);
    let listed = insert_after_every(files, favs, intersperse_with_favs_every_n);
    assert(views(listed@) == interleaved(
        files_view,
        favs_view,
        intersperse_with_favs_every_n as nat,
    ));
    listed
}

/// Why no first image could be named.
#[derive(Debug, Clone, Copy, PartialEq, Eq, Structural)]
pub enum FolderError {
    /// The path is no folder.
    NotAFolder,
    /// The folder holds no supported image.
    NoImages,
}

/// The first image of a folder in natural order. `is_dir` says whether the
/// path is a folder, `dir_files` holds the supported files found in it.
pub fn find_first_image_in_directory(is_dir: bool, dir_files: Vec<FilePath>) -> (first: Result<
    FilePath,
    FolderError,
>)
    ensures
        match first {
            Ok(path) => is_dir && dir_files@.len() > 0 && path@ == sorted_by_name(
                views(dir_files@),
            )[0],
            Err(FolderError::NotAFolder) => !is_dir,
            Err(FolderError::NoImages) => is_dir && dir_files@.len() == 0,
        },
{
    if !is_dir {
        return Err(FolderError::NotAFolder);
    }
    let ghost files = views(dir_files@);
    let listed = get_image_filenames_for_directory(dir_files, false, &None, 0);
    proof {
        crate::natural::lemma_sorted_len(files);
        crate::natural::lemma_sorted_len(Seq::<PathView>::empty());
    }
    if listed.len() == 0 {
        Err(FolderError::NoImages)
    } else {
        Ok(listed[0].clone())
    }
}

/// The ordered entries of a folder, the cursor into them, and the
/// favourites that are shown and woven in.
#[derive(Debug)]
pub struct Scrubber {
    /// The cursor: the place of the current entry.
    pub index: usize,
    /// The entries in order.
    pub entries: Vec<FilePath>,
    /// Whether stepping past either end goes on at the other.
    pub wrap: bool,
    /// The paths marked as favourites.
    pub favourites: PathSet,
}

/// The cursor after one step forward in a list of `len` entries.
pub open spec fn next_index(len: nat, index: nat, wrap: bool) -> nat {
    if len == 0 {
        0
    } else if index + 1 >= len {
        if wrap {
            0
        } else {
            (len - 1) as nat
        }
    } else {
        index + 1
    }
}

/// The cursor after one step back in a list of `len` entries.
pub open spec fn prev_index(len: nat, index: nat, wrap: bool) -> nat {
    if index == 0 {
        if wrap && len > 0 {
            (len - 1) as nat
        } else {
            0
        }
    } else {
        (index - 1) as nat
    }
}

/// The cursor after `steps` steps forward.
pub open spec fn next_index_after(len: nat, index: nat, wrap: bool, steps: nat) -> nat
    decreases steps,
{
    if steps == 0 {
        index
    } else {
        next_index(len, next_index_after(len, index, wrap, (steps - 1) as nat), wrap)
    }
}

/// The cursor after the first entry equal to `path` has left a list in which
/// it stood at `at`: one less when the entry stood at or before the cursor,
/// but never below the start.
pub open spec fn index_after_removal(index: nat, at: nat) -> nat {
    if at <= index && index > 0 {
        (index - 1) as nat
    } else {
        index
    }
}

impl Scrubber {
    /// The entries, as the list of their models.
    pub open spec fn list(&self) -> Seq<PathView> {
        views(self.entries@)
    }

    /// Whether the cursor is in range: inside a list that has entries, at the
    /// start of one that has none.
    pub open spec fn wf(&self) -> bool {
        if self.entries@.len() == 0 {
            self.index == 0
        } else {
            self.index < self.entries@.len()
        }
    }

    /// The entry at the cursor; the empty path where the cursor is out of
    /// range.
    pub open spec fn current(&self) -> PathView {
        if self.index < self.entries@.len() {
            self.entries@[self.index as int]@
        } else {
            Seq::empty()
        }
    }

    /// A copy of the entry at the cursor.
    fn entry_at_cursor(&self) -> (entry: FilePath)
        ensures
            entry@ == self.current(),
    {
        if self.index < self.entries.len() {
            self.entries[self.index].clone()
        } else {
            FilePath::empty()
        }
    }

    /// The scrubber for the files `dir_files` of a folder: ordered as
    /// `get_image_filenames_for_directory` orders them, the cursor on the
    /// first entry equal to `path` or else on the first of all, wrapping on.
    pub fn new(
        dir_files: Vec<FilePath>,
        path: &FilePath,
        randomize: bool,
        favourites: Option<PathSet>,
        intersperse_with_favs_every_n: usize,
    ) -> (scrubber: Self)
        ensures
            scrubber.wf(),
            scrubber.wrap,
            scrubber.favourites@ == favourites_of(favourites),
            is_listing_of(
                scrubber.list(),
                views(dir_files@),
                favourites_of(favourites),
                randomize,
                intersperse_with_favs_every_n as nat,
            ),
            !randomize ==> scrubber.list() == interleaved(
                sorted_by_name(views(dir_files@)),
                sorted_by_name(favourites_of(favourites)),
                intersperse_with_favs_every_n as nat,
            ),
            scrubber.index == match first_index_of(scrubber.list(), path@) {
                Some(i) => i,
                None => 0,
            },
    {
        let entries = get_image_filenames_for_directory(
            dir_files,
            randomize,
            &favourites,
            intersperse_with_favs_every_n,
        );
        proof {
            lemma_first_index_of(views(entries@), path@);
        }
        let index = match position_of(&entries, path) {
            Some(i) => i,
            None => 0,
        };
        let favourites_out = match favourites {
            Some(set) => set,
            None => PathSet::new(),
        };
        Scrubber { index, entries, wrap: true, favourites: favourites_out }
    }

    /// The scrubber over the given entries as they stand, the cursor on the
    /// first, wrapping on, without favourites.
    pub fn new_from_entries(entries: Vec<FilePath>) -> (scrubber: Self)
        ensures
            scrubber.wf(),
            scrubber.wrap,
            scrubber.index == 0,
            scrubber.entries == entries,
            scrubber.favourites@ == Seq::<PathView>::empty(),
    {
        Scrubber { index: 0, entries, wrap: true, favourites: PathSet::new() }
    }

    /// Steps forward: past the last entry the cursor goes to the first when
    /// wrapping, else it stays on the last. Returns the entry then current,
    /// the empty path when there are no entries.
    pub fn next(&mut self) -> (entry: FilePath)
        ensures
            final(self).index == next_index(
                old(self).entries@.len(),
                old(self).index as nat,
                old(self).wrap,
            ),
            final(self).entries == old(self).entries,
            final(self).wrap == old(self).wrap,
            final(self).favourites == old(self).favourites,
            final(self).wf(),
            entry@ == final(self).current(),
    {
        let len = self.entries.len();
        if len == 0 {
            self.index = 0;
        } else if self.index >= len - 1 {
            if self.wrap {
                self.index = 0;
            } else {
                self.index = len - 1;
            }
        } else {
            self.index = self.index + 1;
        }
        self.entry_at_cursor()
    }

    /// Steps back: before the first entry the cursor goes to the last when
    /// wrapping, else it stays on the first. Returns the entry then current,
    /// the empty path when there is none.
    pub fn prev(&mut self) -> (entry: FilePath)
        ensures
            final(self).index == prev_index(
                old(self).entries@.len(),
                old(self).index as nat,
                old(self).wrap,
            ),
            final(self).entries == old(self).entries,
            final(self).wrap == old(self).wrap,
            final(self).favourites == old(self).favourites,
            old(self).wf() ==> final(self).wf(),
            entry@ == final(self).current(),
    {
        if self.index == 0 {
            if self.wrap && self.entries.len() > 0 {
                self.index = self.entries.len() - 1;
            }
        } else {
            self.index = self.index - 1;
        }
        self.entry_at_cursor()
    }

    /// Moves the cursor to `index` where that is a place in the list, and
    /// leaves it where it is otherwise. Returns the entry then current.
    pub fn set(&mut self, index: usize) -> (entry: FilePath)
        ensures
            final(self).index == if index < old(self).entries@.len() {
                index
            } else {
                old(self).index
            },
            final(self).entries == old(self).entries,
            final(self).wrap == old(self).wrap,
            final(self).favourites == old(self).favourites,
            old(self).wf() ==> final(self).wf(),
            entry@ == final(self).current(),
    {
        if index < self.entries.len() {
            self.index = index;
        }
        self.entry_at_cursor()
    }

    /// A copy of the entry at `index`, if there is one.
    pub fn get(&mut self, index: usize) -> (entry: Option<FilePath>)
        ensures
            *final(self) == *old(self),
            match entry {
                Some(path) => index < old(self).entries@.len() && path@ == old(
                    self,
                ).entries@[index as int]@,
                None => index >= old(self).entries@.len(),
            },
    {
        if index < self.entries.len() {
            Some(self.entries[index].clone())
        } else {
            None
        }
    }

    /// The number of entries.
    pub fn len(&mut self) -> (n: usize)
        ensures
            *final(self) == *old(self),
            n == old(self).entries@.len(),
    {
        self.entries.len()
    }

    /// Takes the first entry equal to `path` out of the list. Where it stood
    /// at or before the cursor, the cursor moves one back, unless it is at
    /// the start already. Without such an entry nothing changes. Returns
    /// whether an entry left.
    pub fn remove(&mut self, path: &FilePath) -> (removed: bool)
        ensures
            removed == old(self).list().contains(path@),
            match first_index_of(old(self).list(), path@) {
                Some(at) => {
                    &&& final(self).list() == old(self).list().remove(at)
                    &&& final(self).index == index_after_removal(old(self).index as nat, at as nat)
                },
                None => {
                    &&& final(self).entries == old(self).entries
                    &&& final(self).index == old(self).index
                },
            },
            final(self).wrap == old(self).wrap,
            final(self).favourites == old(self).favourites,
            old(self).wf() ==> final(self).wf(),
    {
        let ghost before = views(self.entries@);
        proof {
            lemma_first_index_of(before, path@);
        }
        match position_of(&self.entries, path) {
            Some(at) => {
                let _ = self.entries.remove(at);
                assert(views(self.entries@) =~= before.remove(at as int));
                if at <= self.index && self.index > 0 {
                    self.index = self.index - 1;
                }
                true
            },
            None => false,
        }
    }

    /// Builds the list anew from the entries and the favourites as they are
    /// now: the favourites leave their places and are woven back in at the
    /// given spacing. The cursor keeps its number and does not follow the
    /// entry it stood on.
    pub fn re_initialize(&mut self, intersperse_with_favs_every_n: usize)
        ensures
            final(self).list() == interleaved(
                old(self).list(),
                old(self).favourites@,
                intersperse_with_favs_every_n as nat,
            ),
            final(self).index == old(self).index,
            final(self).wrap == old(self).wrap,
            final(self).favourites == old(self).favourites,
            old(self).list().no_duplicates() ==> {
                &&& final(self).list().to_multiset() == old(self).list().to_multiset()
                &&& final(self).list().no_duplicates()
                &&& old(self).wf() ==> final(self).wf()
            },
    {
        let favourites_vec = clone_list(self.favourites.as_list());
        proof {
            if self.list().no_duplicates() {
                lemma_interleaved_is_permutation(
                    self.list(),
                    self.favourites@,
                    intersperse_with_favs_every_n as nat,
                );
            }
        }
        let mut entries: Vec<FilePath> = Vec::new();
        core::mem::swap(&mut self.entries, &mut entries);
        self.entries = insert_after_every(entries, favourites_vec, intersperse_with_favs_every_n);
    }
}

impl Default for Scrubber {
    /// The scrubber without entries or favourites, the cursor at the start,
    /// wrapping off.
    fn default() -> (scrubber: Self)
        ensures
            scrubber.wf(),
            scrubber.index == 0,
            scrubber.entries@.len() == 0,
            !scrubber.wrap,
            scrubber.favourites@ == Seq::<PathView>::empty(),
    {
        Scrubber { index: 0, entries: Vec::new(), wrap: false, favourites: PathSet::new() }
    }
}

/// With wrapping on, `steps` steps forward from a cursor in range lead to the
/// place `steps` further on, counted round the list.
pub proof fn lemma_next_index_wrapping(len: nat, index: nat, steps: nat)
    requires
        index < len,
    ensures
        next_index_after(len, index, true, steps) == (index + steps) % len,
    decreases steps,
{
    if steps == 0 {
        assert(index % len == index) by (nonlinear_arith)
            requires
                index < len,
        ;
    } else {
        let before = (steps - 1) as nat;
        lemma_next_index_wrapping(len, index, before);
        let at = (index + before) % len;
        assert(at < len && (index + steps) % len == if at + 1 >= len {
            0
        } else {
            at + 1
        }) by (nonlinear_arith)
            requires
                at == (index + before) % len,
                steps == before + 1,
                len > 0,
        ;
    }
}

/// With wrapping on, as many steps forward as the list has entries lead back
/// to the entry from which they set out.
pub proof fn lemma_next_round_trip(len: nat, index: nat)
    requires
        index < len,
    ensures
        next_index_after(len, index, true, len) == index,
{
    lemma_next_index_wrapping(len, index, len);
    assert((index + len) % len == index) by (nonlinear_arith)
        requires
            index < len,
    ;
}

/// With wrapping off, steps forward from a cursor in range stop on the last
/// entry: after `steps` steps the cursor is `steps` further on, or on the
/// last entry if that comes first.
pub proof fn lemma_next_index_clamping(len: nat, index: nat, steps: nat)
    requires
        index < len,
    ensures
        next_index_after(len, index, false, steps) == if index + steps < len {
            index + steps
        } else {
            (len - 1) as nat
        },
    decreases steps,
{
    if steps > 0 {
        lemma_next_index_clamping(len, index, (steps - 1) as nat);
    }
}

} // verus!
