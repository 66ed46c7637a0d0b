//! Lists and sets of paths.

use vstd::prelude::*;
use crate::path::{views, FilePath, PathView};

verus! {

/// The first place at which `needle` stands in `list`, if it stands there at
/// all.
pub open spec fn first_index_of(list: Seq<PathView>, needle: PathView) -> Option<int>
    decreases list.len(),
{
    if list.len() == 0 {
        None
    } else if list[0] == needle {
        Some(0)
    } else {
        match first_index_of(list.drop_first(), needle) {
            Some(i) => Some(i + 1),
            None => None,
        }
    }
}

/// `first_index_of` finds the first occurrence, and finds nothing exactly
/// when there is none.
pub proof fn lemma_first_index_of(list: Seq<PathView>, needle: PathView)
    ensures
        match first_index_of(list, needle) {
            Some(i) => 0 <= i < list.len() && list[i] == needle && forall|j: int|
                0 <= j < i ==> list[j] != needle,
            None => !list.contains(needle),
        },
    decreases list.len(),
{
    if list.len() > 0 && list[0] != needle {
        let tail = list.drop_first();
        lemma_first_index_of(tail, needle);
        match first_index_of(tail, needle) {
            Some(i) => {
                assert forall|j: int| 0 <= j < i + 1 implies list[j] != needle by {
                    if j > 0 {
                        assert(tail[j - 1] == list[j]);
                    }
                }
            },
            None => {
                assert forall|j: int| 0 <= j < list.len() implies list[j] != needle by {
                    if j > 0 {
                        assert(tail[j - 1] == list[j]);
                        assert(tail.contains(list[j]));
                    }
                }
            },
        }
    }
}

/// The first index at which `needle` stands in `list`.
pub fn position_of(list: &Vec<FilePath>, needle: &FilePath) -> (found: Option<usize>)
    ensures
        match found {
            Some(i) => first_index_of(views(list@), needle@) == Some(i as int),
            None => first_index_of(views(list@), needle@).is_none(),
        },
{
    let mut i: usize = 0;
    while i < list.len()
        invariant
            i <= list.len(),
            forall|j: int| 0 <= j < i ==> list@[j]@ != needle@,
        decreases list.len() - i,
    {
        if list[i].same(needle) {
            proof {
                lemma_first_index_of(views(list@), needle@);
                let first = first_index_of(views(list@), needle@).unwrap();
                assert(views(list@)[i as int] == needle@);
                assert(views(list@)[first] == list@[first]@);
            }
            return Some(i);
        }
        i += 1;
    }
    proof {
        lemma_first_index_of(views(list@), needle@);
        if let Some(first) = first_index_of(views(list@), needle@) {
            assert(views(list@)[first] == list@[first]@);
        }
    }
    None
}

/// Whether `needle` stands somewhere in `list`.
pub fn list_contains(list: &Vec<FilePath>, needle: &FilePath) -> (found: bool)
    ensures
        found == views(list@).contains(needle@),
{
    let at = position_of(list, needle);
    proof {
        lemma_first_index_of(views(list@), needle@);
    }
    at.is_some()
}

/// A copy of a list of paths.
pub fn clone_list(list: &Vec<FilePath>) -> (copy: Vec<FilePath>)
    ensures
        views(copy@) == views(list@),
{
    let mut copy: Vec<FilePath> = Vec::new();
    let mut i: usize = 0;
    while i < list.len()
        invariant
            i <= list.len(),
            copy@.len() == i,
            forall|j: int| 0 <= j < i ==> copy@[j]@ == list@[j]@,
        decreases list.len() - i,
    {
        copy.push(list[i].clone());
        i += 1;
    }
    assert(views(copy@) =~= views(list@));
    copy
}

/// A set of paths that remembers the order in which its members came.
#[derive(Debug)]
pub struct PathSet {
    items: Vec<FilePath>,
}

impl View for PathSet {
    type V = Seq<PathView>;

    /// The members, oldest first.
    closed spec fn view(&self) -> Seq<PathView> {
        views(self.items@)
    }
}

impl PathSet {
    #[verifier::type_invariant]
    spec fn distinct(&self) -> bool {
        views(self.items@).no_duplicates()
    }

    /// The set without members.
    pub fn new() -> (set: Self)
        ensures
            set@ == Seq::<PathView>::empty(),
    {
        let set = PathSet { items: Vec::new() };
        assert(views(set.items@) =~= Seq::<PathView>::empty());
        set
    }

    /// The set of the paths in `list`; of a path that occurs several times
    /// the first occurrence counts.
    pub fn from_list(list: &Vec<FilePath>) -> (set: Self)
        ensures
            set@.no_duplicates(),
            forall|p: PathView| set@.contains(p) <==> views(list@).contains(p),
            views(list@).no_duplicates() ==> set@ == views(list@),
    {
        let mut items: Vec<FilePath> = Vec::new();
        let mut i: usize = 0;
        assert(views(items@) =~= Seq::<PathView>::empty());
        while i < list.len()
            invariant
                i <= list.len(),
                views(items@).no_duplicates(),
                forall|p: PathView|
                    #![trigger views(items@).contains(p)]
                    #![trigger views(list@).take(i as int).contains(p)]
                    views(items@).contains(p) <==> views(list@).take(i as int).contains(p),
                views(list@).no_duplicates() ==> views(items@) == views(list@).take(i as int),
            decreases list.len() - i,
        {
            let ghost before = views(items@);
            let ghost head = views(list@).take(i as int);
            let ghost next = views(list@).take(i + 1);
            assert(next =~= head.push(list@[i as int]@));
            if !list_contains(&items, &list[i]) {
                items.push(list[i].clone());
                assert(views(items@) =~= before.push(list@[i as int]@));
            } else {
                proof {
                    assert(head.contains(list@[i as int]@));
                    if views(list@).no_duplicates() {
                        let k = choose|k: int| 0 <= k < head.len() && head[k] == list@[i as int]@;
                        assert(views(list@)[k] == views(list@)[i as int]);
                    }
                }
            }
            assert forall|p: PathView| views(items@).contains(p) <==> next.contains(p) by {
                if views(items@).contains(p) {
                    let k = choose|k: int| 0 <= k < items@.len() && views(items@)[k] == p;
                    if k < before.len() {
                        assert(before[k] == p);
                        assert(before.contains(p));
                        let m = choose|m: int| 0 <= m < head.len() && head[m] == p;
                        assert(next[m] == p);
                    } else {
                        assert(next[i as int] == p);
                    }
                }
                if next.contains(p) {
                    let m = choose|m: int| 0 <= m < next.len() && next[m] == p;
                    if m < i {
                        assert(head[m] == p);
                        assert(head.contains(p));
                        let k = choose|k: int| 0 <= k < before.len() && before[k] == p;
                        assert(views(items@)[k] == p);
                    } else if views(items@).len() > before.len() {
                        assert(views(items@)[before.len() as int] == p);
                    } else {
                        assert(before.contains(p));
                    }
                }
            }
            i += 1;
        }
        assert(views(list@).take(list.len() as int) =~= views(list@));
        PathSet { items }
    }

    /// Moves the members out and leaves the set empty.
    fn take_items(&mut self) -> (items: Vec<FilePath>)
        ensures
            items == old(self).items,
            final(self).items@.len() == 0,
    {
        let mut taken = PathSet { items: Vec::new() };
        assert(views(taken.items@) =~= Seq::<PathView>::empty());
        core::mem::swap(self, &mut taken);
        taken.items
    }

    /// Whether `path` is a member.
    pub fn contains(&self, path: &FilePath) -> (found: bool)
        ensures
            found == self@.contains(path@),
    {
        list_contains(&self.items, path)
    }

    /// The number of members.
    pub fn len(&self) -> (n: usize)
        ensures
            n == self@.len(),
    {
        self.items.len()
    }

    /// The members in the order in which they came; none occurs twice.
    pub fn as_list(&self) -> (list: &Vec<FilePath>)
        ensures
            views(list@) == self@,
            self@.no_duplicates(),
    {
        proof {
            use_type_invariant(self);
        }
        &self.items
    }

    /// Makes `path` a member. Returns whether it was none before; a path that
    /// is a member already keeps its place.
    pub fn insert(&mut self, path: FilePath) -> (added: bool)
        ensures
            added == !old(self)@.contains(path@),
            final(self)@ == if added {
                old(self)@.push(path@)
            } else {
                old(self)@
            },
    {
        proof {
            use_type_invariant(&*self);
        }
        if list_contains(&self.items, &path) {
            false
        } else {
            let ghost before = views(self.items@);
            let mut items = self.take_items();
            items.push(path);
            proof {
                assert(views(items@) =~= before.push(path@));
                assert forall|i: int, j: int|
                    0 <= i < before.len() + 1 && 0 <= j < before.len() + 1 && i != j implies before.push(
                    path@,
                )[i] != before.push(path@)[j] by {
                    if i < before.len() && j < before.len() {
                    } else if i < before.len() {
                        assert(before.contains(before[i]));
                    } else {
                        assert(before.contains(before[j]));
                    }
                }
            }
            *self = PathSet { items };
            true
        }
    }

    /// Ends the membership of `path`. Returns whether it was a member; the
    /// other members keep their order.
    pub fn remove(&mut self, path: &FilePath) -> (removed: bool)
        ensures
            removed == old(self)@.contains(path@),
            final(self)@ == match first_index_of(old(self)@, path@) {
                Some(i) => old(self)@.remove(i),
                None => old(self)@,
            },
            !final(self)@.contains(path@),
    {
        proof {
            use_type_invariant(&*self);
            lemma_first_index_of(views(self.items@), path@);
        }
        let ghost before = views(self.items@);
        match position_of(&self.items, path) {
            Some(i) => {
                let mut items = self.take_items();
                let _ = items.remove(i);
                proof {
                    let after = views(items@);
                    assert(after =~= before.remove(i as int));
                    assert forall|a: int, b: int|
                        0 <= a < after.len() && 0 <= b < after.len() && a != b implies after[a]
                        != after[b] by {
                        let a0 = if a < i { a } else { a + 1 };
                        let b0 = if b < i { b } else { b + 1 };
                        assert(after[a] == before[a0] && after[b] == before[b0]);
                    }
                    assert forall|a: int| 0 <= a < after.len() implies after[a] != path@ by {
                        let a0 = if a < i { a } else { a + 1 };
                        assert(after[a] == before[a0]);
                    }
                }
                *self = PathSet { items };
                true
            },
            None => false,
        }
    }
}

} // verus!
