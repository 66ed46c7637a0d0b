//! File paths as sequences of components.
//!
//! A path is held as the list of its components, outermost first. Two paths
//! are the same path exactly when their component lists are equal, so the
//! mathematical model of a path is a `Seq<Seq<char>>`.

use vstd::prelude::*;

verus! {

/// The model of a path: its components, each a sequence of characters.
pub type PathView = Seq<Seq<char>>;

/// A file path, component by component.
#[derive(Debug, PartialEq, Eq, Hash)]
pub struct FilePath {
    pub parts: Vec<String>,
}

impl View for FilePath {
    type V = Seq<Seq<char>>;

    open spec fn view(&self) -> Seq<Seq<char>> {
        Seq::new(self.parts@.len(), |i: int| self.parts@[i]@)
    }
}

/// The models of a list of paths, in order.
pub open spec fn views(paths: Seq<FilePath>) -> Seq<PathView> {
    Seq::new(paths.len(), |i: int| paths[i]@)
}

/// The last component of a path, or the empty name for the empty path.
pub open spec fn file_name_of(path: PathView) -> Seq<char> {
    if path.len() == 0 {
        Seq::empty()
    } else {
        path.last()
    }
}

/// Whether `prefix` is a leading run of the components of `path`.
pub open spec fn is_under(path: PathView, prefix: PathView) -> bool {
    prefix.len() <= path.len() && path.subrange(0, prefix.len() as int) == prefix
}

impl Clone for FilePath {
    fn clone(&self) -> (copy: Self)
        ensures
            copy@ == self@,
    {
        let mut parts: Vec<String> = Vec::new();
        let mut i: usize = 0;
        while i < self.parts.len()
            invariant
                i <= self.parts.len(),
                parts@.len() == i,
                forall|j: int| 0 <= j < i ==> parts@[j]@ == self.parts@[j]@,
            decreases self.parts.len() - i,
        {
            parts.push(self.parts[i].clone());
            i += 1;
        }
        let copy = FilePath { parts };
        assert(copy@ =~= self@);
        copy
    }
}

impl FilePath {
    /// The path without components.
    pub fn empty() -> (path: Self)
        ensures
            path@ == Seq::<Seq<char>>::empty(),
    {
        let path = FilePath { parts: Vec::new() };
        assert(path@ =~= Seq::<Seq<char>>::empty());
        path
    }

    /// Whether two paths have the same components.
    pub fn same(&self, other: &FilePath) -> (equal: bool)
        ensures
            equal == (self@ == other@),
    {
        if self.parts.len() != other.parts.len() {
            assert(self@.len() != other@.len());
            return false;
        }
        let mut i: usize = 0;
        while i < self.parts.len()
            invariant
                i <= self.parts.len(),
                self.parts.len() == other.parts.len(),
                forall|j: int| 0 <= j < i ==> self.parts@[j]@ == other.parts@[j]@,
            decreases self.parts.len() - i,
        {
            if self.parts[i] != other.parts[i] {
                assert(self@[i as int] != other@[i as int]);
                return false;
            }
            i += 1;
        }
        assert(self@ =~= other@);
        true
    }

    /// The path that lies directly inside `self` under the name `name`.
    pub fn child(&self, name: &str) -> (path: Self)
        ensures
            path@ == self@.push(name@),
    {
        let mut path = self.clone();
        path.parts.push(name.to_owned());
        assert(path@ =~= self@.push(name@));
        path
    }

    /// The last component, as text; empty for the empty path.
    pub fn file_name(&self) -> (name: String)
        ensures
            name@ == file_name_of(self@),
    {
        if self.parts.len() == 0 {
            String::new()
        } else {
            self.parts[self.parts.len() - 1].clone()
        }
    }

    /// Whether the components of `root` are a leading run of this path's.
    pub fn starts_with(&self, root: &FilePath) -> (under: bool)
        ensures
            under == is_under(self@, root@),
    {
        if root.parts.len() > self.parts.len() {
            return false;
        }
        let mut i: usize = 0;
        while i < root.parts.len()
            invariant
                i <= root.parts.len() <= self.parts.len(),
                forall|j: int| 0 <= j < i ==> self.parts@[j]@ == root.parts@[j]@,
            decreases root.parts.len() - i,
        {
            if self.parts[i] != root.parts[i] {
                assert(self@.subrange(0, root@.len() as int)[i as int] != root@[i as int]);
                return false;
            }
            i += 1;
        }
        assert(self@.subrange(0, root@.len() as int) =~= root@);
        true
    }
}

} // verus!
