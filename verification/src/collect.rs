//! Choosing the folder to list and the files to keep from its listing.

use vstd::prelude::*;
use vstd::string::StrSliceExecFns;
use crate::path::{file_name_of, views, FilePath, PathView};

verus! {

/// The place of the last dot in `name`, if it holds one.
pub open spec fn last_dot(name: Seq<char>) -> Option<int>
    decreases name.len(),
{
    if name.len() == 0 {
        None
    } else if name.last() == '.' {
        Some(name.len() - 1)
    } else {
        last_dot(name.drop_last())
    }
}

/// The extension of a file name: what follows its last dot. A name without a
/// dot has none, nor has one whose only dot stands at its start, nor the
/// name `..`.
pub open spec fn extension_of(name: Seq<char>) -> Option<Seq<char>> {
    match last_dot(name) {
        Some(i) => if i == 0 || name == seq!['.', '.'] {
            None
        } else {
            Some(name.skip(i + 1))
        },
        None => None,
    }
}

/// Whether one of `texts` is `wanted`.
pub open spec fn lists_text(texts: Seq<String>, wanted: Seq<char>) -> bool {
    exists|i: int| 0 <= i < texts.len() && (#[trigger] texts[i])@ == wanted
}

/// Whether the file name of `path` has an extension that `extensions` lists.
pub open spec fn is_supported(path: PathView, extensions: Seq<String>) -> bool {
    match extension_of(file_name_of(path)) {
        Some(extension) => lists_text(extensions, extension),
        None => false,
    }
}

/// The paths of `files` whose extension `extensions` lists, in order.
pub open spec fn supported(files: Seq<PathView>, extensions: Seq<String>) -> Seq<PathView> {
    files.filter(|path: PathView| is_supported(path, extensions))
}

/// The folder that holds `path`: the path without its last component. The
/// path without components lies in no folder.
pub open spec fn parent_of(path: PathView) -> Option<PathView> {
    if path.len() == 0 {
        None
    } else {
        Some(path.drop_last())
    }
}

/// The folder to list for `root`: the folder that holds it where `root` is a
/// file, and `root` itself otherwise.
pub open spec fn folder_of(root: PathView, root_is_file: bool) -> Option<PathView> {
    if root_is_file {
        parent_of(root)
    } else {
        Some(root)
    }
}

/// The extension of `name`, if it has one.
pub fn extension(name: &str) -> (found: Option<String>)
    ensures
        match found {
            Some(text) => extension_of(name@) == Some(text@),
            None => extension_of(name@).is_none(),
        },
{
    let n = name.unicode_len();
    let ghost text = name@;
    let mut i: usize = n;
    assert(text.take(n as int) =~= text);
    while i > 0
        invariant
            text == name@,
            n == text.len(),
            i <= n,
            last_dot(text) == last_dot(text.take(i as int)),
        decreases i,
    {
        proof {
            let head = text.take(i as int);
            assert(head.last() == text[i - 1]);
            assert(head.drop_last() =~= text.take(i - 1));
        }
        if name.get_char(i - 1) == '.' {
            let dots = n == 2 && i == 2 && name.get_char(0) == '.';
            proof {
                if dots {
                    assert(text =~= seq!['.', '.']);
                } else if n == 2 {
                    assert(seq!['.', '.'][0] == '.');
                } else {
                    assert(seq!['.', '.'].len() == 2);
                }
            }
            if i - 1 == 0 || dots {
                return None;
            }
            let found = name.substring_char(i, n).to_owned();
            assert(text.subrange(i as int, n as int) =~= text.skip(i as int));
            return Some(found);
        }
        i -= 1;
    }
    None
}

/// Whether one of `texts` is `wanted`.
pub fn lists(texts: &Vec<String>, wanted: &String) -> (found: bool)
    ensures
        found == lists_text(texts@, wanted@),
{
    let mut i: usize = 0;
    while i < texts.len()
        invariant
            i <= texts.len(),
            forall|j: int| 0 <= j < i ==> (#[trigger] texts@[j])@ != wanted@,
        decreases texts.len() - i,
    {
        if texts[i] == *wanted {
            return true;
        }
        i += 1;
    }
    false
}

/// Whether the file name of `path` has an extension that `extensions` lists.
pub fn is_ext_compatible(path: &FilePath, extensions: &Vec<String>) -> (kept: bool)
    ensures
        kept == is_supported(path@, extensions@),
{
    let name = path.file_name();
    match extension(name.as_str()) {
        Some(found) => lists(extensions, &found),
        None => false,
    }
}

/// The files of a listing whose extension `extensions` lists, in the order
/// of the listing.
pub fn keep_supported(listing: Vec<FilePath>, extensions: &Vec<String>) -> (files: Vec<FilePath>)
    ensures
        views(files@) == supported(views(listing@), extensions@),
{
    let ghost keep = |path: PathView| is_supported(path, extensions@);
    let mut files: Vec<FilePath> = Vec::new();
    let mut i: usize = 0;
    proof {
        assert(views(listing@).take(0) =~= Seq::empty());
        assert(views(files@) =~= Seq::empty());
        reveal(Seq::filter);
    }
    while i < listing.len()
        invariant
            i <= listing.len(),
            keep == |path: PathView| is_supported(path, extensions@),
            views(files@) == views(listing@).take(i as int).filter(keep),
        decreases listing.len() - i,
    {
        let ghost before = views(files@);
        proof {
            views(listing@).take(i as int).lemma_filter_push(listing@[i as int]@, keep);
            assert(views(listing@).take(i + 1) =~= views(listing@).take(i as int).push(
                listing@[i as int]@,
            ));
        }
        if is_ext_compatible(&listing[i], extensions) {
            files.push(listing[i].clone());
            assert(views(files@) =~= before.push(listing@[i as int]@));
        }
        i += 1;
    }
    assert(views(listing@).take(listing.len() as int) =~= views(listing@));
    files
}

/// The folder to list for `root`: the folder that holds it where `root` is a
/// file, and `root` itself otherwise. There is none for a file without
/// components.
pub fn folder_to_list(root: &FilePath, root_is_file: bool) -> (folder: Option<FilePath>)
    ensures
        match folder {
            Some(path) => folder_of(root@, root_is_file) == Some(path@),
            None => folder_of(root@, root_is_file).is_none(),
        },
{
    if !root_is_file {
        return Some(root.clone());
    }
    if root.parts.len() == 0 {
        return None;
    }
    let mut parts: Vec<String> = Vec::new();
    let mut i: usize = 0;
    while i < root.parts.len() - 1
        invariant
            root.parts.len() > 0,
            i <= root.parts.len() - 1,
            parts@.len() == i,
            forall|j: int| 0 <= j < i ==> parts@[j]@ == root.parts@[j]@,
        decreases root.parts.len() - 1 - i,
    {
        parts.push(root.parts[i].clone());
        i += 1;
    }
    let folder = FilePath { parts };
    assert(folder@ =~= root@.drop_last());
    Some(folder)
}

} // verus!
