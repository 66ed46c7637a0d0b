//! Natural ordering of paths by file name.
//!
//! The comparison of two names is the one of the `lexical-sort` crate; the
//! sort built on it is a stable insertion sort, so that its result is a
//! function of the comparison and of the input order alone.
//!
//! The natural comparison of that crate adds up the digits of a number in 64
//! bits. Names are therefore compared by it only where the numbers of one of
//! the two are short enough; a pair of names that both hold a longer run of
//! digits is compared by the plain lexical comparison of the same crate.

use vstd::prelude::*;
use vstd::seq_lib::*;
use crate::path::{file_name_of, views, FilePath, PathView};
use std::cmp::Ordering;

verus! {

/// The text that `lexical_sort::iter::iterate_lexical` makes of a name before
/// names are compared: lower case, with letters and numbers from outside
/// ASCII written in ASCII.
pub uninterp spec fn lexical_form(name: Seq<char>) -> Seq<char>;

/// The rank that `lexical_sort::natural_lexical_cmp` gives the name `a`
/// against the name `b`: negative when `a` sorts first, positive when `a`
/// sorts last, zero when neither does.
pub uninterp spec fn natural_lexical_rank(a: Seq<char>, b: Seq<char>) -> i8;

/// The rank that `lexical_sort::lexical_cmp` gives the name `a` against the
/// name `b`, with the same meaning of the sign.
pub uninterp spec fn lexical_rank(a: Seq<char>, b: Seq<char>) -> i8;

/// The most digits side by side that the natural comparison can add up: a
/// number of that many digits fits in 64 bits, one of more may not.
pub const MAX_DIGITS: usize = 19;

/// Whether `c` is one of the ten ASCII digits.
pub open spec fn is_digit(c: char) -> bool {
    '0' <= c <= '9'
}

/// The number of digits that stand side by side at the end of `text`.
pub open spec fn trailing_digits(text: Seq<char>) -> nat
    decreases text.len(),
{
    if text.len() == 0 || !is_digit(text.last()) {
        0
    } else {
        1 + trailing_digits(text.drop_last())
    }
}

/// Whether no more than `MAX_DIGITS` digits stand side by side anywhere in
/// `text`.
pub open spec fn digits_fit(text: Seq<char>) -> bool {
    forall|i: int| 0 <= i <= text.len() ==> trailing_digits(#[trigger] text.take(i)) <= MAX_DIGITS
}

/// Whether the numbers in the name are short enough to be compared by value.
pub open spec fn comparable_by_value(name: Seq<char>) -> bool {
    digits_fit(lexical_form(name))
}

/// The rank of the name `a` against the name `b`: that of the natural
/// comparison, which takes runs of digits by their value, where the runs of
/// one of the two names at least are short enough for that; else that of the
/// comparison character by character.
pub open spec fn name_rank(a: Seq<char>, b: Seq<char>) -> i8 {
    if comparable_by_value(a) || comparable_by_value(b) {
        natural_lexical_rank(a, b)
    } else {
        lexical_rank(a, b)
    }
}

/// Collects what `lexical_sort::iter::iterate_lexical` yields for the name.
/// It reads nothing but the name, character by character.
#[verifier::external_body]
fn lexical_form_of(name: &str) -> (form: Vec<char>)
    ensures
        form@ == lexical_form(name@),
{
    lexical_sort::iter::iterate_lexical(name).collect()
}

/// Calls `lexical_sort::natural_lexical_cmp` on the two names and hands its
/// answer back as -1, 0 or 1. The comparison walks the lexical forms of the
/// two names in step and adds up, in 64 bits, the digits that stand side by
/// side in both; it is called only where one of the forms has no run long
/// enough to overflow that sum. It reads nothing but its two arguments, so
/// the answer is the rank of the first against the second.
#[verifier::external_body]
fn natural_lexical_rank_of(a: &str, b: &str) -> (rank: i8)
    requires
        comparable_by_value(a@) || comparable_by_value(b@),
    ensures
        rank == natural_lexical_rank(a@, b@),
        -1 <= rank <= 1,
{
    match lexical_sort::natural_lexical_cmp(a, b) {
        Ordering::Less => -1,
        Ordering::Equal => 0,
        Ordering::Greater => 1,
    }
}

/// Calls `lexical_sort::lexical_cmp` on the two names and hands its answer
/// back as -1, 0 or 1. The comparison reads nothing but its two arguments
/// and does no arithmetic.
#[verifier::external_body]
fn lexical_rank_of(a: &str, b: &str) -> (rank: i8)
    ensures
        rank == lexical_rank(a@, b@),
        -1 <= rank <= 1,
{
    match lexical_sort::lexical_cmp(a, b) {
        Ordering::Less => -1,
        Ordering::Equal => 0,
        Ordering::Greater => 1,
    }
}

/// Whether no more than `MAX_DIGITS` digits stand side by side in `text`.
pub fn has_short_digit_runs(text: &Vec<char>) -> (fit: bool)
    ensures
        fit == digits_fit(text@),
{
    let mut run: usize = 0;
    let mut i: usize = 0;
    assert(text@.take(0) =~= Seq::<char>::empty());
    while i < text.len()
        invariant
            i <= text.len(),
            run == trailing_digits(text@.take(i as int)),
            run <= MAX_DIGITS,
            forall|k: int| 0 <= k <= i ==> trailing_digits(#[trigger] text@.take(k)) <= MAX_DIGITS,
        decreases text.len() - i,
    {
        let c = text[i];
        proof {
            let next = text@.take(i + 1);
            assert(next.drop_last() =~= text@.take(i as int));
            assert(next.last() == c);
        }
        if '0' <= c && c <= '9' {
            run += 1;
            if run > MAX_DIGITS {
                return false;
            }
        } else {
            run = 0;
        }
        i += 1;
    }
    true
}

/// What the comparison needs of a path: its file name, and whether the
/// numbers in the name can be compared by value.
struct NameKey {
    name: String,
    by_value: bool,
}

impl NameKey {
    /// The file name that the key was made of.
    spec fn name(&self) -> Seq<char> {
        self.name@
    }

    /// Whether the key says of its name what holds of it.
    spec fn wf(&self) -> bool {
        self.by_value == comparable_by_value(self.name@)
    }

    /// The key of a path.
    fn of(path: &FilePath) -> (key: Self)
        ensures
            key.wf(),
            key.name() == file_name_of(path@),
    {
        let name = path.file_name();
        let form = lexical_form_of(name.as_str());
        let by_value = has_short_digit_runs(&form);
        NameKey { name, by_value }
    }

    /// Whether the name of this key sorts strictly before that of `other`.
    fn before(&self, other: &NameKey) -> (before: bool)
        requires
            self.wf(),
            other.wf(),
        ensures
            before == (name_rank(self.name(), other.name()) < 0),
    {
        if self.by_value || other.by_value {
            natural_lexical_rank_of(self.name.as_str(), other.name.as_str()) < 0
        } else {
            lexical_rank_of(self.name.as_str(), other.name.as_str()) < 0
        }
    }
}

/// Whether the file name of `a` sorts strictly before that of `b`.
pub open spec fn name_precedes(a: PathView, b: PathView) -> bool {
    name_rank(file_name_of(a), file_name_of(b)) < 0
}

/// Whether `a` may stand directly before `b` in a list sorted by name: the
/// comparison puts `a` first, or at least does not put `b` first.
pub open spec fn in_name_order(a: PathView, b: PathView) -> bool {
    name_precedes(a, b) || !name_precedes(b, a)
}

/// The place at which `x` enters the sorted list `s`: behind the last
/// element that `x` does not sort strictly before.
pub open spec fn insertion_point(s: Seq<PathView>, x: PathView) -> nat
    decreases s.len(),
{
    if s.len() == 0 {
        0
    } else if name_precedes(x, s.last()) {
        insertion_point(s.drop_last(), x)
    } else {
        s.len()
    }
}

/// The paths of `s` sorted by file name in natural order; paths that the
/// comparison does not tell apart keep the order in which they came.
pub open spec fn sorted_by_name(s: Seq<PathView>) -> Seq<PathView>
    decreases s.len(),
{
    if s.len() == 0 {
        Seq::empty()
    } else {
        let rest = sorted_by_name(s.drop_last());
        rest.insert(insertion_point(rest, s.last()) as int, s.last())
    }
}

/// Whether every element of `s` may stand directly before its successor.
pub open spec fn neighbours_in_name_order(s: Seq<PathView>) -> bool {
    forall|i: int| 0 <= i < s.len() - 1 ==> in_name_order(#[trigger] s[i], s[i + 1])
}

/// Where `x` enters `s`: everything from there on sorts strictly after `x`,
/// and the element just before does not.
pub proof fn lemma_insertion_point(s: Seq<PathView>, x: PathView)
    ensures
        insertion_point(s, x) <= s.len(),
        forall|j: int| insertion_point(s, x) <= j < s.len() ==> name_precedes(x, #[trigger] s[j]),
        insertion_point(s, x) > 0 ==> !name_precedes(x, s[insertion_point(s, x) - 1]),
    decreases s.len(),
{
    if s.len() > 0 && name_precedes(x, s.last()) {
        lemma_insertion_point(s.drop_last(), x);
        let p = insertion_point(s, x);
        assert forall|j: int| p <= j < s.len() implies name_precedes(x, #[trigger] s[j]) by {
            if j < s.len() - 1 {
                assert(s.drop_last()[j] == s[j]);
            }
        }
    }
}

/// Sorting keeps the length.
pub proof fn lemma_sorted_len(s: Seq<PathView>)
    ensures
        sorted_by_name(s).len() == s.len(),
    decreases s.len(),
{
    if s.len() > 0 {
        lemma_sorted_len(s.drop_last());
        lemma_insertion_point(sorted_by_name(s.drop_last()), s.last());
    }
}

/// Sorting rearranges: every path occurs in the result as often as in the
/// input.
pub proof fn lemma_sorted_is_permutation(s: Seq<PathView>)
    ensures
        sorted_by_name(s).to_multiset() == s.to_multiset(),
    decreases s.len(),
{
    broadcast use {to_multiset_insert, to_multiset_build};

    if s.len() == 0 {
        assert(s =~= Seq::empty());
    } else {
        let rest = sorted_by_name(s.drop_last());
        lemma_sorted_is_permutation(s.drop_last());
        lemma_insertion_point(rest, s.last());
        assert(s =~= s.drop_last().push(s.last()));
    }
}

/// In a sorted list no element stands directly before one that the
/// comparison puts strictly first, unless the comparison also puts the
/// former strictly first.
pub proof fn lemma_sorted_neighbours(s: Seq<PathView>)
    ensures
        neighbours_in_name_order(sorted_by_name(s)),
    decreases s.len(),
{
    if s.len() > 0 {
        let rest = sorted_by_name(s.drop_last());
        let x = s.last();
        let p = insertion_point(rest, x) as int;
        lemma_sorted_neighbours(s.drop_last());
        lemma_insertion_point(rest, x);
        let out = rest.insert(p, x);
        assert forall|i: int| 0 <= i < out.len() - 1 implies in_name_order(
            #[trigger] out[i],
            out[i + 1],
        ) by {
            if i + 1 < p {
                assert(in_name_order(rest[i], rest[i + 1]));
            } else if i + 1 == p {
                assert(out[i] == rest[p - 1]);
            } else if i == p {
                assert(out[i + 1] == rest[p]);
            } else {
                assert(in_name_order(rest[i - 1], rest[i]));
            }
        }
    }
}

/// Whether the file name of `a` sorts strictly before that of `b`.
pub fn ranks_before(a: &FilePath, b: &FilePath) -> (before: bool)
    ensures
        before == name_precedes(a@, b@),
{
    NameKey::of(a).before(&NameKey::of(b))
}

/// Sorts the paths by file name in natural order.
pub fn sort_by_name(paths: &Vec<FilePath>) -> (sorted: Vec<FilePath>)
    ensures
        views(sorted@) == sorted_by_name(views(paths@)),
        views(sorted@).to_multiset() == views(paths@).to_multiset(),
        neighbours_in_name_order(views(sorted@)),
{
    let mut sorted: Vec<FilePath> = Vec::new();
    let mut keys: Vec<NameKey> = Vec::new();
    let mut i: usize = 0;
    assert(views(paths@).take(0) =~= Seq::empty());
    assert(views(sorted@) =~= Seq::empty());
    while i < paths.len()
        invariant
            i <= paths.len(),
            keys@.len() == sorted@.len(),
            forall|k: int|
                0 <= k < keys@.len() ==> (#[trigger] keys@[k]).wf() && keys@[k].name()
                    == file_name_of(sorted@[k]@),
            views(sorted@) == sorted_by_name(views(paths@).take(i as int)),
        decreases paths.len() - i,
    {
        let x = paths[i].clone();
        let key = NameKey::of(&x);
        let ghost prefix = views(paths@).take(i as int);
        let ghost before = views(sorted@);
        let ghost old_keys = keys@;
        let ghost old_sorted = sorted@;
        let mut j: usize = sorted.len();
        assert(before.take(j as int) =~= before);
        while j > 0 && key.before(&keys[j - 1])
            invariant
                j <= sorted.len(),
                keys@.len() == sorted@.len(),
                key.wf(),
                key.name() == file_name_of(x@),
                forall|k: int|
                    0 <= k < keys@.len() ==> (#[trigger] keys@[k]).wf() && keys@[k].name()
                        == file_name_of(sorted@[k]@),
                before == views(sorted@),
                insertion_point(before, x@) == insertion_point(before.take(j as int), x@),
            decreases j,
        {
            proof {
                let head = before.take(j as int);
                assert(head.last() == sorted@[j - 1]@);
                assert(head.drop_last() =~= before.take(j - 1));
            }
            j -= 1;
        }
        proof {
            let head = before.take(j as int);
            if j > 0 {
                assert(head.last() == sorted@[j - 1]@);
            }
            assert(insertion_point(before, x@) == j);
            let next = views(paths@).take(i + 1);
            assert(next.drop_last() =~= prefix);
            assert(next.last() == x@);
        }
        sorted.insert(j, x);
        keys.insert(j, key);
        proof {
            assert(views(sorted@) =~= before.insert(j as int, x@));
            assert forall|k: int| 0 <= k < keys@.len() implies (#[trigger] keys@[k]).wf()
                && keys@[k].name() == file_name_of(sorted@[k]@) by {
                if k < j {
                    assert(keys@[k] == old_keys[k] && sorted@[k] == old_sorted[k]);
                } else if k > j {
                    assert(keys@[k] == old_keys[k - 1] && sorted@[k] == old_sorted[k - 1]);
                }
            }
        }
        i += 1;
    }
    proof {
        assert(views(paths@).take(paths.len() as int) =~= views(paths@));
        lemma_sorted_is_permutation(views(paths@));
        lemma_sorted_neighbours(views(paths@));
    }
    sorted
}

} // verus!
