//! Weaving favourites into an ordered list at a fixed spacing.

use vstd::prelude::*;
use vstd::multiset::Multiset;
use crate::path::{views, FilePath, PathView};
use crate::pathset::list_contains;

verus! {

/// The paths of `list` that do not occur in `excluded`, in order.
pub open spec fn without(list: Seq<PathView>, excluded: Seq<PathView>) -> Seq<PathView> {
    list.filter(|p: PathView| !excluded.contains(p))
}

/// The paths of `list` that occur in `allowed`, in order.
pub open spec fn within(list: Seq<PathView>, allowed: Seq<PathView>) -> Seq<PathView> {
    list.filter(|p: PathView| allowed.contains(p))
}

/// Walks `rest` and puts one path of `favourites` behind every path of `rest`
/// whose running number is a multiple of `every`, as long as favourites are
/// left; `placed` paths of `rest` have gone before. The favourites that are
/// left when `rest` ends follow at the end.
pub open spec fn weave(
    rest: Seq<PathView>,
    favourites: Seq<PathView>,
    every: nat,
    placed: nat,
) -> Seq<PathView>
    decreases rest.len(),
{
    if rest.len() == 0 {
        favourites
    } else if favourites.len() > 0 && (placed + 1) % every == 0 {
        seq![rest[0], favourites[0]] + weave(
            rest.drop_first(),
            favourites.drop_first(),
            every,
            placed + 1,
        )
    } else {
        seq![rest[0]] + weave(rest.drop_first(), favourites, every, placed + 1)
    }
}

/// The list `main` with the favourites taken from their places and woven
/// back in behind every `every`-th other path. Favourites that `main` does
/// not hold are left out. With `every == 0` nothing is woven and `main`
/// stays as it is.
pub open spec fn interleaved(main: Seq<PathView>, favourites: Seq<PathView>, every: nat) -> Seq<
    PathView,
> {
    if every == 0 {
        main
    } else {
        weave(without(main, favourites), within(favourites, main), every, 0)
    }
}

/// Copies of the paths of `list` that do not occur in `excluded`.
pub fn keep_without(list: &Vec<FilePath>, excluded: &Vec<FilePath>) -> (kept: Vec<FilePath>)
    ensures
        views(kept@) == without(views(list@), views(excluded@)),
{
    let ghost keep = |p: PathView| !views(excluded@).contains(p);
    let mut kept: Vec<FilePath> = Vec::new();
    let mut i: usize = 0;
    proof {
        assert(views(list@).take(0) =~= Seq::empty());
        assert(views(kept@) =~= Seq::empty());
        reveal(Seq::filter);
    }
    while i < list.len()
        invariant
            i <= list.len(),
            keep == |p: PathView| !views(excluded@).contains(p),
            views(kept@) == views(list@).take(i as int).filter(keep),
        decreases list.len() - i,
    {
        let ghost before = views(kept@);
        proof {
            views(list@).take(i as int).lemma_filter_push(list@[i as int]@, keep);
            assert(views(list@).take(i + 1) =~= views(list@).take(i as int).push(list@[i as int]@));
        }
        if !list_contains(excluded, &list[i]) {
            kept.push(list[i].clone());
            assert(views(kept@) =~= before.push(list@[i as int]@));
        }
        i += 1;
    }
    assert(views(list@).take(list.len() as int) =~= views(list@));
    kept
}

/// Copies of the paths of `list` that occur in `allowed`.
pub fn keep_within(list: &Vec<FilePath>, allowed: &Vec<FilePath>) -> (kept: Vec<FilePath>)
    ensures
        views(kept@) == within(views(list@), views(allowed@)),
{
    let ghost keep = |p: PathView| views(allowed@).contains(p);
    let mut kept: Vec<FilePath> = Vec::new();
    let mut i: usize = 0;
    proof {
        assert(views(list@).take(0) =~= Seq::empty());
        assert(views(kept@) =~= Seq::empty());
        reveal(Seq::filter);
    }
    while i < list.len()
        invariant
            i <= list.len(),
            keep == |p: PathView| views(allowed@).contains(p),
            views(kept@) == views(list@).take(i as int).filter(keep),
        decreases list.len() - i,
    {
        let ghost before = views(kept@);
        proof {
            views(list@).take(i as int).lemma_filter_push(list@[i as int]@, keep);
            assert(views(list@).take(i + 1) =~= views(list@).take(i as int).push(list@[i as int]@));
        }
        if list_contains(allowed, &list[i]) {
            kept.push(list[i].clone());
            assert(views(kept@) =~= before.push(list@[i as int]@));
        }
        i += 1;
    }
    assert(views(list@).take(list.len() as int) =~= views(list@));
    kept
}

/// Takes the paths of `other_vector` out of `main_vector` and puts them back
/// one at a time behind every `after`-th of the remaining paths; those that
/// find no place follow at the end. Paths of `other_vector` that
/// `main_vector` does not hold are left out. With `after == 0` the list comes
/// back unchanged.
pub fn insert_after_every(
    main_vector: Vec<FilePath>,
    other_vector: Vec<FilePath>,
    after: usize,
) -> (result: Vec<FilePath>)
    ensures
        views(result@) == interleaved(views(main_vector@), views(other_vector@), after as nat),
{
    if after == 0 {
        return main_vector;
    }
    let rest = keep_without(&main_vector, &other_vector);
    let favourites = keep_within(&other_vector, &main_vector);
    let mut result: Vec<FilePath> = Vec::new();
    let mut i: usize = 0;
    let mut next: usize = 0;
    proof {
        assert(views(rest@).skip(0) =~= views(rest@));
        assert(views(favourites@).skip(0) =~= views(favourites@));
        assert(views(result@) =~= Seq::empty());
    }
    while i < rest.len()
        invariant
            after > 0,
            i <= rest.len(),
            next <= favourites.len(),
            views(result@) + weave(
                views(rest@).skip(i as int),
                views(favourites@).skip(next as int),
                after as nat,
                i as nat,
            ) == weave(views(rest@), views(favourites@), after as nat, 0),
        decreases rest.len() - i,
    {
        let ghost before = views(result@);
        let ghost tail = views(rest@).skip(i as int);
        let ghost left = views(favourites@).skip(next as int);
        proof {
            assert(tail.drop_first() =~= views(rest@).skip(i + 1));
            assert(tail[0] == rest@[i as int]@);
        }
        result.push(rest[i].clone());
        i += 1;
        if next < favourites.len() && i % after == 0 {
            result.push(favourites[next].clone());
            proof {
                assert(left[0] == favourites@[next as int]@);
                assert(left.drop_first() =~= views(favourites@).skip(next + 1));
                assert(views(result@) =~= before + seq![tail[0], left[0]]);
                assert(before + (seq![tail[0], left[0]] + weave(
                    tail.drop_first(),
                    left.drop_first(),
                    after as nat,
                    i as nat,
                )) =~= (before + seq![tail[0], left[0]]) + weave(
                    tail.drop_first(),
                    left.drop_first(),
                    after as nat,
                    i as nat,
                ));
            }
            next += 1;
        } else {
            proof {
                assert(views(result@) =~= before + seq![tail[0]]);
                assert(before + (seq![tail[0]] + weave(
                    tail.drop_first(),
                    left,
                    after as nat,
                    i as nat,
                )) =~= (before + seq![tail[0]]) + weave(
                    tail.drop_first(),
                    left,
                    after as nat,
                    i as nat,
                ));
            }
        }
    }
    while next < favourites.len()
        invariant
            i == rest.len(),
            next <= favourites.len(),
            views(result@) + views(favourites@).skip(next as int) == weave(
                views(rest@),
                views(favourites@),
                after as nat,
                0,
            ),
        decreases favourites.len() - next,
    {
        let ghost before = views(result@);
        let ghost left = views(favourites@).skip(next as int);
        result.push(favourites[next].clone());
        proof {
            assert(left[0] == favourites@[next as int]@);
            assert(views(result@) =~= before + seq![left[0]]);
            assert(left =~= seq![left[0]] + views(favourites@).skip(next + 1));
            assert(before + left =~= (before + seq![left[0]]) + views(favourites@).skip(next + 1));
        }
        next += 1;
    }
    proof {
        assert(views(result@) + views(favourites@).skip(next as int) =~= views(result@));
    }
    result
}

/// How often `x` occurs among the elements of `list` that `keep` lets
/// through: as often as in `list` where `keep` lets `x` through, and not at
/// all otherwise.
pub proof fn lemma_filter_count(list: Seq<PathView>, keep: spec_fn(PathView) -> bool, x: PathView)
    ensures
        list.filter(keep).to_multiset().count(x) == if keep(x) {
            list.to_multiset().count(x)
        } else {
            0
        },
    decreases list.len(),
{
    broadcast use {
        vstd::multiset::group_multiset_axioms,
        vstd::multiset::group_multiset_properties,
        vstd::seq_lib::group_to_multiset_ensures,
    };

    reveal(Seq::filter);
    if list.len() > 0 {
        let front = list.drop_last();
        lemma_filter_count(front, keep, x);
        front.lemma_filter_push(list.last(), keep);
        assert(front.push(list.last()) =~= list);
    } else {
        assert(list.to_multiset().len() == 0);
    }
}

/// What the weaving returns holds the paths of both lists, each as often as
/// the two lists together hold it.
pub proof fn lemma_weave_is_permutation(
    rest: Seq<PathView>,
    favourites: Seq<PathView>,
    every: nat,
    placed: nat,
)
    ensures
        weave(rest, favourites, every, placed).to_multiset() == rest.to_multiset().add(
            favourites.to_multiset(),
        ),
    decreases rest.len(),
{
    broadcast use {
        vstd::multiset::group_multiset_axioms,
        vstd::seq_lib::lemma_multiset_commutative,
        vstd::seq_lib::to_multiset_len,
    };

    if rest.len() == 0 {
        assert(rest.to_multiset().len() == 0);
        assert(rest.to_multiset() =~= Multiset::<PathView>::empty());
    } else {
        let tail = rest.drop_first();
        assert(rest =~= seq![rest[0]] + tail);
        if favourites.len() > 0 && (placed + 1) % every == 0 {
            let left = favourites.drop_first();
            lemma_weave_is_permutation(tail, left, every, placed + 1);
            assert(favourites =~= seq![favourites[0]] + left);
            assert(seq![rest[0], favourites[0]] =~= seq![rest[0]] + seq![favourites[0]]);
        } else {
            lemma_weave_is_permutation(tail, favourites, every, placed + 1);
        }
    }
}

/// Weaving rearranges: where neither the list nor the favourites hold a path
/// twice, the result holds exactly the paths of the list, each once, so it
/// is as long as the list.
pub proof fn lemma_interleaved_is_permutation(
    main: Seq<PathView>,
    favourites: Seq<PathView>,
    every: nat,
)
    requires
        main.no_duplicates(),
        favourites.no_duplicates(),
    ensures
        interleaved(main, favourites, every).to_multiset() == main.to_multiset(),
        interleaved(main, favourites, every).len() == main.len(),
        interleaved(main, favourites, every).no_duplicates(),
{
    broadcast use {
        vstd::multiset::group_multiset_axioms,
        vstd::seq_lib::to_multiset_len,
        vstd::seq_lib::to_multiset_contains,
    };

    let out = interleaved(main, favourites, every);
    if every > 0 {
        let rest = without(main, favourites);
        let favs = within(favourites, main);
        lemma_weave_is_permutation(rest, favs, every, 0);
        main.lemma_multiset_has_no_duplicates();
        favourites.lemma_multiset_has_no_duplicates();
        assert forall|x: PathView| out.to_multiset().count(x) == main.to_multiset().count(x) by {
            lemma_filter_count(main, |p: PathView| !favourites.contains(p), x);
            lemma_filter_count(favourites, |p: PathView| main.contains(p), x);
        }
        assert(out.to_multiset() =~= main.to_multiset());
    }
    assert(out.to_multiset().len() == main.to_multiset().len());
    main.lemma_multiset_has_no_duplicates();
    out.lemma_multiset_has_no_duplicates_conv();
}

/// How many of the first `k` paths of `list` are no favourites.
pub open spec fn others_before(list: Seq<PathView>, favourites: Seq<PathView>, k: int) -> nat {
    without(list.take(k), favourites).len()
}

/// Of a list that holds only favourites, none is left once the favourites
/// are taken out.
proof fn lemma_without_all(list: Seq<PathView>, marked: Seq<PathView>)
    requires
        forall|i: int| 0 <= i < list.len() ==> marked.contains(#[trigger] list[i]),
    ensures
        without(list, marked).len() == 0,
    decreases list.len(),
{
    reveal(Seq::filter);
    if list.len() > 0 {
        let front = list.drop_last();
        assert forall|i: int| 0 <= i < front.len() implies marked.contains(#[trigger] front[i]) by {
            assert(front[i] == list[i]);
        }
        lemma_without_all(front, marked);
    }
}

/// The count of the paths that are no favourites, before a place in the
/// second of two lists put together: those of the first list and those
/// before the place in the second.
proof fn lemma_others_before_split(
    front: Seq<PathView>,
    inner: Seq<PathView>,
    marked: Seq<PathView>,
    inside: int,
)
    requires
        0 <= inside <= inner.len(),
    ensures
        others_before(front + inner, marked, front.len() + inside) == without(front, marked).len()
            + others_before(inner, marked, inside),
{
    let keep = |p: PathView| !marked.contains(p);
    assert((front + inner).take(front.len() + inside) =~= front + inner.take(inside));
    Seq::filter_distributes_over_add(front, inner.take(inside), keep);
}

/// A path that is no favourite stays when the favourites are taken out.
proof fn lemma_without_one(r: PathView, marked: Seq<PathView>)
    requires
        !marked.contains(r),
    ensures
        without(seq![r], marked) == seq![r],
{
    let keep = |p: PathView| !marked.contains(p);
    let none = Seq::<PathView>::empty();
    reveal(Seq::filter);
    assert(none.filter(keep) =~= none);
    none.lemma_filter_push(r, keep);
    assert(none.push(r) =~= seq![r]);
    assert(none.filter(keep).push(r) =~= seq![r]);
}

/// Of a path that is no favourite and a favourite behind it, the first stays
/// when the favourites are taken out.
proof fn lemma_without_pair(r: PathView, f: PathView, marked: Seq<PathView>)
    requires
        !marked.contains(r),
        marked.contains(f),
    ensures
        without(seq![r, f], marked) == seq![r],
{
    let keep = |p: PathView| !marked.contains(p);
    lemma_without_one(r, marked);
    seq![r].lemma_filter_push(f, keep);
    assert(seq![r].push(f) =~= seq![r, f]);
}

/// Every favourite in what the weaving returns stands where the number of
/// other paths placed so far is a multiple of the spacing, or behind all the
/// other paths. `placed` other paths count as placed before the walk begins.
pub proof fn lemma_weave_places(
    rest: Seq<PathView>,
    favourites: Seq<PathView>,
    every: nat,
    placed: nat,
    marked: Seq<PathView>,
    k: int,
)
    requires
        every > 0,
        forall|i: int| 0 <= i < rest.len() ==> !marked.contains(#[trigger] rest[i]),
        forall|i: int| 0 <= i < favourites.len() ==> marked.contains(#[trigger] favourites[i]),
        0 <= k < weave(rest, favourites, every, placed).len(),
        marked.contains(weave(rest, favourites, every, placed)[k]),
    ensures
        ({
            let before = others_before(weave(rest, favourites, every, placed), marked, k);
            ||| before > 0 && (placed + before) % every == 0
            ||| before == rest.len()
        }),
    decreases rest.len(),
{
    let out = weave(rest, favourites, every, placed);
    if rest.len() == 0 {
        let head = out.take(k);
        assert forall|i: int| 0 <= i < head.len() implies marked.contains(#[trigger] head[i]) by {
            assert(head[i] == favourites[i]);
        }
        lemma_without_all(head, marked);
    } else {
        let tail = rest.drop_first();
        let spliced = favourites.len() > 0 && (placed + 1) % every == 0;
        let left = if spliced { favourites.drop_first() } else { favourites };
        let front = if spliced { seq![rest[0], favourites[0]] } else { seq![rest[0]] };
        let inner = weave(tail, left, every, placed + 1);
        assert(out == front + inner);
        assert(!marked.contains(rest[0]));
        lemma_without_one(rest[0], marked);
        if spliced {
            assert(marked.contains(favourites[0]));
            lemma_without_pair(rest[0], favourites[0], marked);
        }
        assert(without(front, marked).len() == 1);
        if k == 0 {
            assert(out[0] == rest[0]);
        } else if k < front.len() {
            assert(out.take(k) =~= seq![rest[0]]);
        } else {
            let inside = k - front.len();
            assert(out[k] == inner[inside]);
            assert forall|i: int| 0 <= i < tail.len() implies !marked.contains(
                #[trigger] tail[i],
            ) by {
                assert(tail[i] == rest[i + 1]);
            }
            assert forall|i: int| 0 <= i < left.len() implies marked.contains(
                #[trigger] left[i],
            ) by {
                if spliced {
                    assert(left[i] == favourites[i + 1]);
                }
            }
            lemma_weave_places(tail, left, every, placed + 1, marked, inside);
            lemma_others_before_split(front, inner, marked, inside);
        }
    }
}

/// In a list that was woven at a spacing, every favourite stands where the
/// number of other paths before it is a multiple of the spacing and not
/// zero, or behind all the other paths.
pub proof fn lemma_favourites_at_multiples(
    main: Seq<PathView>,
    favourites: Seq<PathView>,
    every: nat,
    k: int,
)
    requires
        every > 0,
        0 <= k < interleaved(main, favourites, every).len(),
        favourites.contains(interleaved(main, favourites, every)[k]),
    ensures
        ({
            let before = others_before(interleaved(main, favourites, every), favourites, k);
            ||| before > 0 && before % every == 0
            ||| before == without(main, favourites).len()
        }),
{
    let rest = without(main, favourites);
    let favs = within(favourites, main);
    assert forall|i: int| 0 <= i < rest.len() implies !favourites.contains(#[trigger] rest[i]) by {
        main.lemma_filter_pred(|p: PathView| !favourites.contains(p), i);
    }
    assert forall|i: int| 0 <= i < favs.len() implies favourites.contains(#[trigger] favs[i]) by {
        favourites.lemma_filter_contains_rev(|p: PathView| main.contains(p), favs[i]);
    }
    lemma_weave_places(rest, favs, every, 0, favourites, k);
}

} // verus!
