//! A bounded cache of decoded images, keyed by path. When an insertion makes
//! it overfull, the entry that was created first leaves.

use vstd::prelude::*;
use crate::path::{FilePath, PathView};
use std::time::Instant;

verus! {

/// A point on the machine's monotonic clock. Nothing of it is known to the
/// proofs: it is only carried from where it is read to where it is compared.
#[verifier::external_type_specification]
#[verifier::external_body]
pub struct ExInstant(Instant);

/// Reads the monotonic clock with `std::time::Instant::now`. No two readings
/// need agree, so nothing is promised of the result.
#[verifier::external_body]
fn clock_now() -> Instant {
    Instant::now()
}

/// The nanoseconds that have passed since `origin`, read from the monotonic
/// clock with `std::time::Instant::elapsed`. The answer depends on when the
/// call is made, so nothing is promised of it.
#[verifier::external_body]
fn nanos_since(origin: &Instant) -> u128 {
    origin.elapsed().as_nanos()
}

/// A decoded image: its size and its pixels, four bytes each, row by row.
#[derive(Debug, PartialEq, Eq)]
pub struct DecodedImage {
    pub width: u32,
    pub height: u32,
    pub pixels: Vec<u8>,
}

/// The model of a decoded image.
pub ghost struct ImageView {
    pub width: u32,
    pub height: u32,
    pub pixels: Seq<u8>,
}

impl View for DecodedImage {
    type V = ImageView;

    open spec fn view(&self) -> ImageView {
        ImageView { width: self.width, height: self.height, pixels: self.pixels@ }
    }
}

impl Clone for DecodedImage {
    fn clone(&self) -> (copy: Self)
        ensures
            copy@ == self@,
    {
        DecodedImage { width: self.width, height: self.height, pixels: self.pixels.clone() }
    }
}

/// An image in the cache, with the time at which it was put there.
#[derive(Debug)]
pub struct CachedImage {
    pub data: DecodedImage,
    pub created: u128,
}

/// The model of one cache entry.
pub ghost struct EntryView {
    pub path: PathView,
    pub image: ImageView,
    pub created: u128,
}

/// One entry of the cache.
#[derive(Debug)]
struct Slot {
    path: FilePath,
    image: CachedImage,
}

impl View for Slot {
    type V = EntryView;

    closed spec fn view(&self) -> EntryView {
        EntryView { path: self.path@, image: self.image.data@, created: self.image.created }
    }
}

/// The models of a list of slots, in order.
spec fn slot_views(slots: Seq<Slot>) -> Seq<EntryView> {
    Seq::new(slots.len(), |i: int| slots[i]@)
}

/// The place of the entry for `path`, if there is one.
pub open spec fn place_of(entries: Seq<EntryView>, path: PathView) -> Option<int>
    decreases entries.len(),
{
    if entries.len() == 0 {
        None
    } else if entries.last().path == path {
        Some(entries.len() - 1)
    } else {
        place_of(entries.drop_last(), path)
    }
}

/// Whether no two entries are for the same path.
pub open spec fn distinct_paths(entries: Seq<EntryView>) -> bool {
    forall|i: int, j: int|
        0 <= i < entries.len() && 0 <= j < entries.len() && i != j ==> (#[trigger] entries[i]).path
            != (#[trigger] entries[j]).path
}

/// The entries after `image` has been stored for `path` at the time `now`:
/// in the place of the old entry for `path` where there was one, at the end
/// otherwise.
pub open spec fn stored(
    entries: Seq<EntryView>,
    path: PathView,
    image: ImageView,
    now: u128,
) -> Seq<EntryView> {
    let entry = EntryView { path, image, created: now };
    match place_of(entries, path) {
        Some(i) => entries.update(i, entry),
        None => entries.push(entry),
    }
}

/// The place of the entry that was created first; of several created at the
/// same time, the one that stands first.
pub open spec fn oldest(entries: Seq<EntryView>) -> int
    decreases entries.len(),
{
    if entries.len() <= 1 {
        0
    } else {
        let before = oldest(entries.drop_last());
        if entries.last().created < entries[before].created {
            entries.len() - 1
        } else {
            before
        }
    }
}

/// The entries after the check that follows an insertion: where there are
/// more than `capacity`, the oldest one has left, and only that one.
pub open spec fn evicted(entries: Seq<EntryView>, capacity: nat) -> Seq<EntryView> {
    if entries.len() > capacity {
        entries.remove(oldest(entries))
    } else {
        entries
    }
}

/// `place_of` finds the entry for the path, and finds nothing exactly when
/// there is none.
pub proof fn lemma_place_of(entries: Seq<EntryView>, path: PathView)
    ensures
        match place_of(entries, path) {
            Some(i) => 0 <= i < entries.len() && entries[i].path == path,
            None => forall|j: int| 0 <= j < entries.len() ==> (#[trigger] entries[j]).path != path,
        },
    decreases entries.len(),
{
    if entries.len() > 0 && entries.last().path != path {
        lemma_place_of(entries.drop_last(), path);
        if place_of(entries, path).is_none() {
            assert forall|j: int| 0 <= j < entries.len() implies (#[trigger] entries[j]).path
                != path by {
                if j < entries.len() - 1 {
                    assert(entries.drop_last()[j] == entries[j]);
                }
            }
        }
    }
}

/// The oldest entry is one of the entries, none was created before it, and
/// all that stand before it were created later.
pub proof fn lemma_oldest(entries: Seq<EntryView>)
    requires
        entries.len() > 0,
    ensures
        0 <= oldest(entries) < entries.len(),
        forall|j: int|
            0 <= j < entries.len() ==> entries[oldest(entries)].created <= (
            #[trigger] entries[j]).created,
        forall|j: int|
            0 <= j < oldest(entries) ==> entries[oldest(entries)].created < (
            #[trigger] entries[j]).created,
    decreases entries.len(),
{
    if entries.len() > 1 {
        let head = entries.drop_last();
        lemma_oldest(head);
        let o = oldest(entries);
        assert forall|j: int| 0 <= j < entries.len() implies entries[o].created <= (
        #[trigger] entries[j]).created by {
            if j < entries.len() - 1 {
                assert(head[j] == entries[j]);
            }
        }
        assert forall|j: int| 0 <= j < o implies entries[o].created < (
        #[trigger] entries[j]).created by {
            assert(head[j] == entries[j]);
        }
    }
}

/// A cache that was within its capacity is within it again after an
/// insertion, and no insertion lets a cache grow beyond what it was or what
/// it may hold, whichever is more.
pub proof fn lemma_insertion_bounded(
    entries: Seq<EntryView>,
    path: PathView,
    image: ImageView,
    now: u128,
    capacity: nat,
)
    ensures
        entries.len() <= capacity ==> evicted(stored(entries, path, image, now), capacity).len()
            <= capacity,
        evicted(stored(entries, path, image, now), capacity).len() <= entries.len()
            || evicted(stored(entries, path, image, now), capacity).len() <= capacity,
{
    let after = stored(entries, path, image, now);
    lemma_place_of(entries, path);
    if after.len() > capacity {
        lemma_oldest(after);
    }
}

/// Storing an image keeps the paths of the entries distinct and makes the
/// entry for the path hold that image and that time.
pub proof fn lemma_stored(entries: Seq<EntryView>, path: PathView, image: ImageView, now: u128)
    requires
        distinct_paths(entries),
    ensures
        distinct_paths(stored(entries, path, image, now)),
        stored(entries, path, image, now).len() == entries.len() + if place_of(
            entries,
            path,
        ).is_some() {
            0int
        } else {
            1int
        },
        match place_of(stored(entries, path, image, now), path) {
            Some(i) => stored(entries, path, image, now)[i] == (EntryView {
                path,
                image,
                created: now,
            }),
            None => false,
        },
{
    let after = stored(entries, path, image, now);
    lemma_place_of(entries, path);
    lemma_place_of(after, path);
    match place_of(entries, path) {
        Some(i) => {
            assert(after[i].path == path);
        },
        None => {
            assert(after[entries.len() as int].path == path);
        },
    }
    match place_of(after, path) {
        Some(k) => {
            match place_of(entries, path) {
                Some(i) => {
                    if k != i {
                        assert(after[k] == entries[k]);
                    }
                },
                None => {
                    if k != entries.len() {
                        assert(after[k] == entries[k]);
                    }
                },
            }
        },
        None => {},
    }
}

/// Taking one entry out keeps the paths of the others distinct.
pub proof fn lemma_remove_distinct(entries: Seq<EntryView>, at: int)
    requires
        distinct_paths(entries),
        0 <= at < entries.len(),
    ensures
        distinct_paths(entries.remove(at)),
{
    let after = entries.remove(at);
    assert forall|i: int, j: int|
        0 <= i < after.len() && 0 <= j < after.len() && i != j implies (#[trigger] after[i]).path
        != (#[trigger] after[j]).path by {
        let i0 = if i < at { i } else { i + 1 };
        let j0 = if j < at { j } else { j + 1 };
        assert(after[i] == entries[i0] && after[j] == entries[j0]);
    }
}

/// The cache: at most one entry for a path, and a capacity that is set when
/// the cache is made.
#[derive(Debug)]
pub struct Cache {
    slots: Vec<Slot>,
    cache_size: usize,
    origin: Instant,
}

impl View for Cache {
    type V = Seq<EntryView>;

    /// The entries, in the order of their places.
    closed spec fn view(&self) -> Seq<EntryView> {
        slot_views(self.slots@)
    }
}

impl Cache {
    #[verifier::type_invariant]
    spec fn one_entry_for_a_path(&self) -> bool {
        distinct_paths(slot_views(self.slots@))
    }

    /// The number of entries that the cache may hold after an insertion.
    pub closed spec fn capacity(&self) -> nat {
        self.cache_size as nat
    }

    /// An empty cache for `cache_size` images. Its clock starts now.
    pub fn new(cache_size: usize) -> (cache: Self)
        ensures
            cache@ == Seq::<EntryView>::empty(),
            cache.capacity() == cache_size,
    {
        let cache = Cache { slots: Vec::new(), cache_size, origin: clock_now() };
        assert(slot_views(cache.slots@) =~= Seq::<EntryView>::empty());
        cache
    }

    /// The capacity that the cache was made with.
    pub fn cache_size(&self) -> (n: usize)
        ensures
            n == self.capacity(),
    {
        self.cache_size
    }

    /// The number of entries.
    pub fn len(&self) -> (n: usize)
        ensures
            n == self@.len(),
    {
        self.slots.len()
    }

    /// The place of the slot for `path`.
    fn find(slots: &Vec<Slot>, path: &FilePath) -> (found: Option<usize>)
        ensures
            match found {
                Some(i) => i < slots@.len() && place_of(slot_views(slots@), path@) == Some(
                    i as int,
                ),
                None => place_of(slot_views(slots@), path@).is_none(),
            },
    {
        let ghost entries = slot_views(slots@);
        let mut i: usize = slots.len();
        assert(entries.take(i as int) =~= entries);
        while i > 0
            invariant
                i <= slots.len(),
                entries == slot_views(slots@),
                place_of(entries, path@) == place_of(entries.take(i as int), path@),
            decreases i,
        {
            proof {
                let head = entries.take(i as int);
                assert(head.last() == slots@[i - 1]@);
                assert(head.drop_last() =~= entries.take(i - 1));
            }
            if slots[i - 1].path.same(path) {
                return Some(i - 1);
            }
            i -= 1;
        }
        None
    }

    /// A copy of the image stored for `path`, if there is one. Reading does
    /// not change the age of the entry.
    pub fn get(&self, path: &FilePath) -> (image: Option<DecodedImage>)
        ensures
            match place_of(self@, path@) {
                Some(i) => image.is_some() && image.unwrap()@ == self@[i].image,
                None => image.is_none(),
            },
    {
        proof {
            lemma_place_of(slot_views(self.slots@), path@);
        }
        match Cache::find(&self.slots, path) {
            Some(i) => Some(self.slots[i].image.data.clone()),
            None => None,
        }
    }

    /// Empties the cache.
    pub fn clear(&mut self)
        ensures
            final(self)@ == Seq::<EntryView>::empty(),
            final(self).capacity() == old(self).capacity(),
    {
        let _ = self.take_slots();
    }

    /// Moves the slots out and leaves the cache empty.
    fn take_slots(&mut self) -> (slots: Vec<Slot>)
        ensures
            slots == old(self).slots,
            distinct_paths(slot_views(slots@)),
            final(self).slots@.len() == 0,
            final(self).cache_size == old(self).cache_size,
            final(self)@ == Seq::<EntryView>::empty(),
    {
        proof {
            use_type_invariant(&*self);
        }
        let mut slots: Vec<Slot> = Vec::new();
        assert(slot_views(slots@) =~= Seq::<EntryView>::empty());
        core::mem::swap(&mut self.slots, &mut slots);
        slots
    }

    /// The place of the oldest slot.
    fn find_oldest(slots: &Vec<Slot>) -> (at: usize)
        requires
            slots@.len() > 0,
        ensures
            at == oldest(slot_views(slots@)),
            at < slots@.len(),
    {
        let ghost entries = slot_views(slots@);
        let mut at: usize = 0;
        let mut i: usize = 1;
        while i < slots.len()
            invariant
                1 <= i <= slots.len(),
                at < i,
                entries == slot_views(slots@),
                at == oldest(entries.take(i as int)),
            decreases slots.len() - i,
        {
            proof {
                let head = entries.take(i + 1);
                assert(head.drop_last() =~= entries.take(i as int));
                assert(head.last() == slots@[i as int]@);
                assert(head[at as int] == slots@[at as int]@);
            }
            if slots[i].image.created < slots[at].image.created {
                at = i;
            }
            i += 1;
        }
        assert(entries.take(slots.len() as int) =~= entries);
        at
    }

    /// Stores `img` for `path` with the creation time `now`, in place of what
    /// was stored for `path` before. If the cache then holds more entries
    /// than its capacity, the entry that was created first leaves; one entry
    /// at most leaves for one insertion.
    pub fn insert_at(&mut self, path: &FilePath, img: DecodedImage, now: u128)
        ensures
            final(self)@ == evicted(stored(old(self)@, path@, img@, now), old(self).capacity()),
            final(self).capacity() == old(self).capacity(),
    {
        let ghost before = self@;
        let cache_size = self.cache_size;
        let mut slots = self.take_slots();
        let slot = Slot { path: path.clone(), image: CachedImage { data: img, created: now } };
        let ghost entry = slot@;
        proof {
            lemma_stored(before, path@, img@, now);
        }
        match Cache::find(&slots, path) {
            Some(i) => {
                slots.set(i, slot);
                assert(slot_views(slots@) =~= before.update(i as int, entry));
            },
            None => {
                slots.push(slot);
                assert(slot_views(slots@) =~= before.push(entry));
            },
        }
        if slots.len() > cache_size {
            let ghost full = slot_views(slots@);
            let at = Cache::find_oldest(&slots);
            let _ = slots.remove(at);
            proof {
                assert(slot_views(slots@) =~= full.remove(at as int));
                lemma_remove_distinct(full, at as int);
            }
        }
        self.slots = slots;
    }

    /// Stores `img` for `path` with the present time as its creation time,
    /// and lets the oldest entry go if the cache is then overfull.
    pub fn insert(&mut self, path: &FilePath, img: DecodedImage)
        ensures
            exists|now: u128|
                final(self)@ == #[trigger] evicted(
                    stored(old(self)@, path@, img@, now),
                    old(self).capacity(),
                ),
            final(self).capacity() == old(self).capacity(),
    {
        let now = nanos_since(&self.origin);
        self.insert_at(path, img, now);
    }
}

} // verus!
