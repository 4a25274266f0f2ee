//! A bounded cache of resized, encoded images.
//!
//! The cache never holds more entries than its capacity. It evicts in the
//! order of insertion: a lookup never refreshes an entry; an insertion puts
//! its key at the end of the queue, also where the cache held the key
//! before. It keeps a map from key to image and a queue of the keys in the
//! order of their last insertion; every key of the map has exactly one place
//! in the queue.

use std::collections::VecDeque;
use vstd::hash_map::StringHashMap;
use vstd::prelude::*;

verus! {

/// An encoded image with the dimensions it was resized to.
#[derive(Debug)]
pub struct CachedImage {
    pub data: Vec<u8>,
    pub width: u32,
    pub height: u32,
}

/// The state of a cache: the entries, the keys in the order of their
/// insertion, and the capacity.
pub ghost struct CacheModel {
    pub entries: Map<Seq<char>, CachedImage>,
    pub queue: Seq<Seq<char>>,
    pub capacity: nat,
}

impl CacheModel {
    /// The empty cache of a capacity.
    pub open spec fn empty(capacity: nat) -> CacheModel {
        CacheModel { entries: Map::empty(), queue: Seq::empty(), capacity }
    }

    /// The cache is full: it holds at least as many entries as its capacity.
    pub open spec fn is_full(self) -> bool {
        self.entries.len() >= self.capacity
    }

    /// The state before a new entry goes in: where the cache is full and the
    /// queue is not empty, the key at the head of the queue leaves the queue
    /// and its entry, if there is one, leaves the map.
    pub open spec fn evicted(self) -> CacheModel {
        if self.is_full() && self.queue.len() > 0 {
            CacheModel {
                entries: self.entries.remove(self.queue[0]),
                queue: self.queue.drop_first(),
                capacity: self.capacity,
            }
        } else {
            self
        }
    }

    /// The state after an insertion. Where the cache is full, the head of
    /// the queue is evicted first. Then the key joins the end of the queue,
    /// leaving an earlier place if it had one, and the map holds the image
    /// under it. A cache without capacity stays empty.
    pub open spec fn inserted(self, key: Seq<char>, image: CachedImage) -> CacheModel {
        if self.capacity == 0 {
            self
        } else {
            CacheModel {
                entries: self.evicted().entries.insert(key, image),
                queue: without(self.evicted().queue, key).push(key),
                capacity: self.capacity,
            }
        }
    }

    /// The state after the first `n` of the keys were inserted with their
    /// images, in order.
    pub open spec fn filled(self, keys: Seq<Seq<char>>, images: Seq<CachedImage>, n: int) -> CacheModel
        decreases n,
    {
        if n <= 0 {
            self
        } else {
            self.filled(keys, images, n - 1).inserted(keys[n - 1], images[n - 1])
        }
    }

    /// Every key has one place in the queue: the queue holds no key twice,
    /// the map holds exactly the keys of the queue, and there are no more of
    /// them than the capacity.
    pub open spec fn is_tidy(self) -> bool {
        &&& self.queue.no_duplicates()
        &&& self.entries.dom() =~= self.queue.to_set()
        &&& self.queue.len() <= self.capacity
    }
}

/// The queue without a key.
pub open spec fn without(queue: Seq<Seq<char>>, key: Seq<char>) -> Seq<Seq<char>>
    decreases queue.len(),
{
    if queue.len() == 0 {
        queue
    } else if queue.last() == key {
        without(queue.drop_last(), key)
    } else {
        without(queue.drop_last(), key).push(queue.last())
    }
}

/// A bounded cache from key to image.
pub struct ImageCache {
    cache: StringHashMap<CachedImage>,
    order: VecDeque<String>,
    max_size: usize,
}

impl View for ImageCache {
    type V = CacheModel;

    closed spec fn view(&self) -> CacheModel {
        model_of(self.cache@, self.order@, self.max_size)
    }
}

/// The texts of a queue of keys.
spec fn names(order: Seq<String>) -> Seq<Seq<char>> {
    Seq::new(order.len(), |i: int| order[i]@)
}

/// The state that a map, a queue of keys and a capacity stand for.
spec fn model_of(entries: Map<Seq<char>, CachedImage>, order: Seq<String>, max_size: usize) -> CacheModel {
    CacheModel { entries, queue: names(order), capacity: max_size as nat }
}

impl ImageCache {
    /// What holds of every cache: each key of the map has one place in the
    /// queue, and there are no more of them than the capacity.
    #[verifier::type_invariant]
    pub open spec fn tidy(self) -> bool {
        self@.is_tidy()
    }

    /// An empty cache that never holds more than `max_size` entries.
    pub fn new(max_size: usize) -> (cache: ImageCache)
        ensures
            cache@ == CacheModel::empty(max_size as nat),
            cache@.is_tidy(),
    {
        let map: StringHashMap<CachedImage> = StringHashMap::new();
        let queue: VecDeque<String> = VecDeque::new();
        assert(model_of(map@, queue@, max_size).queue =~= Seq::<Seq<char>>::empty());
        assert(map@.dom() =~= model_of(map@, queue@, max_size).queue.to_set());
        ImageCache { cache: map, order: queue, max_size }
    }

    /// Looks a key up. The cache is left as it is: a lookup does not save an
    /// entry from eviction.
    pub fn get(&self, key: &str) -> (found: Option<&CachedImage>)
        ensures
            self@.is_tidy(),
            match found {
                Some(image) => self@.entries.contains_key(key@) && *image == self@.entries[key@],
                None => !self@.entries.contains_key(key@),
            },
    {
        proof {
            use_type_invariant(self);
        }
        self.cache.get(key)
    }

    /// Inserts an image under a key. The cache never holds more entries
    /// than its capacity: where it is full, the key at the head of the queue
    /// leaves first. The key inserted is then the last of the queue.
    pub fn insert(&mut self, key: String, image: CachedImage)
        ensures
            final(self)@ == old(self)@.inserted(key@, image),
            old(self)@.is_tidy(),
            final(self)@.is_tidy(),
            final(self)@.entries.len() <= final(self)@.capacity,
            final(self)@.capacity >= 1 ==> final(self)@.entries.contains_key(key@),
            final(self)@.capacity >= 1 ==> final(self)@.entries[key@] == image,
            final(self)@.capacity >= 1 ==> final(self)@.queue.last() == key@,
    {
        broadcast use vstd::hash_map::group_hash_map_axioms;

        proof {
            use_type_invariant(&*self);
        }
        let ghost before = self@;
        proof {
            lemma_insert_keeps_tidy(before, key@, image);
            lemma_tidy_len(before);
        }
        if self.max_size == 0 {
            return ;
        }
        let mut taken = ImageCache::new(self.max_size);
        core::mem::swap(self, &mut taken);
        let ImageCache { cache: mut map, order: mut queue, max_size } = taken;
        assert(model_of(map@, queue@, max_size) == before);
        if map.len() >= max_size {
            match queue.pop_front() {
                Some(oldest) => {
                    map.remove(oldest.as_str());
                    assert(names(queue@) =~= before.queue.drop_first());
                    assert(oldest@ == before.queue[0]);
                },
                None => {},
            }
        }
        let ghost e = before.evicted();
        assert(model_of(map@, queue@, max_size) == e);
        proof {
            lemma_evicted_tidy(before);
            lemma_without(e.queue, key@);
        }
        if map.contains_key(key.as_str()) {
            queue = leave_out(queue, &key);
        } else {
            assert(!e.queue.to_set().contains(key@));
        }
        assert(names(queue@) == without(e.queue, key@));
        let ghost rest = names(queue@);
        queue.push_back(key.clone());
        map.insert(key, image);
        assert(names(queue@) =~= rest.push(key@));
        assert(model_of(map@, queue@, max_size) == before.inserted(key@, image));
        let mut done = ImageCache { cache: map, order: queue, max_size };
        core::mem::swap(self, &mut done);
    }

    /// Empties the map and the queue.
    pub fn clear(&mut self)
        ensures
            final(self)@ == CacheModel::empty(old(self)@.capacity),
            final(self)@.is_tidy(),
    {
        let mut empty = ImageCache::new(self.max_size);
        core::mem::swap(self, &mut empty);
    }

    /// Number of entries.
    pub fn len(&self) -> (n: usize)
        ensures
            n == self@.entries.len(),
            n <= self@.capacity,
            self@.is_tidy(),
    {
        broadcast use vstd::hash_map::group_hash_map_axioms;

        proof {
            use_type_invariant(self);
            lemma_tidy_len(self@);
        }
        self.cache.len()
    }
}

/// Copies a queue of keys without one key.
fn leave_out(queue: VecDeque<String>, key: &String) -> (kept: VecDeque<String>)
    ensures
        names(kept@) == without(names(queue@), key@),
{
    let ghost all = queue@;
    let mut queue = queue;
    let mut kept: VecDeque<String> = VecDeque::new();
    assert(names(kept@) =~= without(names(all).subrange(0, 0), key@));
    while queue.len() > 0
        invariant
            queue@.len() <= all.len(),
            queue@ == all.subrange(all.len() - queue@.len(), all.len() as int),
            names(kept@) == without(names(all).subrange(0, all.len() - queue@.len()), key@),
        decreases queue@.len(),
    {
        let ghost done = all.len() - queue@.len();
        let ghost before = names(kept@);
        match queue.pop_front() {
            Some(name) => {
                proof {
                    let now = names(all).subrange(0, done + 1);
                    assert(name == all[done]);
                    assert(now.drop_last() =~= names(all).subrange(0, done));
                    assert(now.last() == name@);
                    assert(queue@ =~= all.subrange(done + 1, all.len() as int));
                }
                if !(name == *key) {
                    kept.push_back(name);
                    assert(names(kept@) =~= before.push(name@));
                }
            },
            None => {},
        }
    }
    assert(names(all).subrange(0, all.len() as int) =~= names(all));
    kept
}

/// A sequence with one more element holds what it held and that element.
proof fn lemma_push_holds(s: Seq<Seq<char>>, x: Seq<char>, k: Seq<char>)
    ensures
        s.push(x).contains(k) <==> s.contains(k) || k == x,
{
    if s.push(x).contains(k) {
        let i = choose|i: int| 0 <= i < s.push(x).len() && s.push(x)[i] == k;
        if i < s.len() {
            assert(s[i] == k);
        }
    }
    if s.contains(k) {
        let i = choose|i: int| 0 <= i < s.len() && s[i] == k;
        assert(s.push(x)[i] == k);
    }
    if k == x {
        assert(s.push(x)[s.len() as int] == k);
    }
}

/// The queue without a key holds every other key it held, in order of the
/// queue, and not the key. A queue that holds no key twice loses exactly
/// one place where it held the key, and none where it did not.
pub proof fn lemma_without(queue: Seq<Seq<char>>, key: Seq<char>)
    ensures
        !without(queue, key).contains(key),
        forall|k: Seq<char>|
            k != key ==> (#[trigger] without(queue, key).contains(k) <==> queue.contains(k)),
        queue.no_duplicates() ==> without(queue, key).no_duplicates(),
        !queue.contains(key) ==> without(queue, key) == queue,
        without(queue, key).len() <= queue.len(),
        queue.no_duplicates() && queue.contains(key) ==> without(queue, key).len() == queue.len()
            - 1,
    decreases queue.len(),
{
    if queue.len() > 0 {
        let front = queue.drop_last();
        let last = queue.last();
        let kept = without(front, key);
        lemma_without(front, key);
        assert(queue =~= front.push(last));
        assert forall|k: Seq<char>| k != key implies (#[trigger] without(queue, key).contains(k)
            <==> queue.contains(k)) by {
            lemma_push_holds(front, last, k);
            lemma_push_holds(kept, last, k);
        }
        lemma_push_holds(front, last, key);
        lemma_push_holds(kept, last, key);
        if queue.no_duplicates() {
            assert(front.no_duplicates());
            assert(!front.contains(last)) by {
                if front.contains(last) {
                    let i = choose|i: int| 0 <= i < front.len() && front[i] == last;
                    assert(queue[i] == queue[queue.len() - 1]);
                }
            }
            if last != key {
                assert(!kept.contains(last));
                assert(kept.push(last).no_duplicates()) by {
                    assert forall|i: int, j: int|
                        0 <= i < kept.len() + 1 && 0 <= j < kept.len() + 1 && i != j implies kept.push(
                        last,
                    )[i] != kept.push(last)[j] by {
                        if i == kept.len() {
                            assert(kept.contains(kept[j]));
                        } else if j == kept.len() {
                            assert(kept.contains(kept[i]));
                        }
                    }
                }
            }
        }
        if !queue.contains(key) {
            assert(without(queue, key) =~= queue);
        }
    }
}

/// Eviction keeps a tidy cache tidy. A full cache with capacity loses the
/// head of its queue; any other cache stays as it is.
pub proof fn lemma_evicted_tidy(m: CacheModel)
    requires
        m.is_tidy(),
    ensures
        m.evicted().is_tidy(),
        m.evicted().capacity == m.capacity,
        m.capacity >= 1 && m.queue.len() == m.capacity ==> m.evicted().queue
            == m.queue.drop_first() && m.evicted().entries == m.entries.remove(m.queue[0]),
        m.queue.len() < m.capacity ==> m.evicted() == m,
        m.capacity >= 1 ==> m.evicted().queue.len() < m.capacity,
{
    lemma_tidy_len(m);
    let e = m.evicted();
    if m.capacity >= 1 && m.queue.len() == m.capacity {
        let rest = m.queue.drop_first();
        assert(rest.no_duplicates());
        assert(e.entries.dom() =~= rest.to_set()) by {
            assert forall|k: Seq<char>| rest.to_set().contains(k) implies #[trigger] e.entries.dom().contains(
                k,
            ) by {
                let i = choose|i: int| 0 <= i < rest.len() && rest[i] == k;
                assert(m.queue[i + 1] == k);
                assert(m.queue.contains(k));
            }
            assert forall|k: Seq<char>| #[trigger] e.entries.dom().contains(k) implies rest.to_set().contains(
                k,
            ) by {
                assert(m.queue.contains(k));
                let i = choose|i: int| 0 <= i < m.queue.len() && m.queue[i] == k;
                assert(i != 0);
                assert(rest[i - 1] == k);
            }
        }
    }
}

/// An insertion keeps a tidy cache tidy, and with it the number of entries
/// within the capacity. In a cache with capacity the key is then held with
/// the new image, at the end of the queue, and every other key that
/// eviction left holds what it held.
pub proof fn lemma_insert_keeps_tidy(m: CacheModel, key: Seq<char>, image: CachedImage)
    requires
        m.is_tidy(),
    ensures
        m.inserted(key, image).is_tidy(),
        m.inserted(key, image).capacity == m.capacity,
        m.inserted(key, image).entries.len() <= m.capacity,
        m.capacity >= 1 ==> {
            &&& m.inserted(key, image).entries.contains_key(key)
            &&& m.inserted(key, image).entries[key] == image
            &&& m.inserted(key, image).queue.len() >= 1
            &&& m.inserted(key, image).queue.last() == key
        },
        m.queue.len() < m.capacity ==> forall|k: Seq<char>|
            k != key && m.entries.contains_key(k) ==> #[trigger] m.inserted(
                key,
                image,
            ).entries.contains_key(k) && m.inserted(key, image).entries[k] == m.entries[k],
{
    lemma_tidy_len(m);
    if m.capacity >= 1 {
        lemma_evicted_tidy(m);
        let e = m.evicted();
        lemma_tidy_len(e);
        lemma_without(e.queue, key);
        let kept = without(e.queue, key);
        let after = m.inserted(key, image);
        assert(after.queue.no_duplicates()) by {
            assert forall|i: int, j: int|
                0 <= i < after.queue.len() && 0 <= j < after.queue.len() && i != j implies after.queue[i]
                != after.queue[j] by {
                if i == kept.len() {
                    assert(kept.contains(kept[j]));
                } else if j == kept.len() {
                    assert(kept.contains(kept[i]));
                }
            }
        }
        assert(after.entries.dom() =~= after.queue.to_set()) by {
            assert forall|k: Seq<char>| after.queue.to_set().contains(k) implies #[trigger] after.entries.dom().contains(
                k,
            ) by {
                lemma_push_holds(kept, key, k);
                if k != key {
                    assert(kept.contains(k));
                    assert(e.queue.to_set().contains(k));
                }
            }
            assert forall|k: Seq<char>| #[trigger] after.entries.dom().contains(k) implies after.queue.to_set().contains(
                k,
            ) by {
                lemma_push_holds(kept, key, k);
                if k != key {
                    assert(e.queue.to_set().contains(k));
                    assert(kept.contains(k));
                }
            }
        }
        assert(after.queue.len() <= m.capacity) by {
            if e.queue.contains(key) {
                assert(kept.len() == e.queue.len() - 1);
            }
        }
        lemma_tidy_len(after);
    }
}

/// Inserting a key that the cache does not hold: where the cache was full,
/// the head of the queue is evicted; otherwise nothing is. The key joins the
/// end of the queue. A cache without capacity stays as it is.
pub proof fn lemma_insert_fresh(m: CacheModel, key: Seq<char>, image: CachedImage)
    requires
        m.is_tidy(),
        !m.entries.contains_key(key),
    ensures
        m.inserted(key, image).is_tidy(),
        m.capacity == 0 ==> m.inserted(key, image) == m,
        m.capacity >= 1 && m.queue.len() == m.capacity ==> m.inserted(key, image).queue
            == m.queue.drop_first().push(key),
        m.queue.len() < m.capacity ==> m.inserted(key, image).queue == m.queue.push(key),
        m.inserted(key, image).entries.len() == m.inserted(key, image).queue.len(),
{
    lemma_insert_keeps_tidy(m, key, image);
    lemma_tidy_len(m.inserted(key, image));
    if m.capacity >= 1 {
        lemma_evicted_tidy(m);
        let e = m.evicted();
        assert(!e.queue.contains(key)) by {
            if e.queue.contains(key) {
                assert(e.queue.to_set().contains(key));
                assert(e.entries.dom().contains(key));
            }
        }
        lemma_without(e.queue, key);
    }
}

/// A tidy cache holds as many entries as its queue holds keys.
pub proof fn lemma_tidy_len(m: CacheModel)
    requires
        m.is_tidy(),
    ensures
        m.entries.dom().finite(),
        m.entries.len() == m.queue.len(),
{
    m.queue.unique_seq_to_set();
    assert(m.entries.dom() == m.queue.to_set());
    vstd::seq_lib::seq_to_set_is_finite(m.queue);
}

/// Filling an empty cache with distinct keys keeps the last `capacity` of
/// them, in the order of insertion.
pub proof fn lemma_fill(capacity: nat, keys: Seq<Seq<char>>, images: Seq<CachedImage>, n: int)
    requires
        keys.no_duplicates(),
        images.len() == keys.len(),
        0 <= n <= keys.len(),
    ensures
        CacheModel::empty(capacity).filled(keys, images, n).is_tidy(),
        CacheModel::empty(capacity).filled(keys, images, n).capacity == capacity,
        CacheModel::empty(capacity).filled(keys, images, n).queue == keys.subrange(
            if n > capacity {
                n - capacity
            } else {
                0
            },
            n,
        ),
    decreases n,
{
    let start = CacheModel::empty(capacity);
    if n <= 0 {
        assert(start.queue =~= keys.subrange(0, 0));
        assert(start.entries.dom() =~= start.queue.to_set());
    } else {
        lemma_fill(capacity, keys, images, n - 1);
        let before = start.filled(keys, images, n - 1);
        let lo = if n - 1 > capacity {
            n - 1 - capacity
        } else {
            0
        };
        assert(!before.entries.contains_key(keys[n - 1])) by {
            if before.queue.contains(keys[n - 1]) {
                let i = choose|i: int| 0 <= i < before.queue.len() && before.queue[i] == keys[n - 1];
                assert(keys[lo + i] == keys[n - 1]);
            }
        }
        lemma_insert_fresh(before, keys[n - 1], images[n - 1]);
        let after = before.inserted(keys[n - 1], images[n - 1]);
        let lo2 = if n > capacity {
            n - capacity
        } else {
            0
        };
        assert(before.queue.len() == n - 1 - lo);
        if capacity == 0 {
            assert(after == before);
            assert(after.queue =~= keys.subrange(lo2, n));
        } else if n - 1 >= capacity {
            assert(before.queue.len() == capacity);
            assert(after.queue == before.queue.drop_first().push(keys[n - 1]));
            assert(lo2 == lo + 1);
            assert(after.queue =~= keys.subrange(lo2, n));
        } else {
            assert(before.queue.len() < capacity);
            assert(after.queue == before.queue.push(keys[n - 1]));
            assert(after.queue =~= keys.subrange(lo2, n));
        }
    }
}

/// Eviction is first in, first out. After one more distinct key than the
/// capacity was inserted into an empty cache, exactly `capacity` entries
/// remain: the key inserted first is not there, and all the others are.
pub proof fn lemma_first_in_first_out(
    capacity: nat,
    keys: Seq<Seq<char>>,
    images: Seq<CachedImage>,
)
    requires
        keys.no_duplicates(),
        images.len() == keys.len(),
        keys.len() == capacity + 1,
    ensures
        CacheModel::empty(capacity).filled(keys, images, keys.len() as int).entries.len()
            == capacity,
        !CacheModel::empty(capacity).filled(keys, images, keys.len() as int).entries.contains_key(
            keys[0],
        ),
        forall|i: int|
            1 <= i < keys.len() ==> CacheModel::empty(capacity).filled(
                keys,
                images,
                keys.len() as int,
            ).entries.contains_key(#[trigger] keys[i]),
        CacheModel::empty(capacity).filled(keys, images, keys.len() as int).queue
            == keys.drop_first(),
{
    let n = keys.len() as int;
    lemma_fill(capacity, keys, images, n);
    let m = CacheModel::empty(capacity).filled(keys, images, n);
    lemma_tidy_len(m);
    assert(m.queue =~= keys.drop_first());
    assert(!m.entries.contains_key(keys[0])) by {
        if m.queue.contains(keys[0]) {
            let i = choose|i: int| 0 <= i < m.queue.len() && m.queue[i] == keys[0];
            assert(keys[i + 1] == keys[0]);
        }
    }
    assert forall|i: int| 1 <= i < keys.len() implies m.entries.contains_key(#[trigger] keys[i]) by {
        assert(m.queue[i - 1] == keys[i]);
        assert(m.queue.contains(keys[i]));
    }
}

} // verus!
