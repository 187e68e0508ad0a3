//! The map itself: a table together with the hash builder that says where
//! each key belongs.

use vstd::prelude::*;
use std::borrow::Borrow;
use std::hash::{BuildHasher, Hash, RandomState};
use crate::growth::grown;
use crate::hashing::{always_answers, always_hashes, answers, gives_hash, hash_for, hash_one, same_form};
use crate::power::{is_pow2, MAX_CAPACITY};
use crate::table::Table;

verus! {

/// A hash map from `K` to `V` that hashes its keys with `S`.
pub struct HashMap<K, V, S = RandomState> {
    pub table: Table<K, V>,
    pub hasher: S,
}

impl<K, V> Table<K, V> {
    /// Whether this table is `from` after room has been made for one more
    /// entry: untouched where `from` was not crowded, else resized, to the
    /// same capacity where the live entries of `from` filled less than half
    /// of it and to the grown capacity where they did not.
    pub open spec fn roomy(&self, from: &Self) -> bool {
        &&& self.wf()
        &&& self.len == from.len
        &&& self.len < self.size()
        &&& !from.crowded() ==> *self == *from
        &&& from.crowded() ==> self.resized(
            from,
            if from.len < from.size() / 2 {
                from.size()
            } else {
                grown(from.size())
            },
        )
    }

    /// Whether this table is `from` after a sparse table has been halved:
    /// untouched where `from` was not sparse, else resized to half the
    /// capacity.
    pub open spec fn thinned(&self, from: &Self) -> bool {
        &&& self.wf()
        &&& self.len == from.len
        &&& !from.sparse() ==> *self == *from
        &&& from.sparse() ==> self.resized(from, from.size() / 2)
    }
}

impl<K, V> Table<K, V> {
    /// Whether the slot at offset `c` of the path of `hash` is the first of
    /// the slots tried under `hash` at which the comparison with `key`
    /// answered yes: it answered no at every slot tried before.
    pub open spec fn first_answer<Q: PartialEq + ?Sized>(&self, hash: u64, key: &Q, c: int) -> bool
        where K: Borrow<Q> {
        &&& self.candidate(hash, c)
        &&& self.holds(self.slot(hash, c))
        &&& answers(&self.key(self.slot(hash, c)), key, true)
        &&& forall|d: int|
            0 <= d < c && #[trigger] self.candidate(hash, d) ==> answers(
                &self.key(self.slot(hash, d)),
                key,
                false,
            )
    }

    /// Whether `at` is what a search for `key` under `hash` comes to: the
    /// first slot tried under `hash` at which the comparison with `key`
    /// answered yes, or none where it answered no at every slot tried.
    pub open spec fn sought<Q: PartialEq + ?Sized>(
        &self,
        hash: u64,
        key: &Q,
        at: Option<usize>,
    ) -> bool where K: Borrow<Q> {
        match at {
            Some(i) => exists|c: int| #[trigger]
                self.first_answer(hash, key, c) && i == self.slot(hash, c),
            None => forall|c: int| #[trigger]
                self.candidate(hash, c) ==> answers(&self.key(self.slot(hash, c)), key, false),
        }
    }

    /// The slot that holds `target`, or none where no slot does.
    pub open spec fn position(&self, target: K) -> Option<usize> {
        if self.has_key(target) {
            Some(self.slot_of(target) as usize)
        } else {
            None
        }
    }

    /// The value in the slot `at`, or none for no slot.
    pub open spec fn value_found(&self, at: Option<usize>) -> Option<&V> {
        match at {
            Some(i) => Some(&self.value(i as int)),
            None => None,
        }
    }

    /// A table that holds the entries of another holds no key that the
    /// other does not hold.
    pub proof fn lemma_absent_kept(&self, from: &Self, k: K)
        requires
            self.same_entries(from),
            !from.has_key(k),
        ensures
            !self.has_key(k),
    {
        let src = choose|src: Seq<int>| self.carries(from, src);
        if self.has_key(k) {
            let j = self.slot_of(k);
            assert(self.holds(j) && self.key(j) == k);
            assert(from.holds(src[j]) && from.key(src[j]) == k);
        }
    }
}

impl<K, V, S> HashMap<K, V, S> {
    /// The invariant of the map is that of its table.
    pub open spec fn wf(&self) -> bool {
        self.table.wf()
    }

    /// The map as a mathematical map from keys to values.
    pub open spec fn view(&self) -> Map<K, V> {
        self.table@
    }

    /// Creates an empty map with the given hasher.
    pub fn with_hasher(hasher: S) -> (m: Self)
        ensures
            m.wf(),
            m.table.len == 0,
            m.table.size() == 0,
            m.hasher == hasher,
            m@ == Map::<K, V>::empty(),
    {
        Self::with_capacity_and_hasher(0, hasher)
    }

    /// Creates an empty map with the given hasher and at least the given
    /// capacity: none for zero, else the next power of two.
    pub fn with_capacity_and_hasher(capacity: usize, hasher: S) -> (m: Self)
        requires
            capacity <= MAX_CAPACITY,
        ensures
            m.wf(),
            m.table.len == 0,
            m.table.deleted == 0,
            capacity == 0 ==> m.table.size() == 0,
            capacity > 0 ==> is_pow2(m.table.size()) && capacity <= m.table.size() && (forall|
                q: int,
            |
                is_pow2(q) && capacity <= q ==> m.table.size() <= q),
            m.hasher == hasher,
            m@ == Map::<K, V>::empty(),
            forall|i: int| !m.table.holds(i),
    {
        HashMap { table: Table::new(capacity), hasher }
    }

    /// The number of entries stored in this map.
    pub fn len(&self) -> (n: usize)
        ensures
            n == self.table.len,
    {
        self.table.len()
    }

    /// The number of slots this map has.
    pub fn capacity(&self) -> (n: usize)
        ensures
            n == self.table.size(),
    {
        self.table.capacity()
    }

    /// Whether the map holds no entry.
    pub fn is_empty(&self) -> (b: bool)
        ensures
            b == (self.table.len == 0),
    {
        self.len() == 0
    }

    /// Takes every entry out of the map, which is empty from then on and
    /// keeps its capacity, and hands the entries out in the order of their
    /// slots.
    pub fn drain(&mut self) -> (d: crate::drain::Drain<K, V>)
        requires
            old(self).wf(),
        ensures
            final(self).wf(),
            final(self).table.blank(),
            final(self).table.size() == old(self).table.size(),
            final(self).hasher == old(self).hasher,
            final(self)@ == Map::<K, V>::empty(),
            d.inv(),
            d.rest() == old(self).table.entries(),
            d.len == old(self).table.len,
    {
        self.table.drain()
    }

    /// Drops every entry and keeps the capacity.
    pub fn clear(&mut self)
        requires
            old(self).wf(),
        ensures
            final(self).wf(),
            final(self).table.blank(),
            final(self).table.size() == old(self).table.size(),
            final(self).hasher == old(self).hasher,
            final(self)@ == Map::<K, V>::empty(),
    {
        self.table.clear();
    }
}

impl<K, V, S: Default> HashMap<K, V, S> {
    /// Creates an empty map.
    pub fn new() -> (m: Self)
        ensures
            m.wf(),
            m.table.len == 0,
            m.table.size() == 0,
            m@ == Map::<K, V>::empty(),
    {
        Self::with_capacity(0)
    }

    /// Creates an empty map with at least the given capacity: none for
    /// zero, else the next power of two.
    pub fn with_capacity(capacity: usize) -> (m: Self)
        requires
            capacity <= MAX_CAPACITY,
        ensures
            m.wf(),
            m.table.len == 0,
            capacity == 0 ==> m.table.size() == 0,
            capacity > 0 ==> is_pow2(m.table.size()) && capacity <= m.table.size() && (forall|
                q: int,
            |
                is_pow2(q) && capacity <= q ==> m.table.size() <= q),
            m@ == Map::<K, V>::empty(),
    {
        Self::with_capacity_and_hasher(capacity, S::default())
    }
}

impl<K: Hash + Eq, V, S: BuildHasher> HashMap<K, V, S> {
    /// Whether `at` is what a lookup of `key` comes to, whatever the hash
    /// builder and the comparison of keys give: a search under a hash that
    /// the hash builder gave for `key`.
    pub open spec fn looked_up<Q: Hash + Eq + ?Sized>(&self, key: &Q, at: Option<usize>) -> bool
        where K: Borrow<Q> {
        exists|hash: u64| #[trigger]
            gives_hash(&self.hasher, key, hash) && self.table.sought(hash, key, at)
    }

    /// Whether lookups of `key` are settled on `target`, filed under
    /// `hash`: the hash builder gives `hash` for `key` on every call; the
    /// comparison of an entry's key with `key` says, on every call, whether
    /// that key is `target`; and the table holds `target` at most once, and
    /// then filed under `hash`.
    pub open spec fn settled<Q: Hash + Eq + ?Sized>(&self, key: &Q, hash: u64, target: K) -> bool
        where K: Borrow<Q> {
        &&& always_hashes(&self.hasher, key, hash)
        &&& forall|i: int| #[trigger]
            self.table.holds(i) ==> always_answers(
                &self.table.key(i),
                key,
                self.table.key(i) == target,
            )
        &&& self.table.single(target)
        &&& self.table.agrees(hash, target)
    }

    /// Where lookups of `key` are settled on `target`, a lookup of `key`
    /// comes to the slot of `target`, or to none where the table does not
    /// hold it.
    pub proof fn lemma_settled<Q: Hash + Eq + ?Sized>(
        &self,
        key: &Q,
        hash: u64,
        target: K,
        at: Option<usize>,
    ) where K: Borrow<Q>
        requires
            self.wf(),
            self.settled(key, hash, target),
            self.looked_up(key, at),
        ensures
            at == self.table.position(target),
            at is Some <==> self@.contains_key(target),
            at matches Some(i) ==> self.table.holds(i as int) && self.table.key(i as int)
                == target && self@[target] == self.table.value(i as int),
    {
        let given = choose|h: u64| #[trigger]
            gives_hash(&self.hasher, key, h) && self.table.sought(h, key, at);
        assert(given == hash);
        match at {
            Some(i) => {
                let c = choose|c: int| #[trigger]
                    self.table.first_answer(hash, key, c) && i == self.table.slot(hash, c);
                assert(self.table.holds(i as int));
                assert(answers(&self.table.key(i as int), key, true));
                self.table.lemma_slot_of(i as int);
            },
            None => {
                if self.table.has_key(target) {
                    let j = self.table.slot_of(target);
                    assert(self.table.holds(j) && self.table.key(j) == target);
                    self.table.lemma_filed(j);
                    let c = crate::path::offset_of(
                        self.table.home(hash),
                        self.table.size(),
                        j,
                    );
                    assert(self.table.candidate(hash, c));
                    assert(answers(&self.table.key(j), key, false));
                }
            },
        }
    }

    /// The hash that the hash builder gives for `key` at this call. It is
    /// asked for anew at every call, and nothing is taken for granted about
    /// it.
    fn make_hash<Q: Hash + ?Sized>(&self, key: &Q) -> (hash: u64)
        ensures
            gives_hash(&self.hasher, key, hash),
    {
        hash_for(&self.hasher, key)
    }

    /// The slot of an entry whose key, in its borrowed form, `==` takes for
    /// `key`, looked for on the path of the hash that the hash builder
    /// gives for `key`: the first slot tried at which the comparison
    /// answers yes. Where lookups of `key` are settled on a key, that is
    /// the slot of that key, or none where the table does not hold it.
    fn find_position<Q: Hash + Eq + ?Sized>(&self, key: &Q) -> (r: Option<usize>) where
        K: Borrow<Q>,

        requires
            self.wf(),
        ensures
            self.looked_up(key, r),
            r matches Some(i) ==> self.table.holds(i as int),
            forall|hash: u64, target: K| #[trigger]
                self.settled(key, hash, target) ==> r == self.table.position(target),
    {
        let hash: u64 = self.make_hash(key);
        let is_key = |k: &K| -> (b: bool)
            ensures
                answers(k, key, b),
            { same_form::<K, Q>(k, key) };
        let r = self.table.search(hash, is_key);
        proof {
            match r {
                Some(i) => {
                    let c = choose|c: int| #[trigger]
                        self.table.first_accepted(hash, is_key, c) && i == self.table.slot(
                            hash,
                            c,
                        );
                    assert(self.table.first_answer(hash, key, c));
                },
                None => {},
            }
            assert(self.table.sought(hash, key, r));
            assert(self.looked_up(key, r));
            assert forall|h: u64, target: K| #[trigger]
                self.settled(key, h, target) implies r == self.table.position(target) by {
                self.lemma_settled(key, h, target, r);
            }
        }
        r
    }

    /// Reserves capacity for at least `additional` more entries. Where the
    /// capacity already covers them, nothing changes.
    pub fn reserve(&mut self, additional: usize)
        requires
            old(self).wf(),
            old(self).table.len + additional <= MAX_CAPACITY,
        ensures
            final(self).wf(),
            final(self).hasher == old(self).hasher,
            final(self).table.len == old(self).table.len,
            final(self).table.len + additional <= final(self).table.size(),
            old(self).table.len + additional <= old(self).table.size() ==> final(self).table
                == old(self).table,
            old(self).table.len + additional > old(self).table.size() ==> {
                &&& final(self).table.resized(&old(self).table, final(self).table.size())
                &&& is_pow2(final(self).table.size())
                &&& forall|q: int|
                    is_pow2(q) && old(self).table.len + additional <= q ==> final(self).table.size() <= q
            },
    {
        let hasher = &self.hasher;
        let hash_of = |k: &K| -> (h: u64) { hash_one(hasher, k) };
        self.table.reserve(additional, &hash_of);
    }

    /// Moves the map into fresh storage of at least `new_capacity` slots:
    /// the next power of two. Every entry is hashed again.
    pub fn resize(&mut self, new_capacity: usize)
        requires
            old(self).wf(),
            old(self).table.len <= new_capacity <= MAX_CAPACITY,
        ensures
            final(self).wf(),
            final(self).hasher == old(self).hasher,
            final(self).table.resized(&old(self).table, final(self).table.size()),
            is_pow2(final(self).table.size()),
            new_capacity <= final(self).table.size(),
            forall|q: int| is_pow2(q) && new_capacity <= q ==> final(self).table.size() <= q,
    {
        let hasher = &self.hasher;
        let hash_of = |k: &K| -> (h: u64) { hash_one(hasher, k) };
        self.table.resize(new_capacity, &hash_of);
    }

    /// Shrinks the capacity of this map as much as possible: to the next
    /// power of two from the number of its entries.
    pub fn shrink_to_fit(&mut self)
        requires
            old(self).wf(),
        ensures
            final(self).wf(),
            final(self).hasher == old(self).hasher,
            final(self).table.resized(&old(self).table, final(self).table.size()),
            is_pow2(final(self).table.size()),
            forall|q: int|
                is_pow2(q) && old(self).table.len <= q ==> final(self).table.size() <= q,
    {
        let hasher = &self.hasher;
        let hash_of = |k: &K| -> (h: u64) { hash_one(hasher, k) };
        self.table.shrink_to_fit(&hash_of);
    }

    /// Inserts a key-value pair into this map, and hands back the value
    /// that was there for a key equal to `key`.
    ///
    /// The table first makes room, then takes the pair under the hash that
    /// the hash builder gave for `key` at this call, whichever hash that is.
    pub fn insert(&mut self, key: K, value: V) -> (prior: Option<V>)
        requires
            old(self).wf(),
            old(self).table.len < MAX_CAPACITY / 2,
        ensures
            final(self).wf(),
            final(self).hasher == old(self).hasher,
            exists|hash: u64, mid: Table<K, V>|
                gives_hash(&old(self).hasher, &key, hash) && mid.roomy(&old(self).table)
                    && #[trigger] final(self).table.put(&mid, hash, key, value, prior),
    {
        let hash: u64 = self.make_hash(&key);
        let hasher = &self.hasher;
        let hash_of = |k: &K| -> (h: u64) { hash_one(hasher, k) };
        self.table.auto_reserve(&hash_of);
        let ghost mid = self.table;
        let prior = self.table.insert(hash, key, value);
        assert(self.table.put(&mid, hash, key, value, prior));
        prior
    }

    /// Performs a lookup for a key, and hands back a reference to the
    /// value of the first entry, on the path of the hash that the hash
    /// builder gives for `key`, whose key in its borrowed form `==` takes
    /// for `key`; none where `==` takes none of the keys tried. Where
    /// lookups of `key` are settled on a key, that is the value the map has
    /// at that key, or none where it has none.
    pub fn get<Q: Hash + Eq + ?Sized>(&self, key: &Q) -> (r: Option<&V>) where K: Borrow<Q>
        requires
            self.wf(),
        ensures
            exists|at: Option<usize>| #[trigger]
                self.looked_up(key, at) && r == self.table.value_found(at),
            forall|hash: u64, target: K| #[trigger]
                self.settled(key, hash, target) ==> r == (if self@.contains_key(target) {
                    Some(&self@[target])
                } else {
                    None
                }),
    {
        let at: Option<usize> = self.find_position(key);
        proof {
            assert(self.looked_up(key, at));
            assert forall|hash: u64, target: K| #[trigger]
                self.settled(key, hash, target) implies self.table.value_found(at) == (
            if self@.contains_key(target) {
                Some(&self@[target])
            } else {
                None
            }) by {
                self.lemma_settled(key, hash, target, at);
            }
        }
        match at {
            Some(idx) => self.table.value_at(idx),
            None => None,
        }
    }

    /// Performs a lookup for a key, as `get` does, and hands back the value
    /// for writing. Whatever is written through it is the value of that
    /// entry from then on; nothing else changes. Where lookups of `key` are
    /// settled on a key, the value is the one the map has at that key, and
    /// the map has what is written there from then on.
    pub fn get_mut<Q: Hash + Eq + ?Sized>(&mut self, key: &Q) -> (r: Option<&mut V>) where
        K: Borrow<Q>,

        requires
            old(self).wf(),
        ensures
            final(self).wf(),
            final(self).hasher == old(self).hasher,
            match r {
                Some(v) => exists|i: usize|
                    {
                        &&& #[trigger] old(self).looked_up(key, Some(i))
                        &&& old(self).table.holds(i as int)
                        &&& *v == old(self).table.value(i as int)
                        &&& final(self).table.revalued(&old(self).table, i as int, *final(v))
                    },
                None => old(self).looked_up(key, None::<usize>)
                    && final(self).table == old(self).table,
            },
            forall|hash: u64, target: K| #[trigger]
                old(self).settled(key, hash, target) ==> match r {
                    Some(v) => {
                        &&& old(self)@.contains_key(target)
                        &&& *v == old(self)@[target]
                        &&& final(self)@.contains_key(target)
                        &&& final(self)@[target] == *final(v)
                        &&& final(self).table.single(target)
                        &&& final(self).table.agrees(hash, target)
                    },
                    None => !old(self)@.contains_key(target),
                },
    {
        let ghost before = *self;
        match self.find_position(key) {
            Some(idx) => {
                proof {
                    assert(before.table.holds(idx as int));
                    assert(before.looked_up(key, Some(idx)));
                    assert forall|after: Table<K, V>, v: V| #[trigger]
                        after.revalued(&before.table, idx as int, v) implies after.wf() by {
                        before.table.lemma_revalued(&after, idx as int, v);
                    }
                    assert forall|hash: u64, target: K| #[trigger]
                        before.settled(key, hash, target) implies before@.contains_key(target)
                        && before.table.value(idx as int) == before@[target] && before.table.key(
                        idx as int,
                    ) == target by {
                        before.lemma_settled(key, hash, target, Some(idx));
                    }
                    assert forall|after: Table<K, V>, v: V, hash: u64, target: K|
                        #[trigger] after.revalued(&before.table, idx as int, v)
                            && #[trigger] before.settled(key, hash, target) implies after@.contains_key(
                        target,
                    ) && after@[target] == v && after.single(target) && after.agrees(
                        hash,
                        target,
                    ) by {
                        before.lemma_settled(key, hash, target, Some(idx));
                        before.table.lemma_key_put(&after, idx as int, target, v);
                        assert forall|j: int| #[trigger]
                            after.holds(j) && after.key(j) == target implies after.filed@[j]
                            == hash by {
                            assert(before.table.holds(j));
                        }
                    }
                }
                self.table.value_at_mut(idx)
            },
            None => {
                proof {
                    assert forall|hash: u64, target: K| #[trigger]
                        before.settled(key, hash, target) implies !before@.contains_key(
                        target,
                    ) by {
                        before.lemma_settled(key, hash, target, None);
                    }
                }
                None
            },
        }
    }

    /// Whether this table is `from` after the entry in slot `i`, which was
    /// `entry`, has been taken out and a table left sparse been halved.
    pub open spec fn removed_at(&self, from: &Self, i: usize, entry: (K, V)) -> bool {
        exists|mid: Table<K, V>| #[trigger]
            mid.emptied_at(&from.table, i as int, entry) && self.table.thinned(&mid)
    }

    /// Removes the entry of a key, looked up as `get` does, and hands it
    /// back; none, and nothing changes, where the lookup comes to none. A
    /// table left sparse is then halved. Where lookups of `key` are settled
    /// on a key, what is handed back is that key with the value the map had
    /// at it, or none where it had none, and the map holds nothing at that
    /// key from then on.
    pub fn remove_entry<Q: Hash + Eq + ?Sized>(&mut self, key: &Q) -> (r: Option<(K, V)>) where
        K: Borrow<Q>,

        requires
            old(self).wf(),
        ensures
            final(self).wf(),
            final(self).hasher == old(self).hasher,
            match r {
                Some(entry) => exists|i: usize| #[trigger]
                    old(self).looked_up(key, Some(i)) && final(self).removed_at(
                        old(self),
                        i,
                        entry,
                    ),
                None => old(self).looked_up(key, None::<usize>)
                    && final(self).table == old(self).table,
            },
            forall|hash: u64, target: K| #[trigger]
                old(self).settled(key, hash, target) ==> {
                    &&& r == (if old(self)@.contains_key(target) {
                        Some((target, old(self)@[target]))
                    } else {
                        None
                    })
                    &&& !final(self)@.contains_key(target)
                },
    {
        let ghost before = *self;
        match self.find_position(key) {
            Some(idx) => {
                let entry = self.table.remove_at(idx);
                let ghost mid = self.table;
                let hasher = &self.hasher;
                let hash_of = |k: &K| -> (h: u64) { hash_one(hasher, k) };
                self.table.auto_shrink(&hash_of);
                proof {
                    assert(mid.emptied_at(&before.table, idx as int, entry.unwrap())
                        && self.table.thinned(&mid));
                    assert(self.removed_at(&before, idx, entry.unwrap()));
                    assert(before.looked_up(key, Some(idx)));
                    assert forall|hash: u64, target: K| #[trigger]
                        before.settled(key, hash, target) implies entry == Some(
                        (target, before@[target]),
                    ) && before@.contains_key(target) && !self@.contains_key(target) by {
                        before.lemma_settled(key, hash, target, Some(idx));
                        before.table.lemma_key_take(&mid, idx as int);
                        if mid.sparse() {
                            self.table.lemma_absent_kept(&mid, target);
                        }
                    }
                }
                entry
            },
            None => {
                proof {
                    assert forall|hash: u64, target: K| #[trigger]
                        before.settled(key, hash, target) implies !before@.contains_key(
                        target,
                    ) by {
                        before.lemma_settled(key, hash, target, None);
                    }
                }
                None
            },
        }
    }

    /// Removes the entry of a key, as `remove_entry` does, and hands back
    /// its value. Where lookups of `key` are settled on a key, that is the
    /// value the map had at that key, or none where it had none, and the
    /// map holds nothing at that key from then on.
    pub fn remove<Q: Hash + Eq + ?Sized>(&mut self, key: &Q) -> (r: Option<V>) where K: Borrow<Q>
        requires
            old(self).wf(),
        ensures
            final(self).wf(),
            final(self).hasher == old(self).hasher,
            match r {
                Some(v) => exists|i: usize, k: K| #[trigger]
                    final(self).removed_at(old(self), i, (k, v)) && old(self).looked_up(
                        key,
                        Some(i),
                    ),
                None => old(self).looked_up(key, None::<usize>)
                    && final(self).table == old(self).table,
            },
            forall|hash: u64, target: K| #[trigger]
                old(self).settled(key, hash, target) ==> {
                    &&& r == (if old(self)@.contains_key(target) {
                        Some(old(self)@[target])
                    } else {
                        None
                    })
                    &&& !final(self)@.contains_key(target)
                },
    {
        let ghost before = *self;
        let taken: Option<(K, V)> = self.remove_entry(key);
        let ghost after = *self;
        match taken {
            Some(entry) => {
                let ghost whole = entry;
                let r: Option<V> = Some(entry.1);
                proof {
                    let i = choose|i: usize| #[trigger]
                        before.looked_up(key, Some(i)) && after.removed_at(&before, i, whole);
                    assert(after.removed_at(&before, i, (whole.0, r.unwrap()))
                        && before.looked_up(key, Some(i)));
                }
                r
            },
            None => None,
        }
    }
}

} // verus!
