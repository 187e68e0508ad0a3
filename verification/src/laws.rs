//! What holds of a table across its operations. Each statement here is
//! proved from the contracts of the operations it speaks of.

use vstd::prelude::*;
use crate::keyed::eq_is_identity;
use crate::meta::tag7;
use crate::power::is_pow2;
use crate::storage::drain::payloads;
use crate::storage::tag_is_valid;
use crate::table::Table;

verus! {

impl<K, V> Table<K, V> {
    /// In every well-formed table, live entries and tombstones together do
    /// not outnumber the slots; the capacity is zero or a power of two; a
    /// slot holds a payload exactly where its tag is occupied; and every
    /// entry carries the tag of the hash it was filed under and is reached
    /// from it before any empty tag ends the probe.
    pub proof fn lemma_invariant(&self)
        requires
            self.wf(),
        ensures
            self.len + self.deleted <= self.size(),
            self.size() == 0 || is_pow2(self.size()),
            forall|i: int|
                0 <= i < self.size() ==> (self.alloc.meta@[i] >= 0 <==> #[trigger] self.holds(i)),
            forall|i: int| 0 <= i < self.size() ==> tag_is_valid(#[trigger] self.alloc.meta@[i]),
            forall|i: int| #[trigger]
                self.holds(i) ==> self.alloc.meta@[i] == tag7(self.filed@[i]) && self.reachable(
                    self.filed@[i],
                    i,
                ),
    {
        crate::count::lemma_bounds(self.alloc.meta@, self.size(), self.size());
    }

    /// The tail of the tag array mirrors its head: in every table that has
    /// slots, tag `capacity + k` is tag `k` for every `k` below the group
    /// size.
    pub proof fn lemma_mirror_tail(&self)
        requires
            self.wf(),
            self.size() > 0,
        ensures
            forall|k: int|
                0 <= k < 32 ==> #[trigger] self.alloc.meta@[self.size() + k]
                    == self.alloc.meta@[k],
    {
    }

    /// Two blank tables of one capacity are alike, tag for tag and slot for
    /// slot: to clear a cleared table changes nothing.
    pub proof fn lemma_clear_twice(&self, again: &Self)
        requires
            self.wf(),
            self.blank(),
            again.wf(),
            again.blank(),
            again.size() == self.size(),
        ensures
            again.alloc.meta@ == self.alloc.meta@,
            again.alloc.buckets@ == self.alloc.buckets@,
            again.len == self.len,
            again.deleted == self.deleted,
            again@ == self@,
    {
        assert(again.alloc.meta@ =~= self.alloc.meta@);
        assert(again.alloc.buckets@ =~= self.alloc.buckets@);
        self.lemma_blank();
        again.lemma_blank();
    }

    /// A table shrunk to fit and shrunk to fit again has, after the second
    /// time, the capacity, the number of entries and the tombstone count
    /// that it had after the first, and is the same map where no key was
    /// held twice. Neither time does the number of entries change.
    pub proof fn lemma_shrink_twice(&self, once: &Self, twice: &Self)
        requires
            once.resized(self, once.size()),
            is_pow2(once.size()),
            forall|q: int| is_pow2(q) && self.len <= q ==> once.size() <= q,
            once.len <= once.size(),
            twice.resized(once, twice.size()),
            is_pow2(twice.size()),
            forall|q: int| is_pow2(q) && once.len <= q ==> twice.size() <= q,
            twice.len <= twice.size(),
        ensures
            twice.size() == once.size(),
            twice.len == once.len,
            once.len == self.len,
            twice.deleted == once.deleted,
            once.distinct() ==> twice.distinct() && twice@ == once@,
    {
    }

    /// The keys held in the slots below `n`.
    pub open spec fn keys_below(&self, n: int) -> Set<K> {
        Set::new(|k: K| exists|i: int| i < n && #[trigger] self.holds(i) && self.key(i) == k)
    }

    /// Where no key is held twice, the slots below `n` hold as many keys as
    /// there are occupied tags among them.
    pub proof fn lemma_keys_below(&self, n: int)
        requires
            self.wf(),
            self.distinct(),
            0 <= n <= self.size(),
        ensures
            self.keys_below(n).finite(),
            self.keys_below(n).len() == crate::count::occupied_below(self.alloc.meta@, n),
        decreases n,
    {
        if n == 0 {
            assert(self.keys_below(0) =~= Set::<K>::empty());
        } else {
            self.lemma_keys_below(n - 1);
            let below = self.keys_below(n - 1);
            if self.holds(n - 1) {
                let k = self.key(n - 1);
                if below.contains(k) {
                    let i = choose|i: int| i < n - 1 && #[trigger] self.holds(i) && self.key(i) == k;
                    assert(self.holds(i) && self.holds(n - 1));
                }
                assert(self.keys_below(n) =~= below.insert(k)) by {
                    assert forall|q: K| self.keys_below(n).contains(q) <==> below.insert(
                        k,
                    ).contains(q) by {
                        if self.keys_below(n).contains(q) {
                            let i = choose|i: int|
                                i < n && #[trigger] self.holds(i) && self.key(i) == q;
                            if i < n - 1 {
                                assert(below.contains(q));
                            }
                        }
                        if below.contains(q) {
                            let i = choose|i: int|
                                i < n - 1 && #[trigger] self.holds(i) && self.key(i) == q;
                            assert(i < n && self.holds(i) && self.key(i) == q);
                        }
                        if q == k {
                            assert(self.holds(n - 1));
                        }
                    }
                }
            } else {
                assert(self.keys_below(n) =~= below) by {
                    assert forall|q: K| self.keys_below(n).contains(q) <==> below.contains(q) by {
                        if self.keys_below(n).contains(q) {
                            let i = choose|i: int|
                                i < n && #[trigger] self.holds(i) && self.key(i) == q;
                            assert(i < n - 1);
                        }
                        if below.contains(q) {
                            let i = choose|i: int|
                                i < n - 1 && #[trigger] self.holds(i) && self.key(i) == q;
                            assert(i < n && self.holds(i) && self.key(i) == q);
                        }
                    }
                }
            }
        }
    }

    /// Where no key is held twice, the map has as many keys as the table
    /// counts live entries.
    pub proof fn lemma_len(&self)
        requires
            self.wf(),
            self.distinct(),
        ensures
            self@.dom().finite(),
            self@.dom().len() == self.len,
    {
        self.lemma_keys_below(self.size());
        assert(self@.dom() =~= self.keys_below(self.size())) by {
            assert forall|q: K| self@.dom().contains(q) <==> self.keys_below(
                self.size(),
            ).contains(q) by {
                if self.has_key(q) {
                    let i = self.slot_of(q);
                    assert(self.holds(i) && self.key(i) == q);
                }
            }
        }
    }

    /// The payloads from a slot onward are the entries of the slots from
    /// there onward.
    pub proof fn lemma_payload_slots(&self, from: int, e: (K, V))
        requires
            self.alloc.buckets@.len() == self.size(),
            0 <= from <= self.size(),
        ensures
            payloads(self.alloc.buckets@, from).contains(e) <==> exists|i: int|
                from <= i && #[trigger] self.holds(i) && self.alloc.buckets@[i] == Some(e),
        decreases self.size() - from,
    {
        let held = self.alloc.buckets@;
        let all = payloads(held, from);
        if from < self.size() {
            self.lemma_payload_slots(from + 1, e);
            let later = payloads(held, from + 1);
            if held[from] is Some {
                let first = held[from].unwrap();
                assert(all =~= seq![first] + later);
                if all.contains(e) {
                    let n = choose|n: int| 0 <= n < all.len() && all[n] == e;
                    if n == 0 {
                        assert(self.holds(from) && held[from] == Some(e));
                    } else {
                        assert(later[n - 1] == e);
                        assert(later.contains(e));
                    }
                }
                if exists|i: int| from <= i && #[trigger] self.holds(i) && held[i] == Some(e) {
                    let i = choose|i: int| from <= i && #[trigger] self.holds(i) && held[i]
                        == Some(e);
                    if i == from {
                        assert(all[0] == e);
                    } else {
                        assert(later.contains(e));
                        let n = choose|n: int| 0 <= n < later.len() && later[n] == e;
                        assert(all[n + 1] == e);
                    }
                }
            } else {
                assert(all == later);
                if exists|i: int| from <= i && #[trigger] self.holds(i) && held[i] == Some(e) {
                    let i = choose|i: int| from <= i && #[trigger] self.holds(i) && held[i]
                        == Some(e);
                    assert(i != from);
                }
            }
        } else {
            assert(all.len() == 0);
        }
    }

    /// What a drain hands out is what the table held: there are as many
    /// entries in slot order as the table counts, each is the entry of a
    /// slot and each slot's entry is among them; and where no key is held
    /// twice, they are exactly the pairs of the map.
    pub proof fn lemma_entries(&self)
        requires
            self.wf(),
        ensures
            self.entries().len() == self.len,
            forall|e: (K, V)|
                #[trigger] self.entries().contains(e) <==> exists|i: int| #[trigger]
                    self.holds(i) && self.alloc.buckets@[i] == Some(e),
            self.distinct() ==> forall|k: K, v: V|
                #[trigger] self.entries().contains((k, v)) <==> self@.contains_pair(k, v),
    {
        crate::storage::drain::lemma_payloads_count(&self.alloc, 0);
        assert forall|e: (K, V)|
            #[trigger] self.entries().contains(e) <==> exists|i: int| #[trigger]
                self.holds(i) && self.alloc.buckets@[i] == Some(e) by {
            self.lemma_payload_slots(0, e);
        }
        if self.distinct() {
            assert forall|k: K, v: V|
                #[trigger] self.entries().contains((k, v)) <==> self@.contains_pair(k, v) by {
                self.lemma_payload_slots(0, (k, v));
                if self@.contains_pair(k, v) {
                    let i = self.slot_of(k);
                    assert(self.holds(i) && self.key(i) == k);
                    assert(self.alloc.buckets@[i] == Some((k, v)));
                }
                if self.entries().contains((k, v)) {
                    let i = choose|i: int| #[trigger]
                        self.holds(i) && self.alloc.buckets@[i] == Some((k, v));
                    self.lemma_slot_of(i);
                }
            }
        }
    }
}

impl<K: PartialEq, V> Table<K, V> {
    /// An entry is found by probing from the hash it was filed under:
    /// where its key is held once and `==` is the equality of values, a
    /// search for the key on the path of that hash comes to its slot.
    pub proof fn lemma_probe_finds(&self, i: int, r: Option<usize>)
        requires
            self.wf(),
            self.holds(i),
            eq_is_identity::<K>(),
            self.single(self.key(i)),
            self.located(self.filed@[i], self.key(i), r),
        ensures
            r == Some(i as usize),
    {
        self.lemma_slot_of(i);
    }

    /// After a key has been put with a value, a lookup of the key under
    /// the same hash gives the value. Where nothing was handed back, there
    /// is one entry more; where a value was, there are as many entries as
    /// before and the value handed back is the one the key had.
    pub proof fn lemma_insert_then_get(
        &self,
        after: &Self,
        hash: u64,
        key: K,
        value: V,
        prior: Option<V>,
        r: Option<&V>,
    )
        requires
            self.in_order(hash, key),
            after.put(self, hash, key, value, prior),
            after.fetched(hash, key, r),
        ensures
            r == Some(&value),
            prior is None ==> after.len == self.len + 1 && !self@.contains_key(key),
            prior is Some ==> after.len == self.len && self@.contains_key(key) && prior == Some(
                self@[key],
            ),
    {
    }

    /// After a key has been removed and its entry handed back, a lookup of
    /// the key under the same hash gives nothing, and there is one entry
    /// fewer.
    pub proof fn lemma_remove_then_get(
        &self,
        after: &Self,
        hash: u64,
        key: K,
        entry: (K, V),
        r: Option<&V>,
    )
        requires
            self.in_order(hash, key),
            after.taken(self, hash, key, Some(entry)),
            after.fetched(hash, key, r),
        ensures
            r is None,
            after.len == self.len - 1,
            entry == (key, self@[key]),
    {
        let i = choose|i: int| #[trigger] after.emptied_at(self, i, entry);
        assert(after.emptied_at(self, i, entry));
    }

    /// To put a key with a value and then remove the key, under the same
    /// hash, hands back the key with that value.
    pub proof fn lemma_insert_then_remove(
        &self,
        mid: &Self,
        after: &Self,
        hash: u64,
        key: K,
        value: V,
        prior: Option<V>,
        r: Option<(K, V)>,
    )
        requires
            self.in_order(hash, key),
            mid.put(self, hash, key, value, prior),
            after.taken(mid, hash, key, r),
        ensures
            r == Some((key, value)),
    {
    }

    /// A key that is held once under its hash stays so, with its value,
    /// when another key is put, whichever hash that one is given.
    pub proof fn lemma_kept_by_insert(
        &self,
        after: &Self,
        hash: u64,
        key: K,
        other_hash: u64,
        other: K,
        value: V,
        prior: Option<V>,
    )
        requires
            self.wf(),
            self.in_order(hash, key),
            self@.contains_key(key),
            other != key,
            after.put(self, other_hash, other, value, prior),
        ensures
            after.in_order(hash, key),
            after@.contains_key(key),
            after@[key] == self@[key],
    {
        let i = choose|i: int| #[trigger]
            after.put_at(self, i, other_hash, other, value, prior);
        assert(after.put_at(self, i, other_hash, other, value, prior));
        self.lemma_kept(after, i, hash, key);
    }

    /// A key that is held once under its hash stays so, with its value,
    /// when another key is removed, whichever hash that one is given.
    pub proof fn lemma_kept_by_remove(
        &self,
        after: &Self,
        hash: u64,
        key: K,
        other_hash: u64,
        other: K,
        r: Option<(K, V)>,
    )
        requires
            self.wf(),
            self.in_order(hash, key),
            self@.contains_key(key),
            other != key,
            after.taken(self, other_hash, other, r),
        ensures
            after.in_order(hash, key),
            after@.contains_key(key),
            after@[key] == self@[key],
    {
        match r {
            Some(entry) => {
                let i = choose|i: int| #[trigger] after.emptied_at(self, i, entry);
                assert(after.emptied_at(self, i, entry));
                self.lemma_kept(after, i, hash, key);
            },
            None => {},
        }
    }
}

impl<K: PartialEq, V> Table<K, V> {
    /// A key that is held once under its hash stays so, with its value,
    /// through a change to one slot that neither held the key before nor
    /// holds it after.
    pub proof fn lemma_kept(&self, after: &Self, i: int, hash: u64, key: K)
        requires
            self.wf(),
            after.wf(),
            after.size() == self.size(),
            self.single(key),
            self.agrees(hash, key),
            self.has_key(key),
            after.same_but(self, i),
            self.holds(i) ==> self.key(i) != key,
            after.holds(i) ==> after.key(i) != key,
        ensures
            after.single(key),
            after.agrees(hash, key),
            after.has_key(key),
            after@.contains_key(key),
            after@[key] == self@[key],
    {
        let a = self.slot_of(key);
        assert(self.holds(a) && self.key(a) == key);
        assert(after.holds(a) && after.key(a) == key);
        assert forall|x: int, y: int|
            #[trigger] after.holds(x) && #[trigger] after.holds(y) && after.key(x) == key
                && after.key(y) == key implies x == y by {
            assert(self.holds(x) && self.holds(y));
        }
        assert forall|x: int| #[trigger] after.holds(x) && after.key(x) == key implies after.filed@[x]
            == hash by {
            assert(self.holds(x));
        }
        after.lemma_slot_of(a);
        self.lemma_slot_of(a);
    }

    /// A key that is held once under its hash stays so, with its value,
    /// when the value of another key is written.
    pub proof fn lemma_kept_by_write(&self, after: &Self, hash: u64, key: K, i: int, v: V)
        requires
            self.wf(),
            self.single(key),
            self.agrees(hash, key),
            self.has_key(key),
            after.revalued(self, i, v),
            self.key(i) != key,
        ensures
            after.single(key),
            after.agrees(hash, key),
            after@.contains_key(key),
            after@[key] == self@[key],
    {
        self.lemma_revalued(after, i, v);
        assert(after.same_but(self, i));
        self.lemma_kept(after, i, hash, key);
    }

    /// A key that is held once stays so, with its value, through a resize;
    /// and it stays in order where the rehash files it under the hash it
    /// had.
    pub proof fn lemma_kept_by_resize(&self, after: &Self, hash: u64, key: K)
        requires
            after.same_entries(self),
            self.single(key),
            self.has_key(key),
            forall|j: int| #[trigger] after.holds(j) && after.key(j) == key ==> after.filed@[j] == hash,
        ensures
            after.single(key),
            after.agrees(hash, key),
            after@.contains_key(key),
            after@[key] == self@[key],
    {
        let src = choose|src: Seq<int>| after.carries(self, src);
        let a = self.slot_of(key);
        assert(self.holds(a) && self.key(a) == key);
        let b = choose|j: int| #[trigger] after.holds(j) && src[j] == a;
        assert(after.holds(b) && after.key(b) == key);
        assert forall|x: int, y: int|
            #[trigger] after.holds(x) && #[trigger] after.holds(y) && after.key(x) == key
                && after.key(y) == key implies x == y by {
            assert(self.holds(src[x]) && self.holds(src[y]));
        }
        after.lemma_slot_of(b);
        self.lemma_slot_of(a);
    }
}

/// `==` on `u64` is the equality of values, so that a table keyed by `u64`
/// is in order whenever its hashes are.
pub proof fn lemma_integer_keys()
    ensures
        eq_is_identity::<u64>(),
{
}

} // verus!
