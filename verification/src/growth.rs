//! Sizing a table: resizing with a rehash of every entry, and the policy
//! that says when to grow, when to reclaim tombstones and when to shrink.

use vstd::prelude::*;
use crate::count::occupied_below;
use crate::power::{is_pow2, next_power_of_two, MAX_CAPACITY};
use crate::storage::drain::Drain;
use crate::storage::Alloc;
use crate::table::Table;

verus! {

/// From position `m` up to `n`, where no tag is occupied, the count of
/// occupied tags stays as it is.
pub proof fn lemma_gap_free(tags: Seq<i8>, m: int, n: int)
    requires
        0 <= m <= n,
        forall|j: int| m <= j < n ==> tags[j] < 0,
    ensures
        occupied_below(tags, n) == occupied_below(tags, m),
    decreases n - m,
{
    if m < n {
        lemma_gap_free(tags, m, n - 1);
    }
}

impl<K, V> Table<K, V> {
    /// Whether this table holds the entries of `from`, each once: `src`
    /// names, for every slot that holds an entry here, the slot of `from`
    /// that the entry came out of.
    pub open spec fn carries(&self, from: &Self, src: Seq<int>) -> bool {
        &&& src.len() == self.size()
        &&& forall|j: int| #[trigger]
            self.holds(j) ==> from.holds(src[j]) && self.alloc.buckets@[j]
                == from.alloc.buckets@[src[j]]
        &&& forall|a: int, b: int|
            #[trigger] self.holds(a) && #[trigger] self.holds(b) && src[a] == src[b] ==> a == b
        &&& forall|i: int| #[trigger]
            from.holds(i) ==> exists|j: int| #[trigger] self.holds(j) && src[j] == i
    }

    /// Whether this table holds exactly the entries of `from`, each as often
    /// as `from` holds it.
    pub open spec fn same_entries(&self, from: &Self) -> bool {
        exists|src: Seq<int>| self.carries(from, src)
    }

    /// A table that holds the entries of another holds no key twice where
    /// the other held none twice, and is then the same map.
    #[verifier::spinoff_prover]
    #[verifier::rlimit(60)]
    pub proof fn lemma_carried(&self, from: &Self)
        requires
            self.same_entries(from),
            from.distinct(),
        ensures
            self.distinct(),
            self@ == from@,
    {
        let src = choose|src: Seq<int>| self.carries(from, src);
        assert forall|a: int, b: int|
            #[trigger] self.holds(a) && #[trigger] self.holds(b) && self.key(a) == self.key(
                b,
            ) implies a == b by {
            assert(from.holds(src[a]) && from.holds(src[b]));
        }
        assert forall|q: K| self@.contains_key(q) <==> from@.contains_key(q) by {
            if self.has_key(q) {
                let a = self.slot_of(q);
                assert(self.holds(a) && self.key(a) == q);
                assert(from.holds(src[a]) && from.key(src[a]) == q);
            }
            if from.has_key(q) {
                let i = from.slot_of(q);
                assert(from.holds(i) && from.key(i) == q);
                let j = choose|j: int| #[trigger] self.holds(j) && src[j] == i;
                assert(self.holds(j) && self.key(j) == q);
            }
        }
        assert forall|q: K| self@.contains_key(q) implies #[trigger] self@[q] == from@[q] by {
            let a = self.slot_of(q);
            assert(self.holds(a) && self.key(a) == q);
            assert(from.holds(src[a]) && from.key(src[a]) == q);
            self.lemma_slot_of(a);
            from.lemma_slot_of(src[a]);
        }
        assert(self@ =~= from@);
    }

    /// Moves every entry into fresh storage of the capacity that `size`
    /// asks for, the next power of two, and files each under the hash that
    /// `hash_of` gives for its key. No tombstone is left.
    pub fn resize<F: Fn(&K) -> u64>(&mut self, size: usize, hash_of: &F)
        requires
            old(self).wf(),
            old(self).len <= size <= MAX_CAPACITY,
            forall|k: &K| #[trigger] call_requires(*hash_of, (k,)),
        ensures
            final(self).wf(),
            is_pow2(final(self).size()),
            size <= final(self).size(),
            forall|q: int| is_pow2(q) && size <= q ==> final(self).size() <= q,
            final(self).len == old(self).len,
            final(self).deleted == 0,
            final(self).same_entries(old(self)),
            forall|j: int| #[trigger]
                final(self).holds(j) ==> call_ensures(
                    *hash_of,
                    (&final(self).key(j),),
                    final(self).filed@[j],
                ),
            old(self).distinct() ==> final(self).distinct() && final(self)@ == old(self)@,
    {
        let ghost before = *self;
        let capacity: usize = next_power_of_two(size);
        let mut fresh: Table<K, V> = Table::new(capacity);
        let mut stale: Alloc<(K, V)> = Alloc::new(0);
        core::mem::swap(&mut self.alloc, &mut stale);
        let mut drain: Drain<(K, V)> = Drain::new(stale);
        let ghost mut src: Seq<int> = Seq::new(fresh.alloc.size as nat, |j: int| 0int);
        let ghost tags = before.alloc.meta@;
        let ghost slots = before.size();
        proof {
            if slots >= 32 {
                crate::power::lemma_groups(slots);
                crate::path::lemma_round(slots);
            }
        }
        loop
            invariant
                before.wf(),
                tags == before.alloc.meta@,
                slots == before.size(),
                before.len <= size,
                size <= fresh.size(),
                is_pow2(fresh.size()),
                forall|q: int| is_pow2(q) && size <= q ==> fresh.size() <= q,
                forall|k: &K| #[trigger] call_requires(*hash_of, (k,)),
                drain.inv(),
                drain.alloc.meta@ == tags,
                drain.alloc.size == slots,
                drain.inner.inner.scanned@ <= crate::path::groups(slots) || slots == 0,
                drain.position() <= 32 * crate::path::groups(slots),
                forall|i: int|
                    drain.position() <= i < slots ==> drain.alloc.buckets@[i]
                        == before.alloc.buckets@[i],
                fresh.wf(),
                fresh.deleted == 0,
                fresh.len == occupied_below(
                    tags,
                    if drain.position() < slots {
                        drain.position()
                    } else {
                        slots
                    },
                ),
                src.len() == fresh.size(),
                forall|j: int| #[trigger]
                    fresh.holds(j) ==> 0 <= src[j] < drain.position() && before.holds(src[j])
                        && fresh.alloc.buckets@[j] == before.alloc.buckets@[src[j]],
                forall|a: int, b: int|
                    #[trigger] fresh.holds(a) && #[trigger] fresh.holds(b) && src[a] == src[b]
                        ==> a == b,
                forall|i: int|
                    0 <= i < drain.position() && #[trigger] before.holds(i) ==> exists|j: int|
                        #[trigger] fresh.holds(j) && src[j] == i,
                forall|j: int| #[trigger]
                    fresh.holds(j) ==> call_ensures(*hash_of, (&fresh.key(j),), fresh.filed@[j]),
            ensures
                drain.position() >= slots,
            decreases 32 * crate::path::groups(slots) - drain.position(),
        {
            let ghost at = drain.position();
            let ghost held = fresh;
            match drain.next() {
                Some(entry) => {
                    let (key, value) = entry;
                    let ghost from = drain.position() - 1;
                    let hash: u64 = hash_of(&key);
                    proof {
                        lemma_gap_free(tags, at, from);
                        crate::count::lemma_bounds(tags, from + 1, slots);
                        assert(before.holds(from));
                        assert(tags[from] >= 0);
                    }
                    let idx: usize = fresh.claim(hash, key, value);
                    proof {
                        src = src.update(idx as int, from);
                        assert forall|j: int| #[trigger] fresh.holds(j) implies 0 <= src[j]
                            < drain.position() && before.holds(src[j]) && fresh.alloc.buckets@[j]
                            == before.alloc.buckets@[src[j]] by {
                            if j != idx {
                                assert(held.holds(j));
                            }
                        }
                        assert forall|a: int, b: int|
                            #[trigger] fresh.holds(a) && #[trigger] fresh.holds(b) && src[a]
                                == src[b] implies a == b by {
                            if a != idx {
                                assert(held.holds(a));
                            }
                            if b != idx {
                                assert(held.holds(b));
                            }
                        }
                        assert forall|i: int|
                            0 <= i < drain.position() && #[trigger] before.holds(
                                i,
                            ) implies exists|j: int| #[trigger] fresh.holds(j) && src[j] == i by {
                            if i == from {
                                assert(fresh.holds(idx as int) && src[idx as int] == i);
                            } else {
                                assert(i < at);
                                let j = choose|j: int| #[trigger] held.holds(j) && src[j] == i;
                                assert(held.holds(j));
                                assert(fresh.holds(j) && src[j] == i);
                            }
                        }
                        assert forall|j: int| #[trigger] fresh.holds(j) implies call_ensures(
                            *hash_of,
                            (&fresh.key(j),),
                            fresh.filed@[j],
                        ) by {
                            if j != idx {
                                assert(held.holds(j));
                            }
                        }
                    }
                },
                None => {
                    proof {
                        lemma_gap_free(tags, if at < slots {
                            at
                        } else {
                            slots
                        }, slots);
                    }
                    break ;
                },
            }
        }
        proof {
            assert(fresh.carries(&before, src));
            if before.distinct() {
                fresh.lemma_carried(&before);
            }
        }
        *self = fresh;
    }
}

/// The capacity that a table of `size` slots grows to: twice its own, and
/// eight from none.
pub open spec fn grown(size: int) -> int {
    if size == 0 {
        8
    } else {
        2 * size
    }
}

impl<K, V> Table<K, V> {
    /// Whether one more entry would take the table past seven eighths of
    /// its capacity, tombstones counted as entries.
    pub open spec fn crowded(&self) -> bool {
        self.len + self.deleted + 1 > (self.size() / 8) * 7
    }

    /// Whether the live entries fill less than an eighth of the capacity.
    pub open spec fn sparse(&self) -> bool {
        self.len < self.size() / 8
    }

    /// Whether this table is `from` after a resize to `capacity` slots: it
    /// has that capacity and no tombstone, holds the entries of `from`, each
    /// once, and is the same map where `from` held no key twice.
    pub open spec fn resized(&self, from: &Self, capacity: int) -> bool {
        &&& self.wf()
        &&& self.size() == capacity
        &&& self.len == from.len
        &&& self.deleted == 0
        &&& self.same_entries(from)
        &&& from.distinct() ==> self.distinct() && self@ == from@
    }

    /// Files every entry anew at the capacity the table has, which clears
    /// its tombstones.
    pub fn rehash<F: Fn(&K) -> u64>(&mut self, hash_of: &F)
        requires
            old(self).wf(),
            forall|k: &K| #[trigger] call_requires(*hash_of, (k,)),
        ensures
            final(self).resized(
                old(self),
                if old(self).size() == 0 {
                    1
                } else {
                    old(self).size()
                },
            ),
            forall|j: int| #[trigger]
                final(self).holds(j) ==> call_ensures(
                    *hash_of,
                    (&final(self).key(j),),
                    final(self).filed@[j],
                ),
    {
        proof {
            crate::count::lemma_bounds(self.alloc.meta@, self.size(), self.size());
            crate::power::lemma_max_capacity();
            assert(is_pow2(1));
        }
        let capacity: usize = self.alloc.size();
        self.resize(capacity, hash_of);
    }

    /// Makes room for `additional` more entries: nothing where the capacity
    /// already covers them, else a resize to the next power of two that
    /// does.
    pub fn reserve<F: Fn(&K) -> u64>(&mut self, additional: usize, hash_of: &F)
        requires
            old(self).wf(),
            old(self).len + additional <= MAX_CAPACITY,
            forall|k: &K| #[trigger] call_requires(*hash_of, (k,)),
        ensures
            old(self).len + additional <= old(self).size() ==> *final(self) == *old(self),
            old(self).len + additional > old(self).size() ==> {
                &&& final(self).resized(old(self), final(self).size())
                &&& is_pow2(final(self).size())
                &&& old(self).len + additional <= final(self).size()
                &&& forall|q: int|
                    is_pow2(q) && old(self).len + additional <= q ==> final(self).size() <= q
                &&& forall|j: int| #[trigger]
                    final(self).holds(j) ==> call_ensures(
                        *hash_of,
                        (&final(self).key(j),),
                        final(self).filed@[j],
                    )
            },
            final(self).wf(),
            final(self).len == old(self).len,
            final(self).len + additional <= final(self).size(),
    {
        let size: usize = self.len + additional;
        if size <= self.alloc.size() {
            return ;
        }
        self.resize(next_power_of_two(size), hash_of);
    }

    /// Shrinks the capacity to the least that holds the live entries: the
    /// next power of two from their number, and one slot for none.
    pub fn shrink_to_fit<F: Fn(&K) -> u64>(&mut self, hash_of: &F)
        requires
            old(self).wf(),
            forall|k: &K| #[trigger] call_requires(*hash_of, (k,)),
        ensures
            final(self).resized(old(self), final(self).size()),
            is_pow2(final(self).size()),
            final(self).len <= final(self).size(),
            forall|q: int| is_pow2(q) && old(self).len <= q ==> final(self).size() <= q,
            forall|j: int| #[trigger]
                final(self).holds(j) ==> call_ensures(
                    *hash_of,
                    (&final(self).key(j),),
                    final(self).filed@[j],
                ),
    {
        proof {
            crate::count::lemma_bounds(self.alloc.meta@, self.size(), self.size());
            crate::power::lemma_max_capacity();
        }
        let len: usize = self.len;
        self.resize(len, hash_of);
    }

    /// Makes sure that one more entry finds a free slot. A table that is
    /// not crowded is left alone. A crowded one whose live entries fill
    /// less than half of it is rehashed at its capacity, which clears the
    /// tombstones that crowd it; any other is grown to twice its capacity.
    pub fn auto_reserve<F: Fn(&K) -> u64>(&mut self, hash_of: &F)
        requires
            old(self).wf(),
            old(self).len < MAX_CAPACITY / 2,
            forall|k: &K| #[trigger] call_requires(*hash_of, (k,)),
        ensures
            final(self).wf(),
            final(self).len == old(self).len,
            final(self).len < final(self).size(),
            !old(self).crowded() ==> *final(self) == *old(self),
            old(self).crowded() ==> {
                &&& final(self).resized(
                    old(self),
                    if old(self).len < old(self).size() / 2 {
                        old(self).size()
                    } else {
                        grown(old(self).size())
                    },
                )
                &&& forall|j: int| #[trigger]
                    final(self).holds(j) ==> call_ensures(
                        *hash_of,
                        (&final(self).key(j),),
                        final(self).filed@[j],
                    )
            },
    {
        let capacity: usize = self.alloc.size();
        proof {
            crate::count::lemma_bounds(self.alloc.meta@, self.size(), self.size());
            crate::power::lemma_max_capacity();
        }
        if self.len + self.deleted + 1 > (capacity / 8) * 7 {
            if self.len < capacity / 2 {
                self.rehash(hash_of);
            } else if capacity == 0 {
                proof {
                    reveal_with_fuel(is_pow2, 5);
                    assert(is_pow2(8));
                }
                self.resize(8, hash_of);
            } else {
                proof {
                    crate::power::lemma_gap(capacity as int, MAX_CAPACITY as int);
                    crate::power::lemma_double(capacity as int);
                }
                self.resize(capacity * 2, hash_of);
            }
        }
    }

    /// Halves the capacity of a sparse table; leaves any other alone.
    pub fn auto_shrink<F: Fn(&K) -> u64>(&mut self, hash_of: &F)
        requires
            old(self).wf(),
            forall|k: &K| #[trigger] call_requires(*hash_of, (k,)),
        ensures
            final(self).wf(),
            final(self).len == old(self).len,
            !old(self).sparse() ==> *final(self) == *old(self),
            old(self).sparse() ==> {
                &&& final(self).resized(old(self), old(self).size() / 2)
                &&& forall|j: int| #[trigger]
                    final(self).holds(j) ==> call_ensures(
                        *hash_of,
                        (&final(self).key(j),),
                        final(self).filed@[j],
                    )
            },
    {
        let capacity: usize = self.alloc.size();
        if self.len < capacity / 8 {
            proof {
                assert(is_pow2(capacity as int / 2)) by {
                    reveal_with_fuel(is_pow2, 2);
                }
            }
            self.resize(capacity / 2, hash_of);
        }
    }

    /// Whether the table is empty and every one of its tags is the empty
    /// tag.
    pub open spec fn blank(&self) -> bool {
        &&& self.len == 0
        &&& self.deleted == 0
        &&& forall|i: int|
            0 <= i < self.alloc.meta@.len() ==> self.alloc.meta@[i] == crate::meta::VACANT
        &&& forall|i: int| 0 <= i < self.size() ==> self.alloc.buckets@[i] is None
    }

    /// A blank table is the empty map.
    pub proof fn lemma_blank(&self)
        requires
            self.blank(),
        ensures
            self@ == Map::<K, V>::empty(),
            self.distinct(),
            forall|i: int| !self.holds(i),
    {
        assert(self@ =~= Map::<K, V>::empty());
    }

    /// Drops every entry and keeps the capacity.
    pub fn clear(&mut self)
        requires
            old(self).wf(),
        ensures
            final(self).wf(),
            final(self).blank(),
            final(self).size() == old(self).size(),
            final(self).filed@ == old(self).filed@,
            final(self)@ == Map::<K, V>::empty(),
    {
        self.alloc.clear();
        self.len = 0;
        self.deleted = 0;
        proof {
            crate::count::lemma_none(self.alloc.meta@, self.size());
            self.lemma_blank();
        }
    }
}

} // verus!
