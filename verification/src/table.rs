//! The table proper: storage, the counts of live entries and tombstones, and
//! the operations on them. Every operation takes the hash of the key it
//! works on as an argument, and holds whatever hash it is given.

use vstd::prelude::*;
use crate::controller::{has_vacancy, Controller, Never, Vacancy};
use crate::count::{deleted_below, occupied_below};
use crate::find::{lemma_mirror, lemma_written, written, FindInner};
use crate::finder::{Finder, Insertable, Match};
use crate::keyed::{eq_is_identity, same_key};
use crate::meta::{occupied, tag7, DELETED, VACANT};
use crate::path::{group_pos, groups, offset_of, slot_at};
use crate::power::{is_pow2, MAX_CAPACITY};
use crate::storage::Alloc;

verus! {

/// A table of keys and values.
///
/// `len` is the number of live entries and `deleted` the number of
/// tombstones. `filed` remembers, for every slot, the hash under which the
/// entry it holds was put there: the table keeps no hash beyond the seven
/// bits in the tag, so this is what its invariant is stated over.
pub struct Table<K, V> {
    pub alloc: Alloc<(K, V)>,
    pub len: usize,
    pub deleted: usize,
    pub filed: Ghost<Seq<u64>>,
}

impl<K, V> Table<K, V> {
    /// The number of slots.
    pub open spec fn size(&self) -> int {
        self.alloc.size as int
    }

    /// Whether slot `i` holds an entry.
    pub open spec fn holds(&self, i: int) -> bool {
        0 <= i < self.size() && self.alloc.buckets@[i] is Some
    }

    /// The key in slot `i`.
    pub open spec fn key(&self, i: int) -> K {
        self.alloc.buckets@[i].unwrap().0
    }

    /// The value in slot `i`.
    pub open spec fn value(&self, i: int) -> V {
        self.alloc.buckets@[i].unwrap().1
    }

    /// The slot at which a probe for `hash` begins.
    pub open spec fn home(&self, hash: u64) -> int {
        self.alloc.home(hash)
    }

    /// The number of offsets in one round of a probe: the capacity, and one
    /// whole group where the capacity is less than that.
    pub open spec fn span(&self) -> int {
        32 * groups(self.size())
    }

    /// Whether offset `c` lies within one round, and its lane within the
    /// table.
    pub open spec fn on_path(&self, c: int) -> bool {
        0 <= c < self.span() && c % 32 < self.size()
    }

    /// The slot at offset `c` of the path of `hash`.
    pub open spec fn slot(&self, hash: u64, c: int) -> int {
        slot_at(self.home(hash), self.size(), c)
    }

    /// Whether a probe for `hash` that ends at the first empty tag gets as
    /// far as offset `c`: no group before the group of `c` holds an empty
    /// tag.
    pub open spec fn open_to(&self, hash: u64, c: int) -> bool {
        forall|j: int|
            0 <= j < c / 32 ==> !has_vacancy(
                #[trigger] self.alloc.group(group_pos(self.home(hash), self.size(), j)),
            )
    }

    /// Whether the slot at offset `c` of the path of `hash` is one that a
    /// lookup under `hash` tries: the probe gets that far, and the slot
    /// carries the tag of `hash`.
    pub open spec fn candidate(&self, hash: u64, c: int) -> bool {
        &&& self.on_path(c)
        &&& self.alloc.meta@[self.slot(hash, c)] == tag7(hash)
        &&& self.open_to(hash, c)
    }

    /// Whether slot `i` is the first free slot on the path of `hash`.
    pub open spec fn first_free(&self, hash: u64, i: int) -> bool {
        exists|c: int|
            {
                &&& #[trigger] self.on_path(c)
                &&& self.slot(hash, c) == i
                &&& self.alloc.meta@[i] < 0
                &&& forall|d: int|
                    0 <= d < c && #[trigger] self.on_path(d) ==> self.alloc.meta@[self.slot(
                        hash,
                        d,
                    )] >= 0
            }
    }

    /// Whether a probe for `hash` gets as far as the group of slot `i`: no
    /// group before it on the path holds an empty tag.
    pub open spec fn reachable(&self, hash: u64, i: int) -> bool {
        self.open_to(hash, offset_of(self.home(hash), self.size(), i))
    }

    /// The invariant of the table: the storage is well formed; the two
    /// counts are the numbers of occupied tags and of tombstones, so that
    /// together they never exceed the capacity; and every entry carries the
    /// tag of the hash it was filed under and is reachable from it.
    pub open spec fn wf(&self) -> bool {
        &&& self.alloc.wf()
        &&& self.filed@.len() == self.size()
        &&& self.len == occupied_below(self.alloc.meta@, self.size())
        &&& self.deleted == deleted_below(self.alloc.meta@, self.size())
        &&& forall|i: int| #[trigger]
            self.holds(i) ==> self.alloc.meta@[i] == tag7(self.filed@[i]) && self.reachable(
                self.filed@[i],
                i,
            )
    }

    /// Whether some slot holds `k`.
    pub open spec fn has_key(&self, k: K) -> bool {
        exists|i: int| #[trigger] self.holds(i) && self.key(i) == k
    }

    /// A slot that holds `k`, where there is one.
    pub open spec fn slot_of(&self, k: K) -> int {
        choose|i: int| #[trigger] self.holds(i) && self.key(i) == k
    }

    /// At most one slot holds `k`.
    pub open spec fn single(&self, k: K) -> bool {
        forall|i: int, j: int|
            #[trigger] self.holds(i) && #[trigger] self.holds(j) && self.key(i) == k && self.key(
                j,
            ) == k ==> i == j
    }

    /// No key is held twice.
    pub open spec fn distinct(&self) -> bool {
        forall|i: int, j: int|
            #[trigger] self.holds(i) && #[trigger] self.holds(j) && self.key(i) == self.key(j)
                ==> i == j
    }

    /// Whether every copy of `k` that the table holds was filed under
    /// `hash`: so it is whenever the hash of `k` is the same on every call.
    pub open spec fn agrees(&self, hash: u64, k: K) -> bool {
        forall|i: int| #[trigger] self.holds(i) && self.key(i) == k ==> self.filed@[i] == hash
    }

    /// The table as a map from keys to values.
    pub open spec fn view(&self) -> Map<K, V> {
        Map::new(|k: K| self.has_key(k), |k: K| self.value(self.slot_of(k)))
    }

    /// The number of live entries.
    pub fn len(&self) -> (n: usize)
        ensures
            n == self.len,
    {
        self.len
    }

    /// The number of slots.
    pub fn capacity(&self) -> (n: usize)
        ensures
            n == self.size(),
    {
        self.alloc.size()
    }

    /// An empty table of at least `capacity` slots: none for zero, else the
    /// next power of two.
    pub fn new(capacity: usize) -> (t: Self)
        requires
            capacity <= MAX_CAPACITY,
        ensures
            t.wf(),
            t.len == 0,
            t.deleted == 0,
            capacity == 0 ==> t.size() == 0,
            capacity > 0 ==> is_pow2(t.size()) && capacity <= t.size() && (forall|q: int|
                is_pow2(q) && capacity <= q ==> t.size() <= q),
            forall|i: int| !t.holds(i),
            t@ == Map::<K, V>::empty(),
    {
        let alloc: Alloc<(K, V)> = Alloc::new(capacity);
        let ghost filed = Seq::new(alloc.size as nat, |i: int| 0u64);
        proof {
            crate::count::lemma_none(alloc.meta@, alloc.size as int);
        }
        let t = Table { alloc, len: 0, deleted: 0, filed: Ghost(filed) };
        assert(t@ =~= Map::<K, V>::empty());
        t
    }
}

impl<K, V> Table<K, V> {
    /// Whether the slot at offset `c` of the path of `hash` is the first of
    /// the slots tried under `hash` whose key `is_key` accepts.
    pub open spec fn first_accepted<F: Fn(&K) -> bool>(&self, hash: u64, is_key: F, c: int) -> bool {
        &&& self.candidate(hash, c)
        &&& call_ensures(is_key, (&self.key(self.slot(hash, c)),), true)
        &&& forall|d: int|
            0 <= d < c && #[trigger] self.candidate(hash, d) ==> call_ensures(
                is_key,
                (&self.key(self.slot(hash, d)),),
                false,
            )
    }

    /// The first slot on the path of `hash` that carries the tag of `hash`
    /// and whose key `is_key` accepts; none if `is_key` turns down every
    /// such slot up to the end of the probe, which is the first group that
    /// holds an empty tag or the end of the round. Every entry that was
    /// filed under `hash` is among the slots tried.
    pub fn search<F: Fn(&K) -> bool>(&self, hash: u64, is_key: F) -> (r: Option<usize>)
        requires
            self.wf(),
            forall|k: &K| #[trigger] call_requires(is_key, (k,)),
        ensures
            match r {
                Some(i) => exists|c: int| #[trigger]
                    self.first_accepted(hash, is_key, c) && i == self.slot(hash, c),
                None => forall|c: int| #[trigger]
                    self.candidate(hash, c) ==> call_ensures(
                        is_key,
                        (&self.key(self.slot(hash, c)),),
                        false,
                    ),
            },
            match r {
                Some(i) => {
                    &&& self.holds(i as int)
                    &&& self.alloc.meta@[i as int] == tag7(hash)
                    &&& call_ensures(is_key, (&self.key(i as int),), true)
                },
                None => forall|i: int| #[trigger]
                    self.holds(i) && self.filed@[i] == hash ==> call_ensures(
                        is_key,
                        (&self.key(i),),
                        false,
                    ),
            },
    {
        let ghost size = self.alloc.size;
        let ghost home = self.alloc.home(hash);
        let tag: i8 = occupied(hash);
        let mut probe = self.alloc.find_ref(hash, Match { meta: tag }, Vacancy);
        loop
            invariant
                self.wf(),
                size == self.alloc.size,
                probe.inner.inv(&self.alloc),
                probe.inner.base@ == home,
                size > 0 ==> home == self.home(hash),
                tag == tag7(hash),
                forall|t: i8| #[trigger] probe.inner.finder.wants(t) == (t == tag),
                forall|k: &K| #[trigger] call_requires(is_key, (k,)),
                0 <= probe.inner.cursor@ <= 32 * probe.inner.scanned@,
                forall|c: int|
                    0 <= c < probe.inner.cursor@ && #[trigger] probe.inner.wanted(&self.alloc, c)
                        ==> call_ensures(
                        is_key,
                        (&self.key(slot_at(home, size as int, c)),),
                        false,
                    ),
            decreases 32 * groups(size as int) - probe.inner.cursor@,
        {
            let ghost before = probe;
            match probe.next(&self.alloc) {
                Some(idx) => {
                    proof {
                        assert forall|c: int|
                            0 <= c < probe.inner.cursor@ - 1 && #[trigger] probe.inner.wanted(
                                &self.alloc,
                                c,
                            ) implies call_ensures(
                            is_key,
                            (&self.key(slot_at(home, size as int, c)),),
                            false,
                        ) by {
                            if c < before.inner.cursor@ {
                                assert(before.inner.wanted(&self.alloc, c));
                            }
                        }
                        assert(self.holds(idx as int));
                        self.lemma_candidate(hash, probe.inner);
                    }
                    match &self.alloc.buckets[idx] {
                        Some(entry) => {
                            if is_key(&entry.0) {
                                proof {
                                    let c = probe.inner.cursor@ - 1;
                                    assert forall|d: int|
                                        0 <= d < c && #[trigger] self.candidate(
                                            hash,
                                            d,
                                        ) implies call_ensures(
                                        is_key,
                                        (&self.key(self.slot(hash, d)),),
                                        false,
                                    ) by {
                                        assert(probe.inner.wanted(&self.alloc, d));
                                    }
                                    assert(self.first_accepted(hash, is_key, c));
                                }
                                return Some(idx);
                            }
                        },
                        None => {},
                    }
                },
                None => {
                    proof {
                        assert forall|c: int| #[trigger] self.candidate(hash, c) implies call_ensures(
                            is_key,
                            (&self.key(self.slot(hash, c)),),
                            false,
                        ) by {
                            self.lemma_tried(hash, c, probe.inner);
                            if c < before.inner.cursor@ {
                                assert(before.inner.wanted(&self.alloc, c));
                            } else {
                                assert(!probe.inner.wanted(&self.alloc, c));
                            }
                        }
                        assert forall|i: int| #[trigger]
                            self.holds(i) && self.filed@[i] == hash implies call_ensures(
                            is_key,
                            (&self.key(i),),
                            false,
                        ) by {
                            self.lemma_filed(i);
                            assert(self.candidate(hash, offset_of(home, size as int, i)));
                        }
                    }
                    return None;
                },
            }
        }
    }

    /// A finished probe for `hash`, ended by the first empty tag or the end
    /// of the round, has passed every offset that a lookup under `hash`
    /// tries, and wanted the slot there.
    pub proof fn lemma_tried(&self, hash: u64, c: int, probe: FindInner<Match, Vacancy>)
        requires
            self.wf(),
            self.size() > 0,
            self.candidate(hash, c),
            probe.inv(&self.alloc),
            probe.base@ == self.home(hash),
            probe.finished,
            probe.cursor@ == 32 * probe.scanned@,
            forall|t: i8| #[trigger] probe.finder.wants(t) == (t == tag7(hash)),
        ensures
            0 <= c < probe.cursor@,
            probe.wanted(&self.alloc, c),
    {
        let size = self.size();
        let home = self.home(hash);
        let n = probe.scanned@;
        crate::path::lemma_split(c);
        if n < groups(size) {
            assert(has_vacancy(probe.seen(&self.alloc, n - 1)));
            if n - 1 < c / 32 {
                assert(!has_vacancy(self.alloc.group(group_pos(home, size, n - 1))));
            }
        }
    }

    /// The slot that a step of a probe for `hash` has just reported stands
    /// at an offset that a lookup under `hash` tries.
    pub proof fn lemma_candidate(&self, hash: u64, probe: FindInner<Match, Vacancy>)
        requires
            self.wf(),
            self.size() > 0,
            probe.inv(&self.alloc),
            probe.base@ == self.home(hash),
            1 <= probe.cursor@ <= 32 * probe.scanned@,
            probe.wanted(&self.alloc, probe.cursor@ - 1),
            forall|t: i8| #[trigger] probe.finder.wants(t) == (t == tag7(hash)),
        ensures
            self.candidate(hash, probe.cursor@ - 1),
    {
        let size = self.size();
        let home = self.home(hash);
        let c = probe.cursor@ - 1;
        let n = probe.scanned@;
        crate::path::lemma_split(c);
        assert forall|j: int| 0 <= j < c / 32 implies !has_vacancy(
            #[trigger] self.alloc.group(group_pos(home, size, j)),
        ) by {
            assert(!probe.states@[j].halts(probe.seen(&self.alloc, j)));
        }
    }

    /// An entry stands at an offset that a lookup under the hash it was
    /// filed under tries.
    pub proof fn lemma_filed(&self, i: int)
        requires
            self.wf(),
            self.holds(i),
        ensures
            self.candidate(
                self.filed@[i],
                offset_of(self.home(self.filed@[i]), self.size(), i),
            ),
            self.slot(self.filed@[i], offset_of(self.home(self.filed@[i]), self.size(), i))
                == i,
    {
        let size = self.size();
        let home = self.home(self.filed@[i]);
        let c = offset_of(home, size, i);
        crate::path::lemma_offset(home, size, i);
        if size >= 32 {
            crate::power::lemma_groups(size);
            crate::path::lemma_round(size);
        } else {
            vstd::arithmetic::div_mod::lemma_small_mod(c as nat, 32);
        }
    }
}

/// A group that holds an empty tag after tags have been rewritten held one
/// before, where no rewritten tag is the empty tag.
pub proof fn lemma_vacancy_kept<T>(before: &Alloc<T>, after: &Alloc<T>, at: int)
    requires
        after.meta@.len() == before.meta@.len(),
        0 <= at,
        at + 32 <= before.meta@.len(),
        forall|x: int|
            0 <= x < before.meta@.len() && #[trigger] after.meta@[x] == VACANT ==> before.meta@[x]
                == VACANT,
        has_vacancy(after.group(at)),
    ensures
        has_vacancy(before.group(at)),
{
    let k = choose|k: int| 0 <= k < 32 && #[trigger] after.group(at)[k] == VACANT;
    assert(after.meta@[at + k] == VACANT);
    assert(before.group(at)[k] == VACANT);
}

impl<K, V> Table<K, V> {
    /// Reachability survives a rewriting of tags that makes no tag empty.
    pub proof fn lemma_reachable_kept(&self, after: &Self, hash: u64, i: int)
        requires
            self.alloc.shaped(),
            self.size() > 0,
            after.size() == self.size(),
            after.alloc.meta@.len() == self.alloc.meta@.len(),
            forall|x: int|
                0 <= x < self.alloc.meta@.len() && #[trigger] after.alloc.meta@[x] == VACANT
                    ==> self.alloc.meta@[x] == VACANT,
            self.reachable(hash, i),
        ensures
            after.reachable(hash, i),
    {
        let home = self.home(hash);
        let size = self.size();
        assert forall|j: int| 0 <= j < offset_of(home, size, i) / 32 implies !has_vacancy(
            #[trigger] after.alloc.group(group_pos(home, size, j)),
        ) by {
            crate::path::lemma_next_group(home, size, j);
            if has_vacancy(after.alloc.group(group_pos(home, size, j))) {
                lemma_vacancy_kept(&self.alloc, &after.alloc, group_pos(home, size, j));
                assert(!has_vacancy(self.alloc.group(group_pos(home, size, j))));
            }
        }
    }

    /// The first free slot that a whole round from the home of `hash`
    /// comes to is reachable from it: a round that found no free slot
    /// before passed over no empty tag.
    pub proof fn lemma_first_free(&self, hash: u64, probe: FindInner<Insertable, Never>)
        requires
            self.alloc.shaped(),
            self.size() > 0,
            probe.inv(&self.alloc),
            probe.base@ == self.home(hash),
            probe.cursor@ >= 1,
            forall|c: int| 0 <= c < probe.cursor@ - 1 ==> !#[trigger] probe.wanted(&self.alloc, c),
        ensures
            ({
                let i = slot_at(self.home(hash), self.size(), probe.cursor@ - 1);
                0 <= i < self.size() && self.reachable(hash, i)
            }),
    {
        let size = self.size();
        let home = self.home(hash);
        let c = probe.cursor@ - 1;
        let i = slot_at(home, size, c);
        crate::path::lemma_split(c);
        crate::path::lemma_lane(home, size, c / 32, c % 32);
        if size >= 32 {
            crate::power::lemma_groups(size);
            crate::path::lemma_round(size);
            crate::path::lemma_offset(home, size, i);
            crate::path::lemma_offsets_differ(home, size, c, offset_of(home, size, i));
            assert forall|j: int| 0 <= j < offset_of(home, size, i) / 32 implies !has_vacancy(
                #[trigger] self.alloc.group(group_pos(home, size, j)),
            ) by {
                let at = group_pos(home, size, j);
                crate::path::lemma_next_group(home, size, j);
                if has_vacancy(self.alloc.group(at)) {
                    let p = choose|p: int| 0 <= p < 32 && #[trigger] self.alloc.group(at)[p]
                        == VACANT;
                    crate::path::lemma_join(j, p);
                    lemma_mirror(&self.alloc, at, p);
                    crate::path::lemma_lane(home, size, j, p);
                    assert(probe.wanted(&self.alloc, 32 * j + p));
                }
            }
        } else {
            crate::path::lemma_offset(home, size, i);
            assert(c < 32);
            assert(offset_of(home, size, i) / 32 == 0);
        }
    }

    /// Files `key` and `value` under `hash` in the first free slot on the
    /// path of `hash`, an empty one or a tombstone, and says which. The
    /// payload is written first and the tag last.
    pub fn claim(&mut self, hash: u64, key: K, value: V) -> (idx: usize)
        requires
            old(self).wf(),
            old(self).len < old(self).size(),
        ensures
            final(self).wf(),
            final(self).size() == old(self).size(),
            idx < old(self).size(),
            !old(self).holds(idx as int),
            old(self).first_free(hash, idx as int),
            final(self).alloc.buckets@ == old(self).alloc.buckets@.update(
                idx as int,
                Some((key, value)),
            ),
            final(self).alloc.meta@ == written(
                old(self).alloc.meta@,
                idx as int,
                tag7(hash) as i8,
            ),
            final(self).filed@ == old(self).filed@.update(idx as int, hash),
            final(self).len == old(self).len + 1,
            final(self).deleted == old(self).deleted - (if old(self).alloc.meta@[idx as int]
                == DELETED {
                1int
            } else {
                0int
            }),
    {
        let size: usize = self.alloc.size();
        let ghost home = self.alloc.home(hash);
        let mut probe = self.alloc.find_ref(hash, Insertable, Never);
        let found: Option<usize> = probe.next(&self.alloc);
        proof {
            if found is None {
                let f = crate::count::lemma_free_slot(self.alloc.meta@, size as int);
                let c = offset_of(home, size as int, f);
                crate::path::lemma_offset(home, size as int, f);
                if size >= 32 {
                    crate::power::lemma_groups(size as int);
                    crate::path::lemma_round(size as int);
                } else {
                    vstd::arithmetic::div_mod::lemma_small_mod(c as nat, 32);
                }
                assert(probe.inner.wanted(&self.alloc, c));
                assert(false);
            }
        }
        let idx: usize = match found {
            Some(i) => i,
            None => 0,
        };
        let was: i8 = self.alloc.meta[idx];
        let ghost before = *self;
        proof {
            self.lemma_first_free(hash, probe.inner);
            assert(was < 0);
            assert(crate::storage::tag_is_valid(was));
            let c = probe.inner.cursor@ - 1;
            assert(self.on_path(c));
            assert forall|d: int| 0 <= d < c && #[trigger] self.on_path(d) implies self.alloc.meta@[self.slot(
                hash,
                d,
            )] >= 0 by {
                assert(!probe.inner.wanted(&self.alloc, d));
            }
            assert(self.first_free(hash, idx as int));
        }
        self.alloc.buckets.set(idx, Some((key, value)));
        {
            let mut meta = self.alloc.get_meta(idx);
            meta.occupy(hash);
        }
        self.len = self.len + 1;
        proof {
            let tag = tag7(hash) as i8;
            lemma_written(&before.alloc, &self.alloc, idx as int, tag);
            crate::count::lemma_update(before.alloc.meta@, size as int, idx as int, tag);
            crate::count::lemma_agree(
                before.alloc.meta@.update(idx as int, tag),
                self.alloc.meta@,
                size as int,
            );
            crate::count::lemma_bounds(self.alloc.meta@, size as int, size as int);
        }
        if was == DELETED {
            self.deleted = self.deleted - 1;
        }
        self.filed = Ghost(self.filed@.update(idx as int, hash));
        proof {
            assert forall|i: int| #[trigger] self.holds(i) implies self.alloc.meta@[i] == tag7(
                self.filed@[i],
            ) && self.reachable(self.filed@[i], i) by {
                if i == idx {
                    before.lemma_reachable_kept(self, hash, i);
                } else {
                    assert(before.holds(i));
                    before.lemma_reachable_kept(self, before.filed@[i], i);
                }
            }
        }
        idx
    }
}

impl<K, V> Table<K, V> {
    /// Where a key is held once, its slot is the slot that holds it.
    pub proof fn lemma_slot_of(&self, i: int)
        requires
            self.single(self.key(i)),
            self.holds(i),
        ensures
            self.has_key(self.key(i)),
            self.slot_of(self.key(i)) == i,
            self@.contains_key(self.key(i)),
            self@[self.key(i)] == self.value(i),
    {
        let j = self.slot_of(self.key(i));
        assert(self.holds(j) && self.key(j) == self.key(i));
    }

    /// Putting an entry into a slot, over the same key or into a free slot
    /// while the key is not held, leaves the key held once, with the value
    /// put.
    pub proof fn lemma_key_put(&self, after: &Self, i: int, k: K, v: V)
        requires
            self.single(k),
            0 <= i < self.size(),
            self.alloc.buckets@.len() == self.size(),
            after.size() == self.size(),
            after.alloc.buckets@ == self.alloc.buckets@.update(i, Some((k, v))),
            self.holds(i) ==> self.key(i) == k,
            !self.holds(i) ==> !self.has_key(k),
        ensures
            after.single(k),
            after.has_key(k),
            after@.contains_key(k),
            after@[k] == v,
    {
        assert(after.holds(i) && after.key(i) == k);
        assert forall|a: int, b: int|
            #[trigger] after.holds(a) && #[trigger] after.holds(b) && after.key(a) == k
                && after.key(b) == k implies a == b by {
            if a != i {
                assert(self.holds(a) && self.key(a) == k);
            }
            if b != i {
                assert(self.holds(b) && self.key(b) == k);
            }
            if self.holds(i) {
                assert(self.key(i) == k);
            }
        }
        after.lemma_slot_of(i);
    }

    /// Emptying the one slot that holds a key leaves the key held nowhere.
    pub proof fn lemma_key_take(&self, after: &Self, i: int)
        requires
            self.single(self.key(i)),
            self.holds(i),
            self.alloc.buckets@.len() == self.size(),
            after.size() == self.size(),
            after.alloc.buckets@ == self.alloc.buckets@.update(i, None),
        ensures
            !after.has_key(self.key(i)),
            !after@.contains_key(self.key(i)),
    {
        if after.has_key(self.key(i)) {
            let a = after.slot_of(self.key(i));
            assert(after.holds(a) && after.key(a) == self.key(i));
            assert(self.holds(a));
        }
    }

    /// Putting an entry into a slot, over the same key or into a free slot
    /// while the key is not held, puts it into the map.
    pub proof fn lemma_view_put(&self, after: &Self, i: int, k: K, v: V)
        requires
            self.distinct(),
            0 <= i < self.size(),
            self.alloc.buckets@.len() == self.size(),
            after.size() == self.size(),
            after.alloc.buckets@ == self.alloc.buckets@.update(i, Some((k, v))),
            self.holds(i) ==> self.key(i) == k,
            !self.holds(i) ==> !self.has_key(k),
        ensures
            after.distinct(),
            after@ == self@.insert(k, v),
    {
        assert(after.holds(i) && after.key(i) == k);
        assert forall|a: int, b: int|
            #[trigger] after.holds(a) && #[trigger] after.holds(b) && after.key(a) == after.key(
                b,
            ) implies a == b by {
            if a != i && b != i {
                assert(self.holds(a) && self.holds(b));
            } else if a != i {
                assert(self.holds(a));
                if self.holds(i) {
                } else {
                    assert(self.has_key(k));
                }
            } else if b != i {
                assert(self.holds(b));
                if self.holds(i) {
                } else {
                    assert(self.has_key(k));
                }
            }
        }
        after.lemma_slot_of(i);
        assert forall|q: K| after@.contains_key(q) <==> self@.insert(k, v).contains_key(q) by {
            if after.has_key(q) {
                let a = after.slot_of(q);
                assert(after.holds(a) && after.key(a) == q);
                if a != i {
                    assert(self.holds(a));
                }
            }
            if self.has_key(q) {
                let a = self.slot_of(q);
                assert(self.holds(a) && self.key(a) == q);
                if a != i {
                    assert(after.holds(a) && after.key(a) == q);
                }
            }
        }
        assert forall|q: K| after@.contains_key(q) implies #[trigger] after@[q] == self@.insert(
            k,
            v,
        )[q] by {
            if q != k {
                let a = self.slot_of(q);
                assert(self.holds(a) && self.key(a) == q);
                assert(after.holds(a) && after.key(a) == q);
                after.lemma_slot_of(a);
                self.lemma_slot_of(a);
            }
        }
        assert(after@ =~= self@.insert(k, v));
    }

    /// Emptying a slot takes its key out of the map.
    pub proof fn lemma_view_take(&self, after: &Self, i: int)
        requires
            self.distinct(),
            self.holds(i),
            self.alloc.buckets@.len() == self.size(),
            after.size() == self.size(),
            after.alloc.buckets@ == self.alloc.buckets@.update(i, None),
        ensures
            after.distinct(),
            after@ == self@.remove(self.key(i)),
    {
        let k = self.key(i);
        assert forall|a: int, b: int|
            #[trigger] after.holds(a) && #[trigger] after.holds(b) && after.key(a) == after.key(
                b,
            ) implies a == b by {
            assert(self.holds(a) && self.holds(b));
        }
        assert forall|q: K| after@.contains_key(q) <==> self@.remove(k).contains_key(q) by {
            if after.has_key(q) {
                let a = after.slot_of(q);
                assert(after.holds(a) && after.key(a) == q);
                assert(self.holds(a) && self.key(a) == q);
            }
            if self.has_key(q) && q != k {
                let a = self.slot_of(q);
                assert(self.holds(a) && self.key(a) == q);
                assert(after.holds(a) && after.key(a) == q);
            }
        }
        assert forall|q: K| after@.contains_key(q) implies #[trigger] after@[q] == self@.remove(
            k,
        )[q] by {
            let a = after.slot_of(q);
            assert(after.holds(a) && after.key(a) == q);
            assert(self.holds(a) && self.key(a) == q);
            after.lemma_slot_of(a);
            self.lemma_slot_of(a);
        }
        assert(after@ =~= self@.remove(k));
    }
}

impl<K: PartialEq, V> Table<K, V> {
    /// Whether the table and the hash given for `key` are in order: `==` on
    /// keys is the equality of values, `key` is held at most once, and where
    /// it is held it was filed under `hash`. So it is for as long as the
    /// hash of `key` is the same on every call.
    pub open spec fn in_order(&self, hash: u64, key: K) -> bool {
        &&& eq_is_identity::<K>()
        &&& self.single(key)
        &&& self.agrees(hash, key)
    }

    /// Whether `r` is what a search for `key` on the path of `hash` comes
    /// to: a slot whose key `==` takes for `key`, or none where no entry
    /// filed under `hash` has such a key. Where the table and the hash are
    /// in order, it is the slot of `key`, or none where `key` is not held.
    pub open spec fn located(&self, hash: u64, key: K, r: Option<usize>) -> bool {
        &&& match r {
            Some(i) => self.holds(i as int) && (eq_is_identity::<K>() ==> self.key(i as int)
                == key),
            None => eq_is_identity::<K>() ==> forall|i: int| #[trigger]
                self.holds(i) && self.filed@[i] == hash ==> self.key(i) != key,
        }
        &&& self.in_order(hash, key) ==> (r is Some <==> self.has_key(key))
        &&& self.in_order(hash, key) && r is Some ==> r.unwrap() == self.slot_of(key)
    }

    /// Whether `r` is what a lookup of `key` on the path of `hash` comes to:
    /// the value of an entry whose key `==` takes for `key`, or none where
    /// no entry filed under `hash` has such a key. Where the table and the
    /// hash are in order, it is the value that the map has at `key`, or
    /// none where it has none.
    pub open spec fn fetched(&self, hash: u64, key: K, r: Option<&V>) -> bool {
        &&& match r {
            Some(v) => exists|i: int| #[trigger]
                self.holds(i) && *v == self.value(i) && (eq_is_identity::<K>() ==> self.key(i)
                    == key),
            None => eq_is_identity::<K>() ==> forall|i: int| #[trigger]
                self.holds(i) && self.filed@[i] == hash ==> self.key(i) != key,
        }
        &&& self.in_order(hash, key) ==> r == (if self@.contains_key(key) {
            Some(&self@[key])
        } else {
            None
        })
    }

    /// The slot that holds `key`, looked for on the path of `hash`.
    pub fn locate(&self, hash: u64, key: &K) -> (r: Option<usize>)
        requires
            self.wf(),
        ensures
            self.located(hash, *key, r),
    {
        let is_key = |k: &K| -> (b: bool)
            ensures
                eq_is_identity::<K>() ==> b == (*k == *key),
            { same_key(k, key) };
        let r = self.search(hash, is_key);
        proof {
            if self.in_order(hash, *key) {
                match r {
                    Some(i) => {
                        self.lemma_slot_of(i as int);
                    },
                    None => {
                        if self.has_key(*key) {
                            let j = self.slot_of(*key);
                            assert(self.holds(j) && self.key(j) == *key);
                        }
                    },
                }
            }
        }
        r
    }

    /// The value held for `key`, looked for on the path of `hash`.
    pub fn get(&self, hash: u64, key: &K) -> (r: Option<&V>)
        requires
            self.wf(),
        ensures
            self.fetched(hash, *key, r),
    {
        match self.locate(hash, key) {
            Some(idx) => {
                proof {
                    if self.in_order(hash, *key) {
                        self.lemma_slot_of(idx as int);
                    }
                }
                match &self.alloc.buckets[idx] {
                    Some(entry) => Some(&entry.1),
                    None => None,
                }
            },
            None => None,
        }
    }

    /// Whether every slot but slot `i` holds what it holds in `from`, filed
    /// as it is there.
    pub open spec fn same_but(&self, from: &Self, i: int) -> bool {
        forall|j: int|
            0 <= j < from.size() && j != i ==> (#[trigger] self.alloc.buckets@[j])
                == from.alloc.buckets@[j] && self.filed@[j] == from.filed@[j]
    }

    /// Whether slot `i` is the one slot in which this table differs from
    /// `from` after `value` has been put under `key`, filed under `hash`,
    /// with `prior` handed back.
    pub open spec fn put_at(
        &self,
        from: &Self,
        i: int,
        hash: u64,
        key: K,
        value: V,
        prior: Option<V>,
    ) -> bool {
        &&& self.holds(i)
        &&& self.value(i) == value
        &&& self.same_but(from, i)
        &&& match prior {
            Some(v) => {
                &&& from.holds(i)
                &&& from.value(i) == v
                &&& self.key(i) == from.key(i)
                &&& self.filed@[i] == from.filed@[i]
                &&& eq_is_identity::<K>() ==> from.key(i) == key
            },
            None => {
                &&& !from.holds(i)
                &&& self.key(i) == key
                &&& self.filed@[i] == hash
            },
        }
    }

    /// Whether this table is `from` after `value` has been put under `key`,
    /// filed under `hash`, with `prior` handed back.
    ///
    /// One slot has changed and now holds `value`. Where a value is handed
    /// back, the slot held it, under a key that `==` took for `key`, and
    /// keeps that key. Where none is, the slot was free and now holds `key`,
    /// filed under `hash`. Where the table and the hash were in order, they
    /// still are, the map has `value` at `key`, and what is handed back is
    /// what it had there; where no key at all was held twice, the map is
    /// the old one with `value` at `key`.
    pub open spec fn put(&self, from: &Self, hash: u64, key: K, value: V, prior: Option<V>) -> bool {
        &&& self.wf()
        &&& self.size() == from.size()
        &&& self.len == from.len + (if prior is None {
            1int
        } else {
            0int
        })
        &&& prior is Some ==> self.deleted == from.deleted
        &&& exists|i: int| #[trigger] self.put_at(from, i, hash, key, value, prior)
        &&& from.in_order(hash, key) ==> {
            &&& self.in_order(hash, key)
            &&& self@.contains_key(key)
            &&& self@[key] == value
            &&& prior == (if from@.contains_key(key) {
                Some(from@[key])
            } else {
                None
            })
            &&& from.distinct() ==> self.distinct() && self@ == from@.insert(key, value)
        }
    }

    /// Puts `value` under `key`, filed under `hash`, into a table that has a
    /// free slot, and hands back the value that `key` had. An entry whose
    /// key equals `key` on the path of `hash` has its value replaced; else
    /// the pair goes into the first free slot on that path.
    pub fn insert(&mut self, hash: u64, key: K, value: V) -> (prior: Option<V>)
        requires
            old(self).wf(),
            old(self).len < old(self).size(),
        ensures
            final(self).put(old(self), hash, key, value, prior),
    {
        let ghost before = *self;
        match self.locate(hash, &key) {
            Some(idx) => {
                let taken: Option<(K, V)> = self.alloc.buckets[idx].take();
                assert(taken == before.alloc.buckets@[idx as int]);
                match taken {
                    Some(entry) => {
                        let (stored, prior) = entry;
                        self.alloc.buckets.set(idx, Some((stored, value)));
                        proof {
                            assert(self.alloc.meta@ == before.alloc.meta@);
                            assert(self.alloc.buckets@ =~= before.alloc.buckets@.update(
                                idx as int,
                                Some((stored, value)),
                            ));
                            assert forall|i: int| #[trigger] self.holds(i) implies self.alloc.meta@[i]
                                == tag7(self.filed@[i]) && self.reachable(self.filed@[i], i) by {
                                assert(before.holds(i));
                                before.lemma_reachable_kept(self, self.filed@[i], i);
                            }
                            assert(self.alloc.wf());
                            assert(self.wf());
                            assert(self.put_at(&before, idx as int, hash, key, value, Some(prior)));
                            if before.in_order(hash, key) {
                                before.lemma_slot_of(idx as int);
                                before.lemma_key_put(self, idx as int, key, value);
                                if before.distinct() {
                                    before.lemma_view_put(self, idx as int, key, value);
                                }
                                assert forall|i: int| #[trigger]
                                    self.holds(i) && self.key(i) == key implies self.filed@[i]
                                    == hash by {
                                    assert(before.holds(i));
                                }
                            }
                        }
                        Some(prior)
                    },
                    None => None,
                }
            },
            None => {
                let idx: usize = self.claim(hash, key, value);
                proof {
                    assert(self.put_at(&before, idx as int, hash, key, value, None));
                    if before.in_order(hash, key) {
                        if before.has_key(key) {
                            let j = before.slot_of(key);
                            assert(before.holds(j) && before.key(j) == key);
                        }
                        before.lemma_key_put(self, idx as int, key, value);
                        if before.distinct() {
                            before.lemma_view_put(self, idx as int, key, value);
                        }
                        assert forall|i: int| #[trigger]
                            self.holds(i) && self.key(i) == key implies self.filed@[i] == hash by {
                            if i != idx {
                                assert(before.holds(i));
                            }
                        }
                    }
                }
                None
            },
        }
    }

    /// Whether this table is `from` after the entry of `key`, looked for on
    /// the path of `hash`, has been taken out and handed back as `r`.
    ///
    /// Where an entry is handed back, its slot held it and is now a
    /// tombstone, and its key is one that `==` took for `key`. Where none
    /// is, the table is as it was, and no entry filed under `hash` has a
    /// key that `==` takes for `key`. Where the table and the hash were in
    /// order, they still are, the map holds nothing at `key`, and what is
    /// handed back is what it had there; where no key at all was held
    /// twice, the map is the old one without `key`.
    pub open spec fn taken(&self, from: &Self, hash: u64, key: K, r: Option<(K, V)>) -> bool {
        &&& self.wf()
        &&& self.size() == from.size()
        &&& self.filed@ == from.filed@
        &&& match r {
            Some(entry) => {
                &&& eq_is_identity::<K>() ==> entry.0 == key
                &&& exists|i: int| #[trigger] self.emptied_at(from, i, entry)
            },
            None => {
                &&& *self == *from
                &&& eq_is_identity::<K>() ==> forall|i: int| #[trigger]
                    from.holds(i) && from.filed@[i] == hash ==> from.key(i) != key
            },
        }
        &&& from.in_order(hash, key) ==> {
            &&& self.in_order(hash, key)
            &&& !self@.contains_key(key)
            &&& r == (if from@.contains_key(key) {
                Some((key, from@[key]))
            } else {
                None
            })
            &&& from.distinct() ==> self.distinct() && self@ == from@.remove(key)
        }
    }

    /// Takes the entry of `key`, looked for on the path of `hash`, out of
    /// the table and leaves a tombstone in its slot.
    pub fn remove_entry(&mut self, hash: u64, key: &K) -> (r: Option<(K, V)>)
        requires
            old(self).wf(),
        ensures
            final(self).taken(old(self), hash, *key, r),
    {
        let ghost before = *self;
        match self.locate(hash, key) {
            Some(idx) => {
                let taken: Option<(K, V)> = self.remove_at(idx);
                proof {
                    assert(self.emptied_at(&before, idx as int, taken.unwrap()));
                    if before.in_order(hash, *key) {
                        before.lemma_slot_of(idx as int);
                        before.lemma_key_take(self, idx as int);
                        if before.distinct() {
                            before.lemma_view_take(self, idx as int);
                        }
                    }
                }
                taken
            },
            None => {
                proof {
                    if before.in_order(hash, *key) {
                        assert(!before.has_key(*key));
                        assert(before@.remove(*key) =~= before@);
                    }
                }
                None
            },
        }
    }

    /// The value held for `key`, looked for on the path of `hash`, for
    /// writing. Whatever is written through it is the value of that entry
    /// from then on; nothing else changes.
    pub fn get_mut(&mut self, hash: u64, key: &K) -> (r: Option<&mut V>)
        requires
            old(self).wf(),
        ensures
            match r {
                Some(v) => exists|i: int|
                    {
                        &&& #[trigger] old(self).holds(i)
                        &&& *v == old(self).value(i)
                        &&& eq_is_identity::<K>() ==> old(self).key(i) == *key
                        &&& final(self).revalued(old(self), i, *final(v))
                    },
                None => {
                    &&& *final(self) == *old(self)
                    &&& eq_is_identity::<K>() ==> forall|i: int| #[trigger]
                        old(self).holds(i) && old(self).filed@[i] == hash ==> old(self).key(i)
                            != *key
                },
            },
            final(self).wf(),
            old(self).in_order(hash, *key) ==> match r {
                Some(v) => {
                    &&& old(self)@.contains_key(*key)
                    &&& *v == old(self)@[*key]
                    &&& final(self).in_order(hash, *key)
                    &&& final(self)@.contains_key(*key)
                    &&& final(self)@[*key] == *final(v)
                    &&& old(self).distinct() ==> final(self).distinct()
                        && final(self)@ == old(self)@.insert(*key, *final(v))
                },
                None => !old(self)@.contains_key(*key),
            },
    {
        let ghost before = *self;
        match self.locate(hash, key) {
            Some(idx) => {
                proof {
                    assert forall|after: Self, v: V| #[trigger]
                        after.revalued(&before, idx as int, v) implies after.wf() && (
                    before.in_order(hash, *key) ==> after.in_order(hash, *key)
                        && after@.contains_key(*key) && after@[*key] == v && (before.distinct()
                        ==> after.distinct() && after@ == before@.insert(*key, v))) by {
                        before.lemma_revalued(&after, idx as int, v);
                        if before.in_order(hash, *key) {
                            before.lemma_slot_of(idx as int);
                            before.lemma_key_put(&after, idx as int, *key, v);
                            assert forall|i: int| #[trigger]
                                after.holds(i) && after.key(i) == *key implies after.filed@[i]
                                == hash by {
                                assert(before.holds(i));
                            }
                            if before.distinct() {
                                before.lemma_view_put(&after, idx as int, *key, v);
                            }
                        }
                    }
                    if before.in_order(hash, *key) {
                        before.lemma_slot_of(idx as int);
                    }
                }
                self.value_at_mut(idx)
            },
            None => None,
        }
    }
}

impl<K, V> Table<K, V> {
    /// Whether this table is `from` with slot `i`, which held `entry`,
    /// turned into a tombstone.
    pub open spec fn emptied_at(&self, from: &Self, i: int, entry: (K, V)) -> bool {
        &&& from.holds(i)
        &&& from.alloc.buckets@[i] == Some(entry)
        &&& self.alloc.buckets@ == from.alloc.buckets@.update(i, None)
        &&& self.alloc.meta@ == written(from.alloc.meta@, i, DELETED)
        &&& self.alloc.size == from.alloc.size
        &&& self.filed@ == from.filed@
        &&& self.len == from.len - 1
        &&& self.deleted == from.deleted + 1
    }

    /// Whether this table is `from` with the value in slot `i` replaced by
    /// `v`.
    pub open spec fn revalued(&self, from: &Self, i: int, v: V) -> bool {
        &&& from.holds(i)
        &&& self.alloc.buckets@ == from.alloc.buckets@.update(i, Some((from.key(i), v)))
        &&& self.alloc.meta@ == from.alloc.meta@
        &&& self.alloc.size == from.alloc.size
        &&& self.filed@ == from.filed@
        &&& self.len == from.len
        &&& self.deleted == from.deleted
    }

    /// A table stays well formed when one of its values is replaced.
    pub proof fn lemma_revalued(&self, after: &Self, i: int, v: V)
        requires
            self.wf(),
            after.revalued(self, i, v),
        ensures
            after.wf(),
    {
        assert forall|j: int| #[trigger] after.holds(j) implies after.alloc.meta@[j] == tag7(
            after.filed@[j],
        ) && after.reachable(after.filed@[j], j) by {
            assert(self.holds(j));
            self.lemma_reachable_kept(after, self.filed@[j], j);
        }
    }

    /// Turns slot `idx` into a tombstone and hands back the entry it held.
    /// The tag is written first and the payload taken last.
    pub fn remove_at(&mut self, idx: usize) -> (r: Option<(K, V)>)
        requires
            old(self).wf(),
            old(self).holds(idx as int),
        ensures
            final(self).wf(),
            r is Some,
            final(self).emptied_at(old(self), idx as int, r.unwrap()),
    {
        let ghost before = *self;
        let size: usize = self.alloc.size();
        {
            let mut meta = self.alloc.get_meta(idx);
            meta.write(DELETED);
        }
        let taken: Option<(K, V)> = self.alloc.buckets[idx].take();
        proof {
            lemma_written(&before.alloc, &self.alloc, idx as int, DELETED);
            crate::count::lemma_update(before.alloc.meta@, size as int, idx as int, DELETED);
            crate::count::lemma_agree(
                before.alloc.meta@.update(idx as int, DELETED),
                self.alloc.meta@,
                size as int,
            );
            crate::count::lemma_bounds(self.alloc.meta@, size as int, size as int);
            crate::power::lemma_max_capacity();
        }
        self.len = self.len - 1;
        self.deleted = self.deleted + 1;
        proof {
            assert(self.alloc.buckets@ == before.alloc.buckets@.update(idx as int, None));
            assert forall|i: int| #[trigger] self.holds(i) implies self.alloc.meta@[i] == tag7(
                self.filed@[i],
            ) && self.reachable(self.filed@[i], i) by {
                assert(before.holds(i));
                before.lemma_reachable_kept(self, self.filed@[i], i);
            }
        }
        taken
    }

    /// The value in slot `idx`, or none where the slot holds no entry.
    pub fn value_at(&self, idx: usize) -> (r: Option<&V>)
        requires
            idx < self.alloc.buckets@.len(),
        ensures
            r == (if self.alloc.buckets@[idx as int] is Some {
                Some(&self.alloc.buckets@[idx as int].unwrap().1)
            } else {
                None
            }),
    {
        match &self.alloc.buckets[idx] {
            Some(entry) => Some(&entry.1),
            None => None,
        }
    }

    /// The value in slot `idx`, for writing, or none where the slot holds
    /// no entry.
    pub fn value_at_mut(&mut self, idx: usize) -> (r: Option<&mut V>)
        requires
            old(self).wf(),
            old(self).holds(idx as int),
        ensures
            r is Some,
            *r.unwrap() == old(self).value(idx as int),
            final(self).revalued(old(self), idx as int, *final(r.unwrap())),
    {
        match &mut self.alloc.buckets[idx] {
            Some(entry) => Some(&mut entry.1),
            None => None,
        }
    }
}

} // verus!
