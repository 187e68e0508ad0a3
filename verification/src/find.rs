//! The tag-write helper and the probe driver.

use vstd::prelude::*;
use std::marker::PhantomData;
use crate::controller::{Controller, Count, Either, GROUP_SIZE};
use crate::finder::Finder;
use crate::hint::likely;
use crate::mask::{bit, lemma_and, lemma_zero_mask, low_lanes, lowest, without};
use crate::meta::Meta;
use crate::path::{group_pos, groups, lemma_join, lemma_lane, lemma_next_group, slot_at};
use crate::power::{lemma_groups, lemma_small};
use crate::storage::Alloc;

verus! {

/// `tags` after the tag of slot `idx` has been written as `meta`: every
/// position of the array that stands for the slot, its own and each mirror
/// of it in the tail, holds `meta`. In a table of at least one group that is
/// the slot itself and, for a slot of the first group, one mirror.
pub open spec fn written(tags: Seq<i8>, idx: int, meta: i8) -> Seq<i8> {
    Seq::new(
        tags.len(),
        |x: int|
            if x % (tags.len() - 32) == idx {
                meta
            } else {
                tags[x]
            },
    )
}

/// Writing the tag of a slot of a shaped table leaves the table shaped and
/// changes no other slot's tag.
pub proof fn lemma_written<T>(before: &Alloc<T>, after: &Alloc<T>, idx: int, meta: i8)
    requires
        before.shaped(),
        0 <= idx < before.size,
        crate::storage::tag_is_valid(meta),
        after.meta@ == written(before.meta@, idx, meta),
        after.size == before.size,
        after.buckets@.len() == before.buckets@.len(),
    ensures
        after.shaped(),
        after.meta@[idx] == meta,
        forall|i: int| 0 <= i < before.size && i != idx ==> after.meta@[i] == before.meta@[i],
        forall|x: int|
            0 <= x < before.meta@.len() ==> #[trigger] after.meta@[x] == before.meta@[x]
                || after.meta@[x] == meta,
{
    let size = before.size as int;
    assert forall|k: int| 0 <= k < 32 implies #[trigger] after.meta@[size + k]
        == after.meta@[k] by {
        assert(before.meta@[size + k] == before.meta@[k]);
        crate::path::lemma_step(k, size, size);
    }
    assert forall|i: int| 0 <= i < size implies #[trigger] after.meta@[i] == (if i == idx {
        meta
    } else {
        before.meta@[i]
    }) by {
        vstd::arithmetic::div_mod::lemma_small_mod(i as nat, size as nat);
    }
}

/// Write access to the tag of one slot. Every change of a tag goes through
/// this handle, which keeps the mirrored tail in step with the head.
pub struct MetaMut<'a> {
    pub tags: &'a mut Vec<i8>,
    pub idx: usize,
}

impl<'a> MetaMut<'a> {
    /// The tag array as it stands.
    pub open spec fn current(&self) -> Seq<i8> {
        self.tags@
    }

    /// A handle on tag `idx` of the tag array `alloc`.
    pub fn new(alloc: &'a mut Vec<i8>, idx: usize) -> (m: Self)
        ensures
            m.tags@ == old(alloc)@,
            m.idx == idx,
            final(alloc)@ == final(m.tags)@,
    {
        MetaMut { tags: alloc, idx }
    }

    /// Writes `meta` as the slot's tag, at the slot's own position and at
    /// every mirror of it.
    pub fn write(&mut self, meta: i8)
        requires
            old(self).tags@.len() > 32,
            old(self).idx < old(self).tags@.len() - 32,
        ensures
            final(self).tags@ == written(old(self).tags@, old(self).idx as int, meta),
            final(self).idx == old(self).idx,
            *final(final(self).tags) == *final(old(self).tags),
    {
        let len: usize = self.tags.len();
        let size: usize = len - 32;
        let mut at: usize = self.idx;
        let ghost before = self.tags@;
        let ghost goal = written(before, self.idx as int, meta);
        proof {
            vstd::arithmetic::div_mod::lemma_small_mod(at as nat, size as nat);
            assert forall|x: int| 0 <= x < at implies self.tags@[x] == goal[x] by {
                vstd::arithmetic::div_mod::lemma_small_mod(x as nat, size as nat);
            }
        }
        loop
            invariant_except_break
                at < len,
                (at as int) % (size as int) == self.idx,
                forall|x: int| 0 <= x < at ==> self.tags@[x] == goal[x],
                forall|x: int| at <= x < len ==> self.tags@[x] == before[x],
            invariant
                len == before.len(),
                size == len - 32,
                size >= 1,
                self.idx == old(self).idx,
                self.idx < size,
                before == old(self).tags@,
                goal == written(before, self.idx as int, meta),
                self.tags@.len() == len,
                *final(self.tags) == *final(old(self).tags),
            ensures
                self.idx == old(self).idx,
                self.tags@ == goal,
                *final(self.tags) == *final(old(self).tags),
            decreases len - at,
        {
            self.tags.set(at, meta);
            proof {
                assert forall|x: int| at < x < len && x - at < size implies goal[x]
                    == before[x] by {
                    crate::path::lemma_step(at as int, x - at, size as int);
                }
            }
            if len - at <= size {
                assert(self.tags@ =~= goal);
                break ;
            }
            proof {
                crate::path::lemma_step(at as int, size as int, size as int);
            }
            at = at + size;
        }
    }

    /// Writes the occupied tag for `hash` as the slot's tag.
    pub fn occupy(&mut self, hash: u64)
        requires
            old(self).tags@.len() > 32,
            old(self).idx < old(self).tags@.len() - 32,
        ensures
            final(self).tags@ == written(
                old(self).tags@,
                old(self).idx as int,
                crate::meta::tag7(hash) as i8,
            ),
            final(self).idx == old(self).idx,
            *final(final(self).tags) == *final(old(self).tags),
    {
        let tag: Meta = Meta::occupied(crate::meta::Hash::new(hash));
        self.write(tag.raw());
    }
}

impl<'a> core::ops::Deref for MetaMut<'a> {
    type Target = i8;

    /// The slot's tag as it stands.
    fn deref(&self) -> (tag: &i8)
        ensures
            self.idx < self.current().len() ==> *tag == self.current()[self.idx as int],
    {
        if self.idx < self.tags.len() {
            &self.tags[self.idx]
        } else {
            &crate::meta::VACANT
        }
    }
}

/// In a shaped table, lane `p` of the group read at slot `s` carries the tag
/// of slot `(s + p) % size`: past the last slot the read runs into the
/// mirrored tail.
pub proof fn lemma_mirror<T>(alloc: &Alloc<T>, s: int, p: int)
    requires
        alloc.shaped(),
        0 <= s < alloc.size,
        0 <= p < 32,
        p < alloc.size,
    ensures
        alloc.group(s)[p] == alloc.meta@[(s + p) % (alloc.size as int)],
        0 <= (s + p) % (alloc.size as int) < alloc.size,
{
    let size = alloc.size as int;
    if s + p < size {
        vstd::arithmetic::div_mod::lemma_small_mod((s + p) as nat, size as nat);
    } else {
        let k = s + p - size;
        vstd::arithmetic::div_mod::lemma_small_mod(k as nat, size as nat);
        vstd::arithmetic::div_mod::lemma_mod_multiples_vanish(1, k, size);
        assert(alloc.meta@[size + k] == alloc.meta@[k]);
    }
}

/// What is left of a budget of `size` slots once `n` groups have been
/// scanned.
pub open spec fn budget(size: int, n: int) -> int {
    if size - 32 * n >= 0 {
        size - 32 * n
    } else {
        0
    }
}

/// A probe: the stream of the slots that `finder` wants, in the order of
/// the path from the slot where the probe began, until `controller` or the
/// budget of one round ends it.
///
/// `index`, `found` and `finished` are the running state: where the next
/// group is read, which wanted lanes of the latest group are still to be
/// reported, and whether that group was the last. The ghost fields say
/// where the probe stands on its path: it began at slot `base`, has read
/// `scanned` groups and has dealt with every offset below `cursor`;
/// `states` holds the caller's controller as it stood before each group
/// read and, last, as it stands now.
pub struct FindInner<F, C> {
    pub index: usize,
    pub finder: F,
    pub found: u32,
    pub controller: Either<Count, C>,
    pub finished: bool,
    pub base: Ghost<int>,
    pub scanned: Ghost<int>,
    pub cursor: Ghost<int>,
    pub states: Ghost<Seq<C>>,
}

impl<F: Finder, C: Controller> FindInner<F, C> {
    /// Whether the slot at offset `c` of the path is one the probe reports:
    /// its lane lies within the table and the finder wants its tag.
    pub open spec fn wanted<T>(&self, alloc: &Alloc<T>, c: int) -> bool {
        &&& c % 32 < alloc.size
        &&& self.finder.wants(alloc.meta@[slot_at(self.base@, alloc.size as int, c)])
    }

    /// The group that the probe reads as its group `j`.
    pub open spec fn seen<T>(&self, alloc: &Alloc<T>, j: int) -> Seq<i8> {
        alloc.group(group_pos(self.base@, alloc.size as int, j))
    }

    /// The running state agrees with the place on the path: the probe has
    /// read the groups it should have read and no more, each was shown to
    /// the controller, and none but the latest ended the probe.
    pub open spec fn inv<T>(&self, alloc: &Alloc<T>) -> bool {
        let size = alloc.size as int;
        let n = self.scanned@;
        &&& size == 0 ==> self.finished && self.found == 0 && n == 0 && self.cursor@ == 0
        &&& self.states@.len() == n + 1
        &&& self.states@[n] == self.controller.1
        &&& forall|j: int|
            0 <= j < n ==> self.states@[j + 1] == (#[trigger] self.states@[j]).after(
                self.seen(alloc, j),
            )
        &&& forall|j: int|
            0 <= j < n - 1 ==> !(#[trigger] self.states@[j]).halts(self.seen(alloc, j))
        &&& size > 0 ==> {
            &&& 0 <= self.base@ < size
            &&& 0 <= n <= groups(size)
            &&& self.controller.0.0 == budget(size, n)
            &&& n == 0 ==> self.index == self.base@ && self.found == 0 && self.cursor@ == 0
                && !self.finished
            &&& n >= 1 ==> {
                &&& self.index == group_pos(self.base@, size, n - 1) + 32
                &&& 32 * (n - 1) <= self.cursor@ <= 32 * n
                &&& self.finished <==> (n >= groups(size) || self.states@[n - 1].halts(
                    self.seen(alloc, n - 1),
                ))
                &&& forall|p: int|
                    0 <= p < 32 ==> #[trigger] bit(self.found, p) == (32 * (n - 1) + p
                        >= self.cursor@ && self.wanted(alloc, 32 * (n - 1) + p))
            }
        }
    }

    /// A probe of `alloc` that begins at slot `index`.
    pub fn new<T>(alloc: &Alloc<T>, index: usize, finder: F, controller: C) -> (s: Self)
        requires
            alloc.shaped(),
            alloc.size > 0 ==> index < alloc.size,
        ensures
            s.inv(alloc),
            s.base@ == index,
            s.scanned@ == 0,
            s.cursor@ == 0,
            s.finder == finder,
            s.controller.1 == controller,
            s.states@ == seq![controller],
    {
        let finished: bool = alloc.size() == 0;
        let ghost first = Seq::<C>::empty().push(controller);
        FindInner {
            index,
            finder,
            found: 0,
            controller: Either(Count(alloc.size()), controller),
            finished,
            base: Ghost(index as int),
            scanned: Ghost(0),
            cursor: Ghost(0),
            states: Ghost(first),
        }
    }

    /// Whether this probe is `from` one step on, with `r` the slot that the
    /// step reported.
    ///
    /// A slot that is reported is the first wanted one at or after the
    /// cursor of `from`; the cursor then stands just behind it. When none
    /// is, the probe is finished and no offset from the cursor of `from` to
    /// the end of the groups read so far is wanted. A finished probe reads
    /// no further group.
    pub open spec fn stepped<T>(&self, from: &Self, alloc: &Alloc<T>, r: Option<usize>) -> bool {
        &&& self.inv(alloc)
        &&& self.base@ == from.base@
        &&& self.states@.take(from.scanned@ + 1) == from.states@
        &&& forall|t: i8| #[trigger] self.finder.wants(t) == from.finder.wants(t)
        &&& from.scanned@ <= self.scanned@
        &&& from.cursor@ <= self.cursor@ <= 32 * self.scanned@
        &&& from.finished ==> self.scanned@ == from.scanned@
        &&& match r {
            Some(idx) => {
                &&& self.cursor@ > from.cursor@
                &&& self.wanted(alloc, self.cursor@ - 1)
                &&& idx == slot_at(self.base@, alloc.size as int, self.cursor@ - 1)
                &&& idx < alloc.size
                &&& forall|c: int|
                    from.cursor@ <= c < self.cursor@ - 1 ==> !#[trigger] self.wanted(alloc, c)
            },
            None => {
                &&& self.finished
                &&& self.cursor@ == 32 * self.scanned@
                &&& forall|c: int|
                    from.cursor@ <= c < self.cursor@ ==> !#[trigger] self.wanted(alloc, c)
            },
        }
    }

    /// The next slot the probe reports, or none once it is complete.
    pub fn next<T>(&mut self, alloc: &Alloc<T>) -> (r: Option<usize>)
        requires
            old(self).inv(alloc),
            alloc.shaped(),
        ensures
            final(self).stepped(old(self), alloc, r),
    {
        let size: usize = alloc.size();
        assert(self.states@.take(self.scanned@ + 1) =~= self.states@);
        loop
            invariant
                size == alloc.size,
                alloc.shaped(),
                self.inv(alloc),
                self.base@ == old(self).base@,
                self.states@.take(old(self).scanned@ + 1) == old(self).states@,
                forall|t: i8| #[trigger] self.finder.wants(t) == old(self).finder.wants(t),
                0 <= old(self).scanned@ <= self.scanned@,
                old(self).cursor@ <= self.cursor@,
                old(self).finished ==> self.scanned@ == old(self).scanned@ && self.finished,
                forall|c: int|
                    old(self).cursor@ <= c < self.cursor@ ==> !#[trigger] self.wanted(alloc, c),
            decreases groups(size as int) - self.scanned@,
        {
            if self.found != 0 {
                let pos: usize = lowest(self.found);
                let rest: u32 = without(self.found, pos);
                let ghost n = self.scanned@;
                let ghost before = self.cursor@;
                let ghost prior = *self;
                proof {
                    assert(bit(self.found, pos as int));
                    assert(n >= 1);
                    lemma_lane(self.base@, size as int, n - 1, pos as int);
                    assert forall|c: int| before <= c < 32 * (n - 1) + pos implies !self.wanted(
                        alloc,
                        c,
                    ) by {
                        let p = c - 32 * (n - 1);
                        assert(!bit(self.found, p));
                    }
                }
                self.found = rest;
                self.cursor = Ghost(32 * (n - 1) + pos + 1);
                let at: usize = self.index - GROUP_SIZE + pos;
                proof {
                    assert(self.wanted(alloc, self.cursor@ - 1));
                    assert(at % size == slot_at(self.base@, size as int, self.cursor@ - 1));
                    assert forall|c: int| old(self).cursor@ <= c < self.cursor@ - 1 implies
                        !#[trigger] self.wanted(alloc, c) by {
                        assert(!prior.wanted(alloc, c));
                    }
                    assert forall|p: int| 0 <= p < 32 implies #[trigger] bit(self.found, p) == (32
                        * (n - 1) + p >= self.cursor@ && self.wanted(alloc, 32 * (n - 1) + p)) by {
                        assert(bit(prior.found, p) == (32 * (n - 1) + p >= before && prior.wanted(
                            alloc,
                            32 * (n - 1) + p,
                        )));
                        if p < pos {
                            assert(!bit(prior.found, p));
                        }
                    }
                    assert(self.inv(alloc));
                }
                return Some(at % size);
            }
            if self.finished {
                proof {
                    let n = self.scanned@;
                    lemma_zero_mask(self.found);
                    if n >= 1 {
                        assert forall|c: int| self.cursor@ <= c < 32 * n implies !self.wanted(
                            alloc,
                            c,
                        ) by {
                            let p = c - 32 * (n - 1);
                            assert(!bit(self.found, p));
                        }
                    }
                }
                let ghost prior = *self;
                self.cursor = Ghost(32 * self.scanned@);
                proof {
                    assert forall|c: int| old(self).cursor@ <= c < self.cursor@ implies
                        !#[trigger] self.wanted(alloc, c) by {
                        assert(!prior.wanted(alloc, c));
                    }
                    assert(self.inv(alloc));
                }
                return None;
            }
            let ghost n = self.scanned@;
            let ghost prior = *self;
            proof {
                lemma_zero_mask(self.found);
                if n >= 1 {
                    lemma_next_group(self.base@, size as int, n - 1);
                    assert forall|c: int| self.cursor@ <= c < 32 * n implies !self.wanted(
                        alloc,
                        c,
                    ) by {
                        let p = c - 32 * (n - 1);
                        assert(!bit(self.found, p));
                    }
                } else {
                    vstd::arithmetic::div_mod::lemma_small_mod(
                        self.base@ as nat,
                        size as nat,
                    );
                }
                lemma_next_group(self.base@, size as int, n);
            }
            self.index = self.index % size;
            assert(self.index == group_pos(self.base@, size as int, n));
            let group: [i8; 32] = alloc.load(self.index);
            let lanes: u32 = low_lanes(size);
            let seen: u32 = self.finder.find(&group);
            self.found = seen & lanes;
            self.finished = likely(self.controller.finished(&group));
            self.index = self.index + GROUP_SIZE;
            self.scanned = Ghost(n + 1);
            self.cursor = Ghost(32 * n);
            self.states = Ghost(self.states@.push(self.controller.1));
            proof {
                assert(group@ == self.seen(alloc, n));
                assert forall|j: int| 0 <= j < n + 1 implies self.states@[j + 1] == (
                #[trigger] self.states@[j]).after(self.seen(alloc, j)) by {
                    assert(self.states@[j] == prior.states@[j]);
                    if j < n {
                        assert(self.states@[j + 1] == prior.states@[j + 1]);
                        assert(prior.seen(alloc, j) == self.seen(alloc, j));
                    }
                }
                assert forall|j: int| 0 <= j < n implies !(#[trigger] self.states@[j]).halts(
                    self.seen(alloc, j),
                ) by {
                    assert(self.states@[j] == prior.states@[j]);
                    assert(prior.seen(alloc, j) == self.seen(alloc, j));
                }
                assert(self.states@.take(old(self).scanned@ + 1) =~= prior.states@.take(
                    old(self).scanned@ + 1,
                ));
                lemma_and(seen, lanes);
                if size >= 32 {
                    lemma_groups(size as int);
                    crate::path::lemma_round(size as int);
                } else {
                    lemma_small(size as int);
                }
                assert forall|p: int| 0 <= p < 32 implies #[trigger] bit(self.found, p) == (32 * n
                    + p >= self.cursor@ && self.wanted(alloc, 32 * n + p)) by {
                    lemma_join(n, p);
                    if p < size {
                        lemma_mirror(alloc, group_pos(self.base@, size as int, n), p);
                        lemma_lane(self.base@, size as int, n, p);
                    }
                }
                assert forall|c: int| old(self).cursor@ <= c < self.cursor@ implies !self.wanted(
                    alloc,
                    c,
                ) by {
                    assert(!prior.wanted(alloc, c));
                }
            }
        }
    }
}

/// A probe that borrows its table: it reports each slot with its tag and
/// its payload.
pub struct Find<'a, T, F, C> {
    pub alloc: &'a Alloc<T>,
    pub inner: FindInner<F, C>,
}

impl<'a, T, F: Finder, C: Controller> Find<'a, T, F, C> {
    /// A probe of `alloc` that begins at slot `index`.
    pub fn new(alloc: &'a Alloc<T>, index: usize, finder: F, controller: C) -> (s: Self)
        requires
            alloc.shaped(),
            alloc.size > 0 ==> index < alloc.size,
        ensures
            s.alloc == alloc,
            s.inner.inv(alloc),
            s.inner.base@ == index,
            s.inner.scanned@ == 0,
            s.inner.cursor@ == 0,
            s.inner.finder == finder,
            s.inner.controller.1 == controller,
    {
        let inner = FindInner::new(alloc, index, finder, controller);
        Find { alloc, inner }
    }

    /// The next slot the probe reports, as its tag and its payload, or
    /// none once the probe is complete.
    pub fn next(&mut self) -> (r: Option<(&'a i8, Option<&'a T>)>)
        requires
            old(self).alloc.shaped(),
            old(self).inner.inv(old(self).alloc),
        ensures
            final(self).alloc == old(self).alloc,
            match r {
                Some(entry) => exists|idx: usize|
                    {
                        &&& #[trigger] final(self).inner.stepped(
                            &old(self).inner,
                            old(self).alloc,
                            Some(idx),
                        )
                        &&& *entry.0 == old(self).alloc.meta@[idx as int]
                        &&& entry.1 == (if old(self).alloc.buckets@[idx as int] is Some {
                            Some(&old(self).alloc.buckets@[idx as int].unwrap())
                        } else {
                            None
                        })
                    },
                None => final(self).inner.stepped(
                    &old(self).inner,
                    old(self).alloc,
                    None::<usize>,
                ),
            },
    {
        let ghost before = self.inner;
        match self.inner.next(self.alloc) {
            Some(i) => {
                let entry = (&self.alloc.meta[i], self.alloc.buckets[i].as_ref());
                assert(self.inner.stepped(&before, self.alloc, Some(i)));
                Some(entry)
            },
            None => None,
        }
    }
}

/// One slot of a table, as a probe reports it.
#[derive(Clone, Copy)]
pub struct EntryRef<'a, T> {
    pub alloc: &'a Alloc<T>,
    pub idx: usize,
}

impl<'a, T> EntryRef<'a, T> {
    /// The tag of the slot.
    pub fn meta(&self) -> (tag: &i8)
        requires
            self.alloc.shaped(),
            self.idx < self.alloc.size,
        ensures
            *tag == self.alloc.meta@[self.idx as int],
    {
        &self.alloc.meta[self.idx]
    }

    /// The payload of the slot, where it holds one.
    pub fn bucket(&self) -> (payload: Option<&T>)
        requires
            self.alloc.shaped(),
            self.idx < self.alloc.size,
        ensures
            payload == (if self.alloc.buckets@[self.idx as int] is Some {
                Some(&self.alloc.buckets@[self.idx as int].unwrap())
            } else {
                None
            }),
    {
        self.alloc.buckets[self.idx].as_ref()
    }

    /// The number of the slot.
    pub fn index(&self) -> (idx: usize)
        ensures
            idx == self.idx,
    {
        self.idx
    }
}

/// A probe that borrows nothing: the table is handed to each step.
pub struct FindRef<T, F, C> {
    pub inner: FindInner<F, C>,
    pub _phantom: PhantomData<T>,
}

impl<T, F: Finder, C: Controller> FindRef<T, F, C> {
    /// A probe of `alloc` that begins at slot `index`.
    pub fn new(alloc: &Alloc<T>, index: usize, finder: F, controller: C) -> (s: Self)
        requires
            alloc.shaped(),
            alloc.size > 0 ==> index < alloc.size,
        ensures
            s.inner.inv(alloc),
            s.inner.base@ == index,
            s.inner.scanned@ == 0,
            s.inner.cursor@ == 0,
            s.inner.finder == finder,
            s.inner.controller.1 == controller,
    {
        let inner = FindInner::new(alloc, index, finder, controller);
        FindRef { inner, _phantom: PhantomData }
    }

    /// The probe together with the table it walks, for stepping.
    pub fn supply<'a>(&'a mut self, alloc: &'a Alloc<T>) -> (it: FindRefIter<'a, T, F, C>)
        ensures
            it.alloc == alloc,
            *it.inner == *old(self),
            *final(self) == *final(it.inner),
    {
        FindRefIter { inner: self, alloc }
    }

    /// The next slot the probe reports in `alloc`, or none once the probe
    /// is complete.
    pub fn next(&mut self, alloc: &Alloc<T>) -> (r: Option<usize>)
        requires
            old(self).inner.inv(alloc),
            alloc.shaped(),
        ensures
            final(self).inner.stepped(&old(self).inner, alloc, r),
    {
        self.inner.next(alloc)
    }
}

/// A probe supplied with its table.
pub struct FindRefIter<'a, T, F, C> {
    pub inner: &'a mut FindRef<T, F, C>,
    pub alloc: &'a Alloc<T>,
}

impl<'a, T, F: Finder, C: Controller> FindRefIter<'a, T, F, C> {
    /// The next slot the probe reports, or none once the probe is
    /// complete.
    pub fn next(&mut self) -> (r: Option<EntryRef<'a, T>>)
        requires
            old(self).inner.inner.inv(old(self).alloc),
            old(self).alloc.shaped(),
        ensures
            final(self).alloc == old(self).alloc,
            *final(final(self).inner) == *final(old(self).inner),
            match r {
                Some(entry) => entry.alloc == old(self).alloc && final(self).inner.inner.stepped(
                    &old(self).inner.inner,
                    old(self).alloc,
                    Some(entry.idx),
                ),
                None => final(self).inner.inner.stepped(
                    &old(self).inner.inner,
                    old(self).alloc,
                    None::<usize>,
                ),
            },
    {
        match self.inner.inner.next(self.alloc) {
            Some(idx) => Some(EntryRef { alloc: self.alloc, idx }),
            None => None,
        }
    }
}

} // verus!
