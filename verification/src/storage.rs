//! Table storage: the tag array with its mirrored tail, and the payload
//! slots beside it.

use vstd::prelude::*;
use crate::controller::GROUP_SIZE;
use crate::controller::Controller;
use crate::find::{Find, FindRef, MetaMut};
use crate::finder::Finder;
use crate::storage::drain::Drain;
use crate::meta::{DELETED, VACANT};
use crate::power::{is_pow2, next_power_of_two, MAX_CAPACITY};

pub mod drain;

verus! {

/// Whether `tag` is one of the three kinds of tag a slot may carry.
pub open spec fn tag_is_valid(tag: i8) -> bool {
    tag >= 0 || tag == VACANT || tag == DELETED
}

/// The storage of a table of `size` slots. `meta` holds `size + 32` tags,
/// the last thirty-two repeating the first thirty-two, so that the
/// thirty-two tags from any slot onward can be read without wrapping round. `buckets` holds one
/// payload, or none, for each slot.
pub struct Alloc<T> {
    pub meta: Vec<i8>,
    pub buckets: Vec<Option<T>>,
    pub size: usize,
}

impl<T> Alloc<T> {
    /// The tail repeats the head: tag `size + k` equals tag `k`, for every
    /// `k` below the group size. Where the table has fewer slots than a
    /// group, the tail so repeats the slots over and over.
    pub open spec fn mirrored(&self) -> bool {
        forall|k: int| 0 <= k < 32 ==> #[trigger] self.meta@[self.size + k] == self.meta@[k]
    }

    /// The arrays have the lengths that `size` asks for, `size` is zero or a
    /// power of two, the tail mirrors the head and every slot's tag is a
    /// tag.
    pub open spec fn shaped(&self) -> bool {
        &&& self.buckets@.len() == self.size
        &&& self.size == 0 ==> self.meta@.len() == 0
        &&& self.size > 0 ==> {
            &&& is_pow2(self.size as int)
            &&& self.size <= MAX_CAPACITY
            &&& self.meta@.len() == self.size + 32
        }
        &&& self.size > 0 ==> self.mirrored()
        &&& forall|i: int| 0 <= i < self.size ==> tag_is_valid(#[trigger] self.meta@[i])
    }

    /// Shaped, and a slot holds a payload exactly where its tag is occupied.
    pub open spec fn wf(&self) -> bool {
        &&& self.shaped()
        &&& forall|i: int|
            0 <= i < self.size ==> ((#[trigger] self.buckets@[i]) is Some <==> self.meta@[i] >= 0)
    }

    /// The thirty-two tags read from position `at` onward.
    pub open spec fn group(&self, at: int) -> Seq<i8> {
        self.meta@.subrange(at, at + 32)
    }

    /// Storage for at least `size` slots, every one of them empty: none at
    /// all for zero, else the next power of two.
    pub fn new(size: usize) -> (a: Self)
        requires
            size <= MAX_CAPACITY,
        ensures
            a.wf(),
            size == 0 ==> a.size == 0,
            size > 0 ==> is_pow2(a.size as int) && size <= a.size && (forall|q: int|
                is_pow2(q) && size <= q ==> a.size <= q),
            forall|i: int| 0 <= i < a.meta@.len() ==> a.meta@[i] == VACANT,
            forall|i: int| 0 <= i < a.size ==> a.buckets@[i] is None,
    {
        if size == 0 {
            return Alloc { meta: Vec::new(), buckets: Vec::new(), size: 0 };
        }
        let size: usize = next_power_of_two(size);
        proof {
            crate::power::lemma_max_capacity();
        }
        let mut meta: Vec<i8> = Vec::new();
        let mut buckets: Vec<Option<T>> = Vec::new();
        let mut i: usize = 0;
        while i < size + GROUP_SIZE
            invariant
                size + 32 <= usize::MAX,
                i <= size + 32,
                meta@.len() == i,
                forall|j: int| 0 <= j < i ==> meta@[j] == VACANT,
            decreases size + 32 - i,
        {
            meta.push(VACANT);
            i += 1;
        }
        let mut j: usize = 0;
        while j < size
            invariant
                j <= size,
                buckets@.len() == j,
                forall|k: int| 0 <= k < j ==> buckets@[k] is None,
            decreases size - j,
        {
            buckets.push(None);
            j += 1;
        }
        Alloc { meta, buckets, size }
    }

    /// The number of slots.
    pub fn size(&self) -> (n: usize)
        ensures
            n == self.size,
    {
        self.size
    }

    /// Empties every slot: each tag becomes the empty tag and each payload
    /// is dropped.
    pub fn clear(&mut self)
        requires
            old(self).shaped(),
        ensures
            final(self).wf(),
            final(self).size == old(self).size,
            forall|i: int| 0 <= i < final(self).meta@.len() ==> final(self).meta@[i] == VACANT,
            forall|i: int| 0 <= i < final(self).size ==> final(self).buckets@[i] is None,
    {
        let n: usize = self.meta.len();
        let mut i: usize = 0;
        while i < n
            invariant
                i <= n,
                n == self.meta@.len(),
                self.meta@.len() == old(self).meta@.len(),
                self.buckets == old(self).buckets,
                self.size == old(self).size,
                forall|j: int| 0 <= j < i ==> self.meta@[j] == VACANT,
            decreases n - i,
        {
            self.meta.set(i, VACANT);
            i += 1;
        }
        let m: usize = self.buckets.len();
        let mut j: usize = 0;
        while j < m
            invariant
                j <= m,
                m == self.buckets@.len(),
                self.buckets@.len() == old(self).buckets@.len(),
                self.meta@.len() == old(self).meta@.len(),
                self.size == old(self).size,
                forall|k: int| 0 <= k < self.meta@.len() ==> self.meta@[k] == VACANT,
                forall|k: int| 0 <= k < j ==> self.buckets@[k] is None,
            decreases m - j,
        {
            self.buckets.set(j, None);
            j += 1;
        }
    }

    /// A handle for writing the tag of slot `idx`, mirror included.
    pub fn get_meta(&mut self, idx: usize) -> (m: MetaMut<'_>)
        requires
            old(self).shaped(),
            idx < old(self).size,
        ensures
            m.tags@ == old(self).meta@,
            m.idx == idx,
            final(self).meta@ == final(m.tags)@,
            final(self).buckets == old(self).buckets,
            final(self).size == old(self).size,
    {
        MetaMut::new(&mut self.meta, idx)
    }

    /// A copy of the thirty-two tags from position `at` onward.
    pub fn load(&self, at: usize) -> (group: [i8; 32])
        requires
            at + 32 <= self.meta@.len(),
        ensures
            group@ == self.group(at as int),
    {
        let mut group: [i8; 32] = [VACANT; 32];
        let n: usize = self.meta.len();
        let mut k: usize = 0;
        while k < 32
            invariant
                k <= 32,
                at + 32 <= n,
                n == self.meta@.len(),
                forall|j: int| 0 <= j < k ==> group@[j] == self.meta@[at + j],
            decreases 32 - k,
        {
            group[k] = self.meta[at + k];
            k += 1;
        }
        assert(group@ =~= self.group(at as int));
        group
    }

    /// The slot at which a probe for `hash` begins: `hash` modulo the
    /// number of slots, and slot 0 in a table without slots.
    pub open spec fn home(&self, hash: u64) -> int {
        if self.size == 0 {
            0
        } else {
            hash as int % (self.size as int)
        }
    }

    /// The slot at which a probe for `hash` begins.
    pub fn index_of(&self, hash: u64) -> (index: usize)
        ensures
            index == self.home(hash),
            self.size > 0 ==> index < self.size,
    {
        if self.size == 0 {
            0
        } else {
            (hash % (self.size as u64)) as usize
        }
    }

    /// Begins to take every payload out of the storage.
    pub fn drain(self) -> (d: Drain<T>)
        requires
            self.wf(),
        ensures
            d.inv(),
            d.alloc == self,
            d.position() == 0,
    {
        Drain::new(self)
    }

    /// A probe for `hash` that borrows the storage.
    pub fn find<F: Finder, C: Controller>(
        &self,
        hash: u64,
        finder: F,
        controller: C,
    ) -> (s: Find<'_, T, F, C>)
        requires
            self.shaped(),
        ensures
            s.alloc == self,
            s.inner.inv(self),
            s.inner.base@ == self.home(hash),
            s.inner.scanned@ == 0,
            s.inner.cursor@ == 0,
            s.inner.finder == finder,
            s.inner.controller.1 == controller,
    {
        let index: usize = self.index_of(hash);
        Find::new(self, index, finder, controller)
    }

    /// A probe for `hash` that borrows nothing.
    pub fn find_ref<F: Finder, C: Controller>(
        &self,
        hash: u64,
        finder: F,
        controller: C,
    ) -> (s: FindRef<T, F, C>)
        requires
            self.shaped(),
        ensures
            s.inner.inv(self),
            s.inner.base@ == self.home(hash),
            s.inner.scanned@ == 0,
            s.inner.cursor@ == 0,
            s.inner.finder == finder,
            s.inner.controller.1 == controller,
    {
        let index: usize = self.index_of(hash);
        FindRef::new(self, index, finder, controller)
    }
}

} // verus!
