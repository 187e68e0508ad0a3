//! Taking every payload out of a storage, in the order of the slots.

use vstd::prelude::*;
use crate::controller::Never;
use crate::find::FindRef;
use crate::finder::Occupied;
use crate::storage::Alloc;

verus! {

/// The payloads that `buckets` holds from slot `from` onward, in the order
/// of the slots.
pub open spec fn payloads<T>(buckets: Seq<Option<T>>, from: int) -> Seq<T>
    decreases buckets.len() - from,
{
    if from < 0 || from >= buckets.len() {
        Seq::empty()
    } else if buckets[from] is Some {
        seq![buckets[from].unwrap()] + payloads(buckets, from + 1)
    } else {
        payloads(buckets, from + 1)
    }
}

/// Slots that hold nothing add nothing to the payloads.
pub proof fn lemma_payloads_skip<T>(buckets: Seq<Option<T>>, from: int, to: int)
    requires
        0 <= from <= to <= buckets.len(),
        forall|j: int| from <= j < to ==> buckets[j] is None,
    ensures
        payloads(buckets, from) == payloads(buckets, to),
    decreases to - from,
{
    if from < to {
        lemma_payloads_skip(buckets, from + 1, to);
    }
}

/// What a slot holds does not matter to the payloads from a later slot
/// onward.
pub proof fn lemma_payloads_after<T>(buckets: Seq<Option<T>>, i: int, x: Option<T>, from: int)
    requires
        0 <= i < from,
        i < buckets.len(),
    ensures
        payloads(buckets.update(i, x), from) == payloads(buckets, from),
    decreases buckets.len() - from,
{
    if from < buckets.len() {
        lemma_payloads_after(buckets, i, x, from + 1);
    }
}

/// In a well-formed storage there are as many payloads from a slot onward
/// as occupied tags.
pub proof fn lemma_payloads_count<T>(alloc: &Alloc<T>, from: int)
    requires
        alloc.wf(),
        0 <= from <= alloc.size,
    ensures
        payloads(alloc.buckets@, from).len() == crate::count::occupied_below(
            alloc.meta@,
            alloc.size as int,
        ) - crate::count::occupied_below(alloc.meta@, from),
    decreases alloc.size - from,
{
    if from < alloc.size {
        lemma_payloads_count(alloc, from + 1);
        assert(alloc.buckets@[from] is Some <==> alloc.meta@[from] >= 0);
    }
}

/// A storage that is being emptied. It owns the storage, whose tags it
/// leaves as they were: the payloads of the occupied slots from `position`
/// onward are still there, the others have been handed out.
pub struct Drain<T> {
    pub alloc: Alloc<T>,
    pub inner: FindRef<T, Occupied, Never>,
}

impl<T> Drain<T> {
    /// The payloads still to be handed out, in the order in which they will
    /// be.
    pub open spec fn rest(&self) -> Seq<T> {
        payloads(self.alloc.buckets@, 0)
    }

    /// The slot from which the payloads are still in place.
    pub open spec fn position(&self) -> int {
        self.inner.inner.cursor@
    }

    /// The probe walks the storage from slot 0, and a slot holds a payload
    /// exactly where it is occupied and not yet passed.
    pub open spec fn inv(&self) -> bool {
        &&& self.alloc.shaped()
        &&& self.inner.inner.inv(&self.alloc)
        &&& self.alloc.size > 0 ==> self.inner.inner.base@ == 0
        &&& 0 <= self.position()
        &&& forall|i: int|
            0 <= i < self.alloc.size ==> ((#[trigger] self.alloc.buckets@[i]) is Some <==> (
            self.alloc.meta@[i] >= 0 && i >= self.position()))
    }

    /// Begins to empty `alloc`.
    pub fn new(alloc: Alloc<T>) -> (d: Self)
        requires
            alloc.wf(),
        ensures
            d.inv(),
            d.alloc == alloc,
            d.position() == 0,
            d.rest() == payloads(alloc.buckets@, 0),
    {
        let inner = alloc.find_ref(0, Occupied, Never);
        Drain { inner, alloc }
    }

    /// The payload of the next occupied slot, or none once every slot has
    /// been passed.
    pub fn next(&mut self) -> (r: Option<T>)
        requires
            old(self).inv(),
        ensures
            final(self).inv(),
            final(self).alloc.meta@ == old(self).alloc.meta@,
            final(self).alloc.size == old(self).alloc.size,
            old(self).position() <= final(self).position(),
            r == (if old(self).rest().len() > 0 {
                Some(old(self).rest()[0])
            } else {
                None
            }),
            final(self).rest() == (if old(self).rest().len() > 0 {
                old(self).rest().drop_first()
            } else {
                old(self).rest()
            }),
            match r {
                Some(t) => {
                    let i = final(self).position() - 1;
                    &&& old(self).position() <= i < old(self).alloc.size
                    &&& old(self).alloc.buckets@[i] == Some(t)
                    &&& forall|j: int|
                        old(self).position() <= j < i ==> old(self).alloc.meta@[j] < 0
                    &&& final(self).alloc.buckets@ == old(self).alloc.buckets@.update(i, None)
                },
                None => {
                    &&& final(self).alloc.buckets@ == old(self).alloc.buckets@
                    &&& final(self).position() >= old(self).alloc.size
                    &&& forall|j: int|
                        old(self).position() <= j < old(self).alloc.size ==> old(self).alloc.meta@[j] < 0
                },
            },
    {
        let ghost size = self.alloc.size as int;
        let ghost before = *self;
        let found: Option<usize> = self.inner.next(&self.alloc);
        proof {
            if size >= 32 {
                crate::power::lemma_groups(size);
                crate::path::lemma_round(size);
            }
            assert forall|c: int| 0 <= c < size implies (#[trigger] self.inner.inner.wanted(
                &self.alloc,
                c,
            ) <==> self.alloc.meta@[c] >= 0) by {
                vstd::arithmetic::div_mod::lemma_small_mod(c as nat, size as nat);
                if size < 32 {
                    vstd::arithmetic::div_mod::lemma_small_mod(c as nat, 32);
                }
            }
        }
        match found {
            Some(idx) => {
                proof {
                    let c = self.inner.inner.cursor@ - 1;
                    if size < 32 {
                        vstd::arithmetic::div_mod::lemma_small_mod(c as nat, 32);
                    }
                    vstd::arithmetic::div_mod::lemma_small_mod(c as nat, size as nat);
                    assert(idx == c);
                    assert forall|j: int| before.position() <= j < c implies before.alloc.meta@[j]
                        < 0 by {
                        assert(!self.inner.inner.wanted(&self.alloc, j));
                    }
                    let held = before.alloc.buckets@;
                    lemma_payloads_skip(held, 0, c);
                    lemma_payloads_skip(held.update(c, None), 0, c + 1);
                    lemma_payloads_after(held, c, None, c + 1);
                    assert(payloads(held, c).drop_first() =~= payloads(held, c + 1));
                }
                self.alloc.buckets[idx].take()
            },
            None => {
                proof {
                    assert forall|j: int|
                        before.position() <= j < size implies before.alloc.meta@[j] < 0 by {
                        assert(!self.inner.inner.wanted(&self.alloc, j));
                    }
                    lemma_payloads_skip(before.alloc.buckets@, 0, size);
                }
                None
            },
        }
    }
}

} // verus!
