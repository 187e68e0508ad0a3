//! Draining a map: handing out every entry and leaving the map empty.

use vstd::prelude::*;
use crate::power::lemma_max_capacity;
use crate::storage::drain::{lemma_payloads_count, payloads, Drain as Slots};
use crate::storage::Alloc;
use crate::table::Table;

verus! {

/// The entries taken out of a map, handed out one by one in the order of
/// their slots. The map they came from is empty from the moment they were
/// taken.
pub struct Drain<K, V> {
    pub drain: Slots<(K, V)>,
    pub len: usize,
}

impl<K, V> Drain<K, V> {
    /// The entries still to be handed out, in the order in which they will
    /// be.
    pub open spec fn rest(&self) -> Seq<(K, V)> {
        self.drain.rest()
    }

    /// The storage is being emptied in order, and `len` counts what is
    /// left.
    pub open spec fn inv(&self) -> bool {
        &&& self.drain.inv()
        &&& self.len == self.rest().len()
    }

    /// The next entry, or none once all have been handed out.
    pub fn next(&mut self) -> (r: Option<(K, V)>)
        requires
            old(self).inv(),
        ensures
            final(self).inv(),
            r == (if old(self).rest().len() > 0 {
                Some(old(self).rest()[0])
            } else {
                None
            }),
            final(self).rest() == (if old(self).rest().len() > 0 {
                old(self).rest().drop_first()
            } else {
                old(self).rest()
            }),
    {
        let r = self.drain.next();
        if r.is_some() {
            self.len = self.len - 1;
        }
        r
    }

    /// The number of entries still to be handed out.
    pub fn len(&self) -> (n: usize)
        ensures
            n == self.len,
    {
        self.len
    }

    /// The bounds on the number of entries still to come: both are that
    /// number.
    pub fn size_hint(&self) -> (hint: (usize, Option<usize>))
        ensures
            hint == (self.len, Some(self.len)),
    {
        let len: usize = self.len();
        (len, Some(len))
    }
}

impl<K, V> Table<K, V> {
    /// The entries of the table, in the order of their slots.
    pub open spec fn entries(&self) -> Seq<(K, V)> {
        payloads(self.alloc.buckets@, 0)
    }

    /// Takes every entry out of the table, which is blank from then on and
    /// keeps its capacity.
    pub fn drain(&mut self) -> (d: Drain<K, V>)
        requires
            old(self).wf(),
        ensures
            final(self).wf(),
            final(self).blank(),
            final(self).size() == old(self).size(),
            final(self)@ == Map::<K, V>::empty(),
            d.inv(),
            d.rest() == old(self).entries(),
            d.len == old(self).len,
    {
        let size: usize = self.alloc.size();
        let len: usize = self.len;
        proof {
            lemma_max_capacity();
            lemma_payloads_count(&self.alloc, 0);
        }
        let mut stale: Alloc<(K, V)> = Alloc::new(size);
        core::mem::swap(&mut self.alloc, &mut stale);
        self.len = 0;
        self.deleted = 0;
        self.filed = Ghost(Seq::new(size as nat, |i: int| 0u64));
        proof {
            crate::count::lemma_none(self.alloc.meta@, self.size());
            self.lemma_blank();
        }
        Drain { drain: Slots::new(stale), len }
    }
}

} // verus!
