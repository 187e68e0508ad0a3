//! Group scanners: each turns one group of thirty-two tags into the mask of
//! the lanes it is looking for.

use vstd::prelude::*;
use crate::mask::{bit, lemma_full, lemma_not, lemma_or};
use crate::simd::{lanes_eq, lanes_negative, load, splat, to_bitmask};

pub mod fallback;

verus! {

/// A predicate on tags, answered for a whole group at a time.
pub trait Finder {
    /// Whether a slot that carries `tag` is one this scanner looks for.
    spec fn wants(&self, tag: i8) -> bool;

    /// The mask whose lane `k` is set exactly where `group[k]` is wanted.
    /// Scanning does not change what the scanner looks for.
    fn find(&mut self, group: &[i8; 32]) -> (found: u32)
        ensures
            forall|k: int| 0 <= k < 32 ==> #[trigger] bit(found, k) == old(self).wants(group@[k]),
            forall|t: i8| #[trigger] final(self).wants(t) == old(self).wants(t),
    ;
}

/// Looks for every slot, whatever its tag.
pub struct Any;

impl Finder for Any {
    open spec fn wants(&self, tag: i8) -> bool {
        true
    }

    fn find(&mut self, _group: &[i8; 32]) -> (found: u32) {
        proof {
            lemma_full();
        }
        u32::MAX
    }
}

/// Looks for what either of two scanners looks for. Both are always run.
pub struct Either<T, U>(pub T, pub U);

impl<T: Finder, U: Finder> Finder for Either<T, U> {
    open spec fn wants(&self, tag: i8) -> bool {
        self.0.wants(tag) || self.1.wants(tag)
    }

    fn find(&mut self, group: &[i8; 32]) -> (found: u32) {
        let a: u32 = self.0.find(group);
        let b: u32 = self.1.find(group);
        proof {
            lemma_or(a, b);
        }
        a | b
    }
}

/// Looks for the slots that carry exactly one tag.
pub struct Match {
    pub meta: i8,
}

impl Finder for Match {
    open spec fn wants(&self, tag: i8) -> bool {
        tag == self.meta
    }

    fn find(&mut self, group: &[i8; 32]) -> (found: u32) {
        let same = lanes_eq(load(group), splat(self.meta));
        to_bitmask(same)
    }
}

/// Looks for the occupied slots: those whose tag has its high bit clear.
pub struct Occupied;

impl Finder for Occupied {
    open spec fn wants(&self, tag: i8) -> bool {
        tag >= 0
    }

    fn find(&mut self, group: &[i8; 32]) -> (found: u32) {
        let below = lanes_negative(load(group));
        let vacant: u32 = to_bitmask(below);
        proof {
            lemma_not(vacant);
        }
        !vacant
    }
}

/// Looks for the slots that can take a new entry: empty ones and tombstones.
pub struct Insertable;

impl Finder for Insertable {
    open spec fn wants(&self, tag: i8) -> bool {
        tag < 0
    }

    fn find(&mut self, group: &[i8; 32]) -> (found: u32) {
        let mut occupied = Occupied { };
        let taken: u32 = occupied.find(group);
        proof {
            lemma_not(taken);
        }
        !taken
    }
}

} // verus!
