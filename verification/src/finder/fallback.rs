//! Group scanners that look at one tag at a time, for machines without the
//! wide comparison.

use vstd::prelude::*;
use crate::finder::Finder;
use crate::mask::{bit, lemma_zero_mask, with};

verus! {

/// Looks for the slots that carry exactly one tag.
pub struct Match {
    pub meta: i8,
}

impl Finder for Match {
    open spec fn wants(&self, tag: i8) -> bool {
        tag == self.meta
    }

    fn find(&mut self, group: &[i8; 32]) -> (found: u32) {
        let mut found: u32 = 0;
        proof {
            lemma_zero_mask(found);
        }
        let mut i: usize = 0;
        while i < 32
            invariant
                i <= 32,
                forall|k: int| #[trigger] bit(found, k) == (0 <= k < i && group@[k] == self.meta),
            decreases 32 - i,
        {
            if group[i] == self.meta {
                found = with(found, i);
            }
            i += 1;
        }
        found
    }
}

/// Looks for the occupied slots: those whose tag has its high bit clear.
pub struct Occupied;

impl Finder for Occupied {
    open spec fn wants(&self, tag: i8) -> bool {
        tag >= 0
    }

    fn find(&mut self, group: &[i8; 32]) -> (found: u32) {
        let mut found: u32 = 0;
        proof {
            lemma_zero_mask(found);
        }
        let mut i: usize = 0;
        while i < 32
            invariant
                i <= 32,
                forall|k: int| #[trigger] bit(found, k) == (0 <= k < i && group@[k] >= 0),
            decreases 32 - i,
        {
            if crate::meta::is_occupied(group[i]) {
                found = with(found, i);
            }
            i += 1;
        }
        found
    }
}

} // verus!
