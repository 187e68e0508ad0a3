//! Termination controllers: each is shown every group a probe scans and says
//! whether the probe is complete once that group has been reported.

use vstd::prelude::*;
use crate::mask::{bit, lemma_zero_mask};
use crate::meta::VACANT;
use crate::simd::{lanes_eq, load, splat, to_bitmask};

pub mod fallback;

verus! {

/// Number of tags that one group holds.
pub const GROUP_SIZE: usize = 32;

/// Whether one of the thirty-two tags of `group` is the empty tag.
pub open spec fn has_vacancy(group: Seq<i8>) -> bool {
    exists|k: int| 0 <= k < 32 && #[trigger] group[k] == VACANT
}

/// A rule that ends a probe.
pub trait Controller: Sized {
    /// Whether the controller, as it stands, calls the probe complete after
    /// `group`.
    spec fn halts(&self, group: Seq<i8>) -> bool;

    /// The controller as it stands after it has been shown `group`.
    spec fn after(&self, group: Seq<i8>) -> Self;

    /// Shows the controller the group just scanned.
    fn finished(&mut self, group: &[i8; 32]) -> (done: bool)
        ensures
            done == old(self).halts(group@),
            *final(self) == old(self).after(group@),
    ;
}

/// Ends the probe as soon as either of two controllers does. Both are shown
/// every group, so that neither loses count.
#[derive(Clone, Debug)]
pub struct Either<T, U>(pub T, pub U);

impl<T: Controller, U: Controller> Controller for Either<T, U> {
    open spec fn halts(&self, group: Seq<i8>) -> bool {
        self.0.halts(group) || self.1.halts(group)
    }

    open spec fn after(&self, group: Seq<i8>) -> Self {
        Either(self.0.after(group), self.1.after(group))
    }

    fn finished(&mut self, group: &[i8; 32]) -> (done: bool) {
        let first: bool = self.0.finished(group);
        let second: bool = self.1.finished(group);
        first || second
    }
}

/// Ends the probe once fewer than a group's worth of slots is left of a
/// budget, which every group shown lowers by thirty-two.
#[derive(Clone, Debug)]
pub struct Count(pub usize);

impl Count {
    /// What is left of a budget of `n` slots after one more group.
    pub open spec fn lowered(n: usize) -> usize {
        if n >= 32 {
            (n - 32) as usize
        } else {
            0
        }
    }
}

impl Controller for Count {
    open spec fn halts(&self, group: Seq<i8>) -> bool {
        Count::lowered(self.0) < 32
    }

    open spec fn after(&self, group: Seq<i8>) -> Self {
        Count(Count::lowered(self.0))
    }

    fn finished(&mut self, group: &[i8; 32]) -> (done: bool) {
        self.0 = self.0.saturating_sub(GROUP_SIZE);
        self.0 < GROUP_SIZE
    }
}

/// Ends the probe at the first group that holds an empty tag.
#[derive(Clone, Debug)]
pub struct Vacancy;

impl Controller for Vacancy {
    open spec fn halts(&self, group: Seq<i8>) -> bool {
        has_vacancy(group)
    }

    open spec fn after(&self, group: Seq<i8>) -> Self {
        Vacancy
    }

    fn finished(&mut self, group: &[i8; 32]) -> (done: bool) {
        let same = lanes_eq(load(group), splat(VACANT));
        let empties: u32 = to_bitmask(same);
        proof {
            lemma_zero_mask(empties);
            if empties != 0 {
                let k = choose|k: int| bit(empties, k);
                assert(group@[k] == VACANT);
            } else {
                assert forall|k: int| 0 <= k < 32 implies #[trigger] group@[k] != VACANT by {
                    assert(!bit(empties, k));
                }
            }
        }
        empties != 0
    }
}

impl Default for Vacancy {
    fn default() -> (v: Self)
        ensures
            v == Vacancy,
    {
        Vacancy
    }
}

/// Never ends the probe.
pub struct Never;

impl Controller for Never {
    open spec fn halts(&self, group: Seq<i8>) -> bool {
        false
    }

    open spec fn after(&self, group: Seq<i8>) -> Self {
        Never
    }

    fn finished(&mut self, _group: &[i8; 32]) -> (done: bool) {
        false
    }
}

} // verus!
