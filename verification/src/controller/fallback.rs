//! The stop-on-empty controller that looks at one tag at a time, for
//! machines without the wide comparison.

use vstd::prelude::*;
use crate::controller::{has_vacancy, Controller};
use crate::meta::VACANT;

verus! {

/// Ends the probe at the first group that holds an empty tag.
#[derive(Clone, Debug)]
pub struct Vacancy;

impl Controller for Vacancy {
    open spec fn halts(&self, group: Seq<i8>) -> bool {
        has_vacancy(group)
    }

    open spec fn after(&self, group: Seq<i8>) -> Self {
        Vacancy
    }

    fn finished(&mut self, group: &[i8; 32]) -> (done: bool) {
        let mut finished: bool = false;
        let mut i: usize = 0;
        while i < 32
            invariant
                i <= 32,
                finished <==> exists|k: int| 0 <= k < i && #[trigger] group@[k] == VACANT,
            decreases 32 - i,
        {
            if group[i] == VACANT {
                finished = true;
            }
            i += 1;
        }
        finished
    }
}

} // verus!
