//! Branch hints: each hands its argument back unchanged, and tells the
//! compiler which way the branch is expected to go.

use vstd::prelude::*;

verus! {

/// Marks the path on which it is called as the rare one.
#[inline(never)]
fn cold() {
}

/// `b`, expected to be true.
#[inline(always)]
pub fn likely(b: bool) -> (r: bool)
    ensures
        r == b,
{
    !unlikely(!b)
}

/// `b`, expected to be false.
#[inline(always)]
pub fn unlikely(b: bool) -> (r: bool)
    ensures
        r == b,
{
    if b {
        cold()
    }
    b
}

} // verus!
