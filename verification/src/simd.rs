//! Thirty-two signed bytes compared at once, through the `wide` crate.
//!
//! Nothing in this file is proved: each function states what the outside call
//! does, lane by lane, as the outside crate documents it.

use vstd::prelude::*;
use crate::mask::bit;

verus! {

/// `wide::i8x32`, a vector of thirty-two signed bytes, carried as an opaque
/// value.
#[verifier::external_type_specification]
#[verifier::external_body]
pub struct ExI8x32(wide::i8x32);

/// The thirty-two lanes of a vector, lowest lane first.
pub uninterp spec fn lanes(v: wide::i8x32) -> Seq<i8>;

/// Whether every lane is all zeros (`0`) or all ones (`-1`): the form in which
/// `wide` hands out lane-wise truth values.
pub open spec fn is_truth(v: wide::i8x32) -> bool {
    forall|k: int| 0 <= k < 32 ==> (#[trigger] lanes(v)[k]) == 0 || lanes(v)[k] == -1
}

/// `wide::i8x32::new`: the vector whose lanes are the elements of `group`, in
/// order.
#[verifier::external_body]
pub(crate) fn load(group: &[i8; 32]) -> (v: wide::i8x32)
    ensures
        lanes(v) == group@,
{
    wide::i8x32::new(*group)
}

/// `wide::i8x32::splat`: the vector whose thirty-two lanes all hold `tag`.
#[verifier::external_body]
pub(crate) fn splat(tag: i8) -> (v: wide::i8x32)
    ensures
        lanes(v).len() == 32,
        forall|k: int| 0 <= k < 32 ==> (#[trigger] lanes(v)[k]) == tag,
{
    wide::i8x32::splat(tag)
}

/// `wide::i8x32::simd_eq`: lane by lane, all ones where the two vectors hold
/// the same byte and all zeros where they differ.
#[verifier::external_body]
pub(crate) fn lanes_eq(a: wide::i8x32, b: wide::i8x32) -> (m: wide::i8x32)
    ensures
        lanes(m).len() == 32,
        forall|k: int|
            0 <= k < 32 ==> (#[trigger] lanes(m)[k]) == (if lanes(a)[k] == lanes(b)[k] {
                -1i8
            } else {
                0i8
            }),
{
    a.simd_eq(b)
}

/// `wide::i8x32::is_negative`: lane by lane, all ones where the byte is below
/// zero and all zeros elsewhere.
#[verifier::external_body]
pub(crate) fn lanes_negative(a: wide::i8x32) -> (m: wide::i8x32)
    ensures
        lanes(m).len() == 32,
        forall|k: int|
            0 <= k < 32 ==> (#[trigger] lanes(m)[k]) == (if lanes(a)[k] < 0 {
                -1i8
            } else {
                0i8
            }),
{
    a.is_negative()
}

/// `wide::i8x32::to_bitmask`: for a vector of lane-wise truth values, the
/// integer whose bit `k` is set exactly where lane `k` is all ones. Of any
/// other vector the outside crate promises nothing, and neither does this.
#[verifier::external_body]
pub(crate) fn to_bitmask(m: wide::i8x32) -> (r: u32)
    ensures
        is_truth(m) ==> forall|k: int| 0 <= k < 32 ==> #[trigger] bit(r, k) == (lanes(m)[k] == -1),
{
    m.to_bitmask()
}

} // verus!
