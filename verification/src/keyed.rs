//! What a table asks of the equality of its keys.

use vstd::prelude::*;
use vstd::std_specs::cmp::PartialEqSpec;

verus! {

/// Whether `==` on `K` is the equality of values: it is specified, and it
/// holds of two keys exactly when they are the same key.
pub open spec fn eq_is_identity<K: PartialEq>() -> bool {
    &&& K::obeys_eq_spec()
    &&& forall|a: K, b: K| #[trigger] a.eq_spec(&b) <==> a == b
}

/// Whether `stored == key`.
pub fn same_key<K: PartialEq>(stored: &K, key: &K) -> (same: bool)
    ensures
        eq_is_identity::<K>() ==> same == (*stored == *key),
{
    stored == key
}

} // verus!
