//! Counting the occupied slots and the tombstones of a tag array.

use vstd::prelude::*;
use crate::meta::DELETED;

verus! {

/// The number of occupied tags among the first `n`.
pub open spec fn occupied_below(tags: Seq<i8>, n: int) -> int
    decreases n,
{
    if n <= 0 {
        0
    } else {
        occupied_below(tags, n - 1) + if tags[n - 1] >= 0 {
            1int
        } else {
            0int
        }
    }
}

/// The number of tombstones among the first `n` tags.
pub open spec fn deleted_below(tags: Seq<i8>, n: int) -> int
    decreases n,
{
    if n <= 0 {
        0
    } else {
        deleted_below(tags, n - 1) + if tags[n - 1] == DELETED {
            1int
        } else {
            0int
        }
    }
}

/// Occupied slots and tombstones together never outnumber the slots
/// counted, and neither count falls as more slots are counted.
pub proof fn lemma_bounds(tags: Seq<i8>, m: int, n: int)
    requires
        0 <= m <= n,
    ensures
        0 <= occupied_below(tags, m) <= occupied_below(tags, n),
        0 <= deleted_below(tags, m) <= deleted_below(tags, n),
        occupied_below(tags, n) + deleted_below(tags, n) <= n,
    decreases n,
{
    if n > 0 {
        if m < n {
            lemma_bounds(tags, m, n - 1);
        } else {
            lemma_bounds(tags, m - 1, n - 1);
        }
    }
}

/// Tag arrays that agree on their first `n` tags have the same counts there.
pub proof fn lemma_agree(a: Seq<i8>, b: Seq<i8>, n: int)
    requires
        forall|i: int| 0 <= i < n ==> a[i] == b[i],
    ensures
        occupied_below(a, n) == occupied_below(b, n),
        deleted_below(a, n) == deleted_below(b, n),
    decreases n,
{
    if n > 0 {
        lemma_agree(a, b, n - 1);
    }
}

/// Writing one tag changes each count by what the new tag adds and the old
/// tag took.
pub proof fn lemma_update(tags: Seq<i8>, n: int, i: int, tag: i8)
    requires
        0 <= i < n <= tags.len(),
    ensures
        occupied_below(tags.update(i, tag), n) == occupied_below(tags, n) + (if tag >= 0 {
            1int
        } else {
            0int
        }) - (if tags[i] >= 0 {
            1int
        } else {
            0int
        }),
        deleted_below(tags.update(i, tag), n) == deleted_below(tags, n) + (if tag == DELETED {
            1int
        } else {
            0int
        }) - (if tags[i] == DELETED {
            1int
        } else {
            0int
        }),
    decreases n,
{
    if i == n - 1 {
        lemma_agree(tags, tags.update(i, tag), n - 1);
    } else {
        lemma_update(tags, n - 1, i, tag);
    }
}

/// Where fewer than `n` of the first `n` slots are occupied, one of them is
/// free.
pub proof fn lemma_free_slot(tags: Seq<i8>, n: int) -> (i: int)
    requires
        0 <= n,
        occupied_below(tags, n) < n,
    ensures
        0 <= i < n,
        tags[i] < 0,
    decreases n,
{
    if tags[n - 1] < 0 {
        n - 1
    } else {
        lemma_free_slot(tags, n - 1)
    }
}

/// Where none of the first `n` tags is occupied or a tombstone, both counts
/// are zero.
pub proof fn lemma_none(tags: Seq<i8>, n: int)
    requires
        forall|i: int| 0 <= i < n ==> !(tags[i] >= 0) && tags[i] != DELETED,
    ensures
        occupied_below(tags, n) == 0,
        deleted_below(tags, n) == 0,
    decreases n,
{
    if n > 0 {
        lemma_none(tags, n - 1);
    }
}

} // verus!
