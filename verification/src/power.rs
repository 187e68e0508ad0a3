//! Powers of two: the only capacities a table ever has, besides zero.

use vstd::prelude::*;

verus! {

/// Whether `n` is a power of two.
pub open spec fn is_pow2(n: int) -> bool
    decreases n,
{
    if n <= 0 {
        false
    } else if n == 1 {
        true
    } else {
        n % 2 == 0 && is_pow2(n / 2)
    }
}

/// The largest capacity a table may have: a quarter of the address space.
pub const MAX_CAPACITY: usize = usize::MAX / 4 + 1;

/// Twice a power of two is a power of two.
pub proof fn lemma_double(n: int)
    requires
        is_pow2(n),
    ensures
        is_pow2(2 * n),
{
    assert((2 * n) / 2 == n);
}

/// Of two powers of two, the smaller is at most half the larger.
pub proof fn lemma_gap(p: int, b: int)
    requires
        is_pow2(p),
        is_pow2(b),
        p < b,
    ensures
        2 * p <= b,
    decreases b,
{
    if p > 1 {
        lemma_gap(p / 2, b / 2);
    }
}

/// A power of two that is at least 32 is a multiple of 32.
pub proof fn lemma_groups(n: int)
    requires
        is_pow2(n),
        n >= 32,
    ensures
        n % 32 == 0,
{
    reveal_with_fuel(is_pow2, 6);
}

/// A power of two that is below 32 is one of 1, 2, 4, 8 and 16.
pub proof fn lemma_small(n: int)
    requires
        is_pow2(n),
        n < 32,
    ensures
        n == 1 || n == 2 || n == 4 || n == 8 || n == 16,
{
    reveal_with_fuel(is_pow2, 6);
}

/// The largest capacity is itself a power of two.
pub proof fn lemma_max_capacity()
    ensures
        is_pow2(MAX_CAPACITY as int),
        MAX_CAPACITY >= 64,
        2 * MAX_CAPACITY + 32 <= usize::MAX,
{
    reveal_with_fuel(is_pow2, 64);
    if usize::BITS == 32 {
        assert(MAX_CAPACITY == 0x4000_0000);
        assert(is_pow2(0x4000_0000));
    } else {
        assert(usize::BITS == 64);
        assert(MAX_CAPACITY == 0x4000_0000_0000_0000);
        assert(is_pow2(0x4000_0000_0000_0000));
    }
}

/// The smallest power of two that is at least `n`; 1 for `n == 0`.
pub fn next_power_of_two(n: usize) -> (p: usize)
    requires
        n <= MAX_CAPACITY,
    ensures
        is_pow2(p as int),
        n <= p <= MAX_CAPACITY,
        forall|q: int| is_pow2(q) && n <= q ==> p <= q,
{
    let mut p: usize = 1;
    proof {
        lemma_max_capacity();
    }
    while p < n
        invariant
            is_pow2(p as int),
            p <= MAX_CAPACITY,
            n <= MAX_CAPACITY,
            is_pow2(MAX_CAPACITY as int),
            2 * MAX_CAPACITY + 32 <= usize::MAX,
            forall|q: int| is_pow2(q) && n <= q ==> p <= q,
        decreases MAX_CAPACITY - p,
    {
        proof {
            lemma_gap(p as int, MAX_CAPACITY as int);
            lemma_double(p as int);
            assert forall|q: int| is_pow2(q) && n <= q implies 2 * p <= q by {
                lemma_gap(p as int, q);
            }
        }
        p = p * 2;
    }
    p
}

} // verus!
