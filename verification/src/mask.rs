//! Thirty-two-lane bitmasks: bit `k` of a mask stands for lane `k` of a group.

use vstd::prelude::*;

verus! {

/// Whether lane `k` is set in `m`. No lane outside `0..32` is ever set.
pub open spec fn bit(m: u32, k: int) -> bool {
    0 <= k < 32 && (m >> (k as u32)) & 1u32 == 1u32
}

/// A mask with no lane set is zero, and zero has no lane set.
pub proof fn lemma_zero_mask(m: u32)
    ensures
        m == 0 <==> (forall|k: int| !#[trigger] bit(m, k)),
{
    if m == 0 {
        assert forall|k: int| !#[trigger] bit(m, k) by {
            if 0 <= k < 32 {
                let s: u32 = k as u32;
                assert((0u32 >> s) & 1u32 == 0u32) by (bit_vector);
            }
        }
    } else {
        vstd::std_specs::bits::axiom_u32_trailing_zeros(m);
        let t: u32 = vstd::std_specs::bits::u32_trailing_zeros(m);
        assert(bit(m, t as int));
    }
}

/// The lowest lane set in a non-zero mask.
pub fn lowest(m: u32) -> (k: usize)
    requires
        m != 0,
    ensures
        bit(m, k as int),
        forall|j: int| 0 <= j < k ==> !#[trigger] bit(m, j),
{
    let t: u32 = m.trailing_zeros();
    proof {
        vstd::std_specs::bits::axiom_u32_trailing_zeros(m);
        assert forall|j: int| 0 <= j < t implies !#[trigger] bit(m, j) by {
            let s: u32 = j as u32;
            assert((m >> s) & 1u32 == 0u32);
        }
    }
    t as usize
}

/// `m` with lane `k` cleared.
pub fn without(m: u32, k: usize) -> (r: u32)
    requires
        bit(m, k as int),
    ensures
        forall|j: int| #[trigger] bit(r, j) == (bit(m, j) && j != k),
{
    let s: u32 = k as u32;
    let r: u32 = m ^ (1u32 << s);
    proof {
        assert forall|j: int| #[trigger] bit(r, j) == (bit(m, j) && j != k) by {
            if 0 <= j < 32 {
                let t: u32 = j as u32;
                assert(((r >> t) & 1u32 == 1u32) == ((m >> t) & 1u32 == 1u32 && t != s))
                    by (bit_vector)
                    requires
                        s < 32,
                        t < 32,
                        (m >> s) & 1u32 == 1u32,
                        r == m ^ (1u32 << s),
                ;
            }
        }
    }
    r
}

/// `m` with lane `k` set.
pub fn with(m: u32, k: usize) -> (r: u32)
    requires
        k < 32,
    ensures
        forall|j: int| #[trigger] bit(r, j) == (bit(m, j) || j == k),
{
    let s: u32 = k as u32;
    let r: u32 = m | (1u32 << s);
    proof {
        assert forall|j: int| #[trigger] bit(r, j) == (bit(m, j) || j == k) by {
            if 0 <= j < 32 {
                let t: u32 = j as u32;
                assert(((r >> t) & 1u32 == 1u32) == ((m >> t) & 1u32 == 1u32 || t == s))
                    by (bit_vector)
                    requires
                        s < 32,
                        t < 32,
                        r == m | (1u32 << s),
                ;
            }
        }
    }
    r
}

/// The mask of the first `n` lanes, all thirty-two once `n` reaches 32.
pub fn low_lanes(n: usize) -> (r: u32)
    ensures
        forall|j: int| #[trigger] bit(r, j) == (0 <= j < 32 && j < n),
{
    if n < 32 {
        let s: u32 = n as u32;
        let one: u32 = 1u32 << s;
        assert(one >= 1) by (bit_vector)
            requires
                s < 32,
                one == 1u32 << s,
        ;
        let r: u32 = one - 1;
        proof {
            assert forall|j: int| #[trigger] bit(r, j) == (0 <= j < 32 && j < n) by {
                if 0 <= j < 32 {
                    let t: u32 = j as u32;
                    assert(((r >> t) & 1u32 == 1u32) == (t < s)) by (bit_vector)
                        requires
                            s < 32,
                            t < 32,
                            r == ((1u32 << s) - 1) as u32,
                    ;
                }
            }
        }
        r
    } else {
        let r: u32 = u32::MAX;
        proof {
            assert forall|j: int| #[trigger] bit(r, j) == (0 <= j < 32 && j < n) by {
                if 0 <= j < 32 {
                    let t: u32 = j as u32;
                    assert((0xffff_ffffu32 >> t) & 1u32 == 1u32) by (bit_vector)
                        requires
                            t < 32,
                    ;
                }
            }
        }
        r
    }
}

/// Lane by lane, `a & b` is the conjunction of `a` and `b`.
pub proof fn lemma_and(a: u32, b: u32)
    ensures
        forall|j: int| #[trigger] bit(a & b, j) == (bit(a, j) && bit(b, j)),
{
    assert forall|j: int| #[trigger] bit(a & b, j) == (bit(a, j) && bit(b, j)) by {
        if 0 <= j < 32 {
            let t: u32 = j as u32;
            assert((((a & b) >> t) & 1u32 == 1u32) == ((a >> t) & 1u32 == 1u32 && (b >> t) & 1u32
                == 1u32)) by (bit_vector);
        }
    }
}

/// Lane by lane, `a | b` is the disjunction of `a` and `b`.
pub proof fn lemma_or(a: u32, b: u32)
    ensures
        forall|j: int| #[trigger] bit(a | b, j) == (bit(a, j) || bit(b, j)),
{
    assert forall|j: int| #[trigger] bit(a | b, j) == (bit(a, j) || bit(b, j)) by {
        if 0 <= j < 32 {
            let t: u32 = j as u32;
            assert((((a | b) >> t) & 1u32 == 1u32) == ((a >> t) & 1u32 == 1u32 || (b >> t) & 1u32
                == 1u32)) by (bit_vector);
        }
    }
}

/// Lane by lane over the thirty-two lanes, `!a` is the negation of `a`.
pub proof fn lemma_not(a: u32)
    ensures
        forall|j: int| 0 <= j < 32 ==> #[trigger] bit(!a, j) == !bit(a, j),
{
    assert forall|j: int| 0 <= j < 32 implies #[trigger] bit(!a, j) == !bit(a, j) by {
        let t: u32 = j as u32;
        assert((((!a) >> t) & 1u32 == 1u32) == !((a >> t) & 1u32 == 1u32)) by (bit_vector)
            requires
                t < 32,
        ;
    }
}

/// Every one of the thirty-two lanes is set in the all-ones mask.
pub proof fn lemma_full()
    ensures
        forall|j: int| 0 <= j < 32 ==> #[trigger] bit(u32::MAX, j),
{
    assert forall|j: int| 0 <= j < 32 implies #[trigger] bit(u32::MAX, j) by {
        let t: u32 = j as u32;
        assert((0xffff_ffffu32 >> t) & 1u32 == 1u32) by (bit_vector)
            requires
                t < 32,
        ;
    }
}

} // verus!
