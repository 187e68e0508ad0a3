//! The path of a probe: where its groups start and which slot each lane of
//! each group stands for.
//!
//! A probe that starts at slot `base` of a table of `size` slots sees the
//! slots in the order `base`, `base + 1`, ... round the table. The position
//! of a slot in that order is its *offset*; offset `c` is lane `c % 32` of
//! group `c / 32`.

use vstd::prelude::*;
use vstd::arithmetic::div_mod::{
    lemma_add_mod_noop_right,
    lemma_fundamental_div_mod,
    lemma_mod_multiples_vanish,
    lemma_small_mod,
};

verus! {

/// The slot that stands at offset `c` of the path from `base`.
pub open spec fn slot_at(base: int, size: int, c: int) -> int {
    (base + c) % size
}

/// The position in the tag array at which group `j` of the path is read.
pub open spec fn group_pos(base: int, size: int, j: int) -> int {
    (base + 32 * j) % size
}

/// The number of groups that cover the whole table once.
pub open spec fn groups(size: int) -> int {
    if size >= 32 {
        size / 32
    } else {
        1
    }
}

/// The offset of slot `i` on the path from `base`.
pub open spec fn offset_of(base: int, size: int, i: int) -> int {
    (i - base) % size
}

/// Stepping thirty-two tags on from the start of one group, and wrapping,
/// gives the start of the next.
pub proof fn lemma_next_group(base: int, size: int, j: int)
    requires
        size > 0,
    ensures
        (group_pos(base, size, j) + 32) % size == group_pos(base, size, j + 1),
        0 <= group_pos(base, size, j) < size,
{
    lemma_add_mod_noop_right(32, base + 32 * j, size);
    assert(32 + (base + 32 * j) == base + 32 * (j + 1));
    assert(32 + group_pos(base, size, j) == group_pos(base, size, j) + 32);
}

/// Lane `p` of group `j` stands for the slot at offset `32 * j + p`.
pub proof fn lemma_lane(base: int, size: int, j: int, p: int)
    requires
        size > 0,
    ensures
        (group_pos(base, size, j) + p) % size == slot_at(base, size, 32 * j + p),
        0 <= slot_at(base, size, 32 * j + p) < size,
{
    lemma_add_mod_noop_right(p, base + 32 * j, size);
    assert(p + (base + 32 * j) == base + (32 * j + p));
    assert(p + group_pos(base, size, j) == group_pos(base, size, j) + p);
}

/// Every slot stands at its own offset, and that offset is below `size`.
pub proof fn lemma_offset(base: int, size: int, i: int)
    requires
        size > 0,
        0 <= base < size,
        0 <= i < size,
    ensures
        0 <= offset_of(base, size, i) < size,
        slot_at(base, size, offset_of(base, size, i)) == i,
{
    lemma_add_mod_noop_right(base, i - base, size);
    lemma_small_mod(i as nat, size as nat);
}

/// Offsets below `size` name different slots.
pub proof fn lemma_offsets_differ(base: int, size: int, c: int, d: int)
    requires
        size > 0,
        0 <= base < size,
        0 <= c < size,
        0 <= d < size,
        slot_at(base, size, c) == slot_at(base, size, d),
    ensures
        c == d,
{
    lemma_fundamental_div_mod(base + c, size);
    lemma_fundamental_div_mod(base + d, size);
    let qc = (base + c) / size;
    let qd = (base + d) / size;
    assert(c - d == size * qc - size * qd);
    assert(size * qc - size * qd == size * (qc - qd)) by (nonlinear_arith);
    if qc - qd >= 1 {
        assert(size * (qc - qd) >= size) by (nonlinear_arith)
            requires
                size > 0,
                qc - qd >= 1,
        ;
    } else if qc - qd <= -1 {
        assert(size * (qc - qd) <= -size) by (nonlinear_arith)
            requires
                size > 0,
                qc - qd <= -1,
        ;
    } else {
        assert(size * (qc - qd) == 0) by (nonlinear_arith)
            requires
                qc - qd == 0,
        ;
    }
}

/// The groups of one round cover exactly the offsets below `size`, for a
/// table of at least one whole group.
pub proof fn lemma_round(size: int)
    requires
        size >= 32,
        size % 32 == 0,
    ensures
        32 * groups(size) == size,
{
    lemma_fundamental_div_mod(size, 32);
}

/// Stepping on from a position by less than `m` comes to a position with
/// another remainder, and stepping on by `m` to one with the same.
pub proof fn lemma_step(a: int, d: int, m: int)
    requires
        m > 0,
        0 <= a,
        0 <= d <= m,
    ensures
        (a + d) % m == a % m <==> (d == 0 || d == m),
{
    lemma_fundamental_div_mod(a, m);
    let q = a / m;
    let r = a % m;
    assert(a == q * m + r) by (nonlinear_arith)
        requires
            a == m * q + r,
    ;
    if r + d < m {
        vstd::arithmetic::div_mod::lemma_fundamental_div_mod_converse(a + d, m, q, r + d);
    } else {
        assert(a + d == (q + 1) * m + (r + d - m)) by (nonlinear_arith)
            requires
                a == q * m + r,
        ;
        vstd::arithmetic::div_mod::lemma_fundamental_div_mod_converse(
            a + d,
            m,
            q + 1,
            r + d - m,
        );
    }
}

/// An offset splits into its group and its lane.
pub proof fn lemma_split(c: int)
    requires
        c >= 0,
    ensures
        c == 32 * (c / 32) + c % 32,
        0 <= c % 32 < 32,
        c / 32 >= 0,
{
    lemma_fundamental_div_mod(c, 32);
}

/// Lane `p` of group `j` is at offset `32 * j + p`, and of no other group.
pub proof fn lemma_join(j: int, p: int)
    requires
        0 <= p < 32,
    ensures
        (32 * j + p) / 32 == j,
        (32 * j + p) % 32 == p,
{
    lemma_mod_multiples_vanish(j, p, 32);
    lemma_small_mod(p as nat, 32);
    lemma_fundamental_div_mod(32 * j + p, 32);
}

} // verus!
