//! The next-power-of-two function used by the flat-tree root position
//! formula, with the facts about it that the index arithmetic needs.

use vstd::prelude::*;

verus! {

/// The smallest power of two that is at least `x`.
pub open spec fn npot(x: nat) -> nat
    decreases x,
{
    if x <= 1 {
        1
    } else {
        2 * npot((x + 1) / 2)
    }
}

/// `npot(x)` is at least `x`, and always at least 1.
pub proof fn lemma_npot_ge(x: nat)
    ensures
        npot(x) >= x,
        npot(x) >= 1,
    decreases x,
{
    if x > 1 {
        lemma_npot_ge((x + 1) / 2);
    }
}

/// For `x >= 2`, `npot(x)` is at most `2 * (x - 1)`: there is always a power
/// of two in `[x, 2x - 2]` once `x >= 2`.
pub proof fn lemma_npot_le(x: nat)
    requires
        x >= 2,
    ensures
        npot(x) <= 2 * (x - 1),
    decreases x,
{
    if x == 2 {
        assert(npot(1) == 1);
    } else {
        lemma_npot_le((x + 1) / 2);
    }
}

/// `npot` is even from 2 on.
pub proof fn lemma_npot_even(x: nat)
    requires
        x >= 2,
    ensures
        npot(x) % 2 == 0,
{
    assert(npot(x) == 2 * npot((x + 1) / 2));
}

/// A power of two (a fixpoint of `npot`) is the next power of two of
/// everything in the half-open interval above its own half.
pub proof fn lemma_npot_between(r: nat, t: nat)
    requires
        npot(r) == r,
        r / 2 < t,
        t <= r,
    ensures
        npot(t) == r,
    decreases r,
{
    if r <= 1 {
        assert(t == 1);
    } else {
        let h = npot((r + 1) / 2);
        assert(r == 2 * h);
        assert((r + 1) / 2 == r / 2);
        assert(npot(r / 2) == r / 2);
        assert((t + 1) / 2 <= r / 2);
        assert(t >= r / 2 + 1);
        assert((t + 1) / 2 >= (r / 2 + 2) / 2);
        assert((r / 2 + 2) / 2 == (r / 2) / 2 + 1);
        lemma_npot_between(r / 2, (t + 1) / 2);
        assert(t >= 2);
        assert(npot(t) == 2 * npot((t + 1) / 2));
    }
}

/// A `usize` with no bit in common with its predecessor is a power of two,
/// that is, a fixpoint of `npot`.
pub proof fn lemma_pow2_fixpoint(x: usize)
    requires
        x >= 1,
        x & ((x - 1) as usize) == 0,
    ensures
        npot(x as nat) == x,
    decreases x,
{
    if x == 1 {
        assert(npot(1) == 1);
    } else {
        assert(x & 1 == 0 && (x >> 1) >= 1 && ((x >> 1) & (((x >> 1) - 1) as usize)) == 0
            && x >> 1 == x / 2) by (bit_vector)
            requires
                x >= 2,
                x & ((x - 1) as usize) == 0,
        ;
        lemma_pow2_fixpoint(x / 2);
        assert(x % 2 == 0) by (bit_vector)
            requires
                x & 1 == 0,
        ;
        assert((x + 1) / 2 == x / 2);
        assert(npot(x as nat) == 2 * npot((x as nat + 1) / 2));
    }
}

/// Doubling a fixpoint of `npot` gives another one.
pub proof fn lemma_npot_double(x: nat)
    requires
        x >= 1,
        npot(x) == x,
    ensures
        npot(2 * x) == 2 * x,
{
    assert((2 * x + 1) / 2 == x);
    assert(npot(2 * x) == 2 * npot((2 * x + 1) / 2));
}

/// `npot` is idempotent: its result is a power of two.
pub proof fn lemma_npot_idem(x: nat)
    ensures
        npot(npot(x)) == npot(x),
    decreases x,
{
    if x <= 1 {
        assert(npot(1) == 1);
    } else {
        let y = (x + 1) / 2;
        lemma_npot_idem(y);
        lemma_npot_ge(y);
        assert((2 * npot(y) + 1) / 2 == npot(y));
        assert(npot(2 * npot(y)) == 2 * npot((2 * npot(y) + 1) / 2));
    }
}

/// A fixpoint of `npot` shares no bit with its predecessor.
pub proof fn lemma_fixpoint_pow2(x: usize)
    requires
        x >= 1,
        npot(x as nat) == x,
    ensures
        x & ((x - 1) as usize) == 0,
    decreases x,
{
    if x == 1 {
        assert(1usize & 0usize == 0) by (bit_vector);
    } else {
        assert(npot(x as nat) == 2 * npot((x as nat + 1) / 2));
        let h = npot((x as nat + 1) / 2);
        assert(x == 2 * h);
        assert((x as nat + 1) / 2 == x as nat / 2);
        assert(npot((x / 2) as nat) == x / 2);
        lemma_fixpoint_pow2(x / 2);
        assert(x & ((x - 1) as usize) == 0) by (bit_vector)
            requires
                x >= 2,
                x % 2 == 0,
                (x / 2) & ((x / 2 - 1) as usize) == 0,
        ;
    }
}

/// The smallest power of two that is at least `x`, computed by doubling.
pub fn next_pow2(x: usize) -> (r: usize)
    requires
        x >= 1,
        x - 1 <= usize::MAX / 2,
    ensures
        r == npot(x as nat),
{
    let mut r: usize = 1;
    proof {
        assert(npot(1) == 1);
    }
    while r < x
        invariant
            1 <= r,
            npot(r as nat) == r,
            r / 2 < x,
            x - 1 <= usize::MAX / 2,
        decreases 2 * x - r,
    {
        proof {
            lemma_npot_double(r as nat);
        }
        r = r * 2;
    }
    proof {
        lemma_npot_between(r as nat, x as nat);
    }
    r
}

} // verus!
