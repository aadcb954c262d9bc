//! Positional index arithmetic for the flat, left-packed binary tree.
//!
//! All functions are pure functions of a position and, where needed, the
//! current length of the flat slot sequence.  Navigation is computed from
//! perfect-binary-tree (PBT) bit algebra; positions that would fall outside
//! the actual sequence are redirected to the slots that really hold the
//! corresponding ancestors ("LPBT" forms).

use vstd::prelude::*;
use crate::math::{npot, next_pow2, lemma_npot_ge, lemma_npot_le, lemma_npot_even,
    lemma_npot_between, lemma_pow2_fixpoint, lemma_npot_double, lemma_npot_idem,
    lemma_fixpoint_pow2};

verus! {

/// The lowest set bit of `n`.
pub open spec fn spec_last_set_bit(n: usize) -> usize {
    (n - (((n - 1) as usize) & n)) as usize
}

/// The lowest zero bit of `n`.
pub open spec fn spec_last_zero_bit(n: usize) -> usize {
    spec_last_set_bit((n + 1) as usize)
}

/// The parent of position `n` in the enclosing perfect binary tree.
pub open spec fn spec_pbt_parent(n: usize) -> usize {
    (spec_last_zero_bit(n) | n) & !((spec_last_zero_bit(n) << 1) as usize)
}

/// The left child of `n` in the perfect binary tree; only odd positions have one.
pub open spec fn spec_pbt_left_child(n: usize) -> Option<usize> {
    if n & 1 == 1 {
        Some(n & !((spec_last_zero_bit(n) >> 1) as usize))
    } else {
        None
    }
}

/// The right child of `n` in the perfect binary tree; only odd positions have one.
pub open spec fn spec_pbt_right_child(n: usize) -> Option<usize> {
    if n & 1 == 1 {
        Some((n | spec_last_zero_bit(n)) & !((spec_last_zero_bit(n) >> 1) as usize))
    } else {
        None
    }
}

/// The leftmost leaf of the subtree rooted at `n` in the perfect binary tree.
pub open spec fn spec_pbt_leftmost_leaf(n: usize) -> usize {
    n & ((n + 1) as usize)
}

/// The root position of a flat sequence of the given length.
pub open spec fn spec_lpbt_root(size: usize) -> usize {
    (((npot((size + 1) as nat) - 1) as usize) / 2) as usize
}

/// The parent of `n` in the flat sequence of length `size`: none at the root,
/// the PBT parent where that slot exists, and otherwise the slot just before
/// the leftmost leaf of `n`'s subtree.
pub open spec fn spec_lpbt_parent(n: usize, size: usize) -> Option<usize> {
    if n == spec_lpbt_root(size) {
        None
    } else if spec_pbt_parent(n) < size {
        Some(spec_pbt_parent(n))
    } else {
        Some((spec_pbt_leftmost_leaf(n) - 1) as usize)
    }
}

/// The right child of `n` in the flat sequence of length `size`: the PBT right
/// child where that slot exists, else the root of the last-appended subtree.
pub open spec fn spec_lpbt_right_child(n: usize, size: usize) -> Option<usize> {
    match spec_pbt_right_child(n) {
        None => None,
        Some(r) => if r < size {
            Some(r)
        } else {
            Some((n + 1 + spec_lpbt_root((size - n - 1) as usize)) as usize)
        },
    }
}

pub fn last_set_bit(n: usize) -> (r: usize)
    requires
        n >= 1,
    ensures
        r == spec_last_set_bit(n),
{
    proof {
        assert(((n - 1) as usize & n) <= n) by (bit_vector);
    }
    n - ((n - 1) & n)
}

pub fn last_zero_bit(n: usize) -> (r: usize)
    requires
        n < usize::MAX,
    ensures
        r == spec_last_zero_bit(n),
{
    last_set_bit(n + 1)
}

pub fn pbt_parent(n: usize) -> (r: usize)
    requires
        n < usize::MAX,
    ensures
        r == spec_pbt_parent(n),
{
    let z = last_zero_bit(n);
    (z | n) & !(z << 1usize)
}

pub fn pbt_left_child(n: usize) -> (r: Option<usize>)
    requires
        n < usize::MAX,
    ensures
        r == spec_pbt_left_child(n),
        r is Some ==> r.unwrap() <= n,
        r is Some ==> spec_tail_ones(r.unwrap()) < spec_tail_ones(n),
{
    if n & 1 == 1 {
        let z = last_zero_bit(n);
        let c = n & !(z >> 1usize);
        proof {
            assert(n & !(z >> 1usize) <= n) by (bit_vector);
            assert(spec_tail_ones(n & !((spec_last_zero_bit(n) >> 1) as usize))
                < spec_tail_ones(n)) by (bit_vector)
                requires
                    n & 1 == 1,
                    (n + 1) as usize == n + 1,
            ;
        }
        Some(c)
    } else {
        None
    }
}

pub fn pbt_right_child(n: usize) -> (r: Option<usize>)
    requires
        n < usize::MAX,
    ensures
        r == spec_pbt_right_child(n),
{
    if n & 1 == 1 {
        let z = last_zero_bit(n);
        Some((n | z) & !(z >> 1usize))
    } else {
        None
    }
}

pub fn pbt_leftmost_leaf(n: usize) -> (r: usize)
    requires
        n < usize::MAX,
    ensures
        r == spec_pbt_leftmost_leaf(n),
{
    n & (n + 1)
}

/// The root position lies strictly inside any non-empty sequence.
pub proof fn lemma_lpbt_root_le(size: usize)
    requires
        1 <= size,
        size <= usize::MAX / 2,
    ensures
        spec_lpbt_root(size) <= size - 1,
{
    lemma_npot_ge((size + 1) as nat);
    lemma_npot_le((size + 1) as nat);
}

/// For a sequence of two or more slots the root position is odd (an internal slot).
pub proof fn lemma_lpbt_root_odd(size: usize)
    requires
        2 <= size,
        size <= usize::MAX / 2,
    ensures
        spec_lpbt_root(size) % 2 == 1,
{
    let q = npot((size + 1) as nat);
    let h = npot((size + 2) as nat / 2);
    assert(q == 2 * h);
    lemma_npot_ge((size + 2) as nat / 2);
    lemma_npot_even((size + 2) as nat / 2);
    lemma_npot_le((size + 1) as nat);
    assert(q == 2 * h && h % 2 == 0 && h >= 2 && q <= 2 * size);
    assert((q - 1) as usize == 2 * h - 1);
    assert((2 * h - 1) / 2 == h - 1);
}

pub fn lpbt_root(size: usize) -> (r: usize)
    requires
        size <= usize::MAX / 2,
    ensures
        r == spec_lpbt_root(size),
{
    proof {
        lemma_npot_ge((size + 1) as nat);
        lemma_npot_le(if size >= 1 { (size + 1) as nat } else { 2 });
        assert(npot(1nat) == 1);
    }
    let p = next_pow2(size + 1);
    proof {
        assert((p - 1) as usize >> 1usize == (p - 1) as usize / 2) by (bit_vector);
    }
    (p - 1) >> 1usize
}

/// A position below `size` whose PBT parent falls outside the sequence and
/// that is not the root cannot be of the all-ones form: its subtree has a
/// slot before its leftmost leaf.
proof fn lemma_overflow_parent_has_predecessor(n: usize, size: usize)
    requires
        n < size,
        size <= usize::MAX / 2,
        n != spec_lpbt_root(size),
        spec_pbt_parent(n) >= size,
    ensures
        spec_pbt_leftmost_leaf(n) >= 1,
{
    if spec_pbt_leftmost_leaf(n) == 0 {
        assert(spec_pbt_parent(n) == ((2 * n + 1) as usize) && ((n + 1) as usize) & n == 0)
            by (bit_vector)
            requires
                n & ((n + 1) as usize) == 0,
        ;
        assert((2 * n + 1) as usize == 2 * n + 1);
        lemma_pow2_fixpoint((n + 1) as usize);
        lemma_npot_double((n + 1) as nat);
        assert(npot((2 * n + 2) as nat) == 2 * n + 2);
        assert(size >= n + 1 && size <= 2 * n + 1);
        lemma_npot_between((2 * n + 2) as nat, (size + 1) as nat);
        assert(npot((size + 1) as nat) == 2 * n + 2);
        assert(spec_lpbt_root(size) == (2 * n + 1) / 2);
        assert(false);
    }
}

/// A root position is of the all-ones form: it shares no bit with its successor.
pub proof fn lemma_lpbt_root_all_ones(size: usize)
    requires
        size <= usize::MAX / 2,
    ensures
        spec_lpbt_root(size) & ((spec_lpbt_root(size) + 1) as usize) == 0,
{
    let q = npot((size + 1) as nat);
    lemma_npot_ge((size + 1) as nat);
    if size == 0 {
        assert(npot(1) == 1);
        assert(0usize & 1usize == 0) by (bit_vector);
    } else {
        lemma_npot_le((size + 1) as nat);
        assert(q == 2 * npot((size + 2) as nat / 2));
        let h = npot((size + 2) as nat / 2);
        lemma_npot_ge((size + 2) as nat / 2);
        lemma_npot_idem((size + 1) as nat);
        assert(npot(q) == q);
        assert((q + 1) / 2 == h);
        assert(npot(q) == 2 * npot((q + 1) / 2));
        assert(npot(h) == h);
        lemma_fixpoint_pow2(h as usize);
        let rt = spec_lpbt_root(size);
        assert(rt == h - 1);
        assert(rt & ((rt + 1) as usize) == 0) by (bit_vector)
            requires
                ((rt + 1) as usize) & (((rt + 1) as usize - 1) as usize) == 0,
                rt + 1 == (rt + 1) as usize,
        ;
    }
}

/// The parent of the last slot of an odd-length sequence is the slot before
/// it: a fresh leaf's first ancestor is the reserved slot pushed with it.
pub proof fn lemma_last_slot_parent(size: usize)
    requires
        size % 2 == 1,
        size >= 3,
        size <= usize::MAX / 4,
    ensures
        spec_lpbt_parent((size - 1) as usize, size) == Some((size - 2) as usize),
{
    lemma_lpbt_root_odd(size);
    assert((spec_pbt_parent((size - 1) as usize) < size
            ==> spec_pbt_parent((size - 1) as usize) == (size - 2) as usize)
        && (spec_pbt_parent((size - 1) as usize) >= size
            ==> spec_pbt_leftmost_leaf((size - 1) as usize) == (size - 1) as usize))
        by (bit_vector)
        requires
            size % 2 == 1,
            size >= 3,
    ;
}

/// The block of trailing one bits of `n`, as a value (`2^t - 1` where `t` is
/// the number of trailing ones).  In the perfect-binary-tree index algebra
/// this measures how high `n` sits: leaves end in no ones, their parents in
/// one, and so on.
pub open spec fn spec_tail_ones(n: usize) -> usize {
    n & !((n + 1) as usize)
}

/// A number is odd exactly when its lowest bit is set.
pub proof fn lemma_odd_bit(n: usize)
    ensures
        (n % 2 == 1) <==> (n & 1 == 1),
{
    assert((n % 2 == 1) <==> (n & 1 == 1)) by (bit_vector);
}

/// The trailing-ones block of a number is never larger than the number.
pub proof fn lemma_tail_ones_le(n: usize)
    ensures
        spec_tail_ones(n) <= n,
{
    assert(n & !((n + 1) as usize) <= n) by (bit_vector);
}

/// Walking to the parent strictly grows the trailing-ones block; this bounds
/// the ancestor walk.  The parent is also always an odd slot inside the
/// sequence.
pub proof fn lemma_parent_tail_ones(n: usize, size: usize)
    requires
        n < size,
        size <= usize::MAX / 4,
        spec_lpbt_parent(n, size) is Some,
    ensures
        spec_tail_ones(spec_lpbt_parent(n, size).unwrap()) > spec_tail_ones(n),
        spec_tail_ones(spec_lpbt_parent(n, size).unwrap())
            <= spec_lpbt_parent(n, size).unwrap(),
        spec_lpbt_parent(n, size).unwrap() < size,
        spec_lpbt_parent(n, size).unwrap() % 2 == 1,
{
    assert((2 * n + 2) as usize == 2 * n + 2);
    if spec_pbt_parent(n) < size {
        assert(spec_tail_ones(spec_pbt_parent(n)) > spec_tail_ones(n)
            && spec_tail_ones(spec_pbt_parent(n)) <= spec_pbt_parent(n)) by (bit_vector)
            requires
                (2 * n + 2) as usize == 2 * n + 2,
        ;
        assert(spec_pbt_parent(n) % 2 == 1) by (bit_vector);
    } else {
        lemma_overflow_parent_has_predecessor(n, size);
        assert(spec_tail_ones((spec_pbt_leftmost_leaf(n) - 1) as usize) > spec_tail_ones(n)
            && spec_tail_ones((spec_pbt_leftmost_leaf(n) - 1) as usize)
                <= (spec_pbt_leftmost_leaf(n) - 1) as usize) by (bit_vector)
            requires
                spec_pbt_leftmost_leaf(n) >= 1,
                (2 * n + 2) as usize == 2 * n + 2,
        ;
        assert(spec_pbt_leftmost_leaf(n) <= n) by (bit_vector);
        assert((spec_pbt_leftmost_leaf(n)) % 2 == 0) by (bit_vector);
    }
}

/// The number of levels below a slot whose trailing-ones block is `t`: the
/// logarithm that bounds proof length and search depth.
pub open spec fn spec_depth(t: usize) -> nat
    decreases t,
{
    if t == 0 {
        0
    } else {
        1 + spec_depth(t / 2)
    }
}

/// `spec_depth` is monotone.
pub proof fn lemma_depth_mono(x: usize, y: usize)
    requires
        x <= y,
    ensures
        spec_depth(x) <= spec_depth(y),
    decreases y,
{
    if x > 0 {
        lemma_depth_mono(x / 2, y / 2);
    }
}

/// The left child of an odd slot sits lower: its trailing-ones block is
/// strictly smaller — at most half.
pub proof fn lemma_left_child_decreases(n: usize)
    requires
        n % 2 == 1,
        n < usize::MAX,
    ensures
        spec_pbt_left_child(n) is Some,
        spec_pbt_left_child(n).unwrap() <= n,
        spec_tail_ones(spec_pbt_left_child(n).unwrap()) < spec_tail_ones(n),
        spec_tail_ones(spec_pbt_left_child(n).unwrap()) <= spec_tail_ones(n) / 2,
{
    lemma_odd_bit(n);
    assert(n & !((spec_last_zero_bit(n) >> 1) as usize) <= n) by (bit_vector);
    assert(spec_tail_ones(n & !((spec_last_zero_bit(n) >> 1) as usize))
        < spec_tail_ones(n)
        && spec_tail_ones(n & !((spec_last_zero_bit(n) >> 1) as usize))
            <= spec_tail_ones(n) / 2) by (bit_vector)
        requires
            n & 1 == 1,
            (n + 1) as usize == n + 1,
    ;
}

/// The right child of an odd slot sits lower too, whether it is the direct
/// PBT child or the redirected root of the last-appended subtree, and it
/// always lies inside the sequence.
pub proof fn lemma_right_child_decreases(n: usize, size: usize)
    requires
        n % 2 == 1,
        n < size,
        size % 2 == 1,
        size <= usize::MAX / 4,
    ensures
        spec_lpbt_right_child(n, size) is Some,
        spec_lpbt_right_child(n, size).unwrap() < size,
        spec_tail_ones(spec_lpbt_right_child(n, size).unwrap()) < spec_tail_ones(n),
        spec_tail_ones(spec_lpbt_right_child(n, size).unwrap()) <= spec_tail_ones(n) / 2,
{
    lemma_odd_bit(n);
    let c = spec_pbt_right_child(n).unwrap();
    if c < size {
        assert(spec_tail_ones((n | spec_last_zero_bit(n))
            & !((spec_last_zero_bit(n) >> 1) as usize)) < spec_tail_ones(n)
            && spec_tail_ones((n | spec_last_zero_bit(n))
                & !((spec_last_zero_bit(n) >> 1) as usize)) <= spec_tail_ones(n) / 2)
            by (bit_vector)
            requires
                n & 1 == 1,
                (n + 1) as usize == n + 1,
        ;
    } else {
        assert(n <= size - 2);
        let m = (size - n - 1) as usize;
        lemma_npot_ge((m + 1) as nat);
        lemma_npot_le((m + 1) as nat);
        lemma_lpbt_root_all_ones(m);
        let rt = spec_lpbt_root(m);
        assert(rt <= m - 1);
        assert(spec_tail_ones((n + 1 + rt) as usize) < spec_tail_ones(n)
            && spec_tail_ones((n + 1 + rt) as usize) <= spec_tail_ones(n) / 2)
            by (bit_vector)
            requires
                n & 1 == 1,
                (n + 1) as usize == n + 1,
                (n + 1 + rt) as usize == n + 1 + rt,
                rt & ((rt + 1) as usize) == 0,
                n + 1 + rt < (n | spec_last_zero_bit(n))
                    & !((spec_last_zero_bit(n) >> 1) as usize),
        ;
    }
}

/// The root's PBT parent falls outside the sequence: no slot has the root
/// as a child of anything.
proof fn lemma_root_parent_outside(size: usize)
    requires
        1 <= size,
        size <= usize::MAX / 4,
    ensures
        spec_pbt_parent(spec_lpbt_root(size)) >= size,
{
    lemma_lpbt_root_all_ones(size);
    lemma_lpbt_root_le(size);
    lemma_npot_ge((size + 1) as nat);
    lemma_npot_le((size + 1) as nat);
    let rt = spec_lpbt_root(size);
    assert((npot((size + 1) as nat) - 1) as usize == npot((size + 1) as nat) - 1);
    assert(2 * rt + 1 >= size);
    assert(spec_pbt_parent(rt) == ((2 * rt + 1) as usize)) by (bit_vector)
        requires
            rt & ((rt + 1) as usize) == 0,
    ;
    assert((2 * rt + 1) as usize == 2 * rt + 1);
}

/// Inverse law, left side: the parent of a slot's left child is that slot.
pub proof fn lemma_left_child_parent(j: usize, size: usize)
    requires
        j % 2 == 1,
        j < size,
        size <= usize::MAX / 4,
    ensures
        spec_lpbt_parent(spec_pbt_left_child(j).unwrap(), size) == Some(j),
{
    lemma_odd_bit(j);
    let l = spec_pbt_left_child(j).unwrap();
    assert(spec_pbt_parent(j & !((spec_last_zero_bit(j) >> 1) as usize)) == j) by (bit_vector)
        requires
            j & 1 == 1,
            (j + 1) as usize == j + 1,
    ;
    if l == spec_lpbt_root(size) {
        lemma_root_parent_outside(size);
        assert(false);
    }
}

/// Inverse law, right side: the parent of a slot's right child is that slot,
/// whether the child is the direct PBT child or the redirected root of the
/// last-appended subtree.
pub proof fn lemma_right_child_parent(j: usize, size: usize)
    requires
        j % 2 == 1,
        j < size,
        size % 2 == 1,
        size <= usize::MAX / 4,
    ensures
        spec_lpbt_parent(spec_lpbt_right_child(j, size).unwrap(), size) == Some(j),
{
    lemma_odd_bit(j);
    lemma_right_child_decreases(j, size);
    let c = spec_pbt_right_child(j).unwrap();
    if c < size {
        assert(spec_pbt_parent((j | spec_last_zero_bit(j))
            & !((spec_last_zero_bit(j) >> 1) as usize)) == j) by (bit_vector)
            requires
                j & 1 == 1,
                (j + 1) as usize == j + 1,
        ;
        if c == spec_lpbt_root(size) {
            lemma_root_parent_outside(size);
            assert(false);
        }
    } else {
        assert(j <= size - 2);
        let m = (size - j - 1) as usize;
        lemma_npot_ge((m + 1) as nat);
        lemma_npot_le((m + 1) as nat);
        lemma_npot_even((m + 1) as nat);
        lemma_lpbt_root_all_ones(m);
        let rt = spec_lpbt_root(m);
        let q = npot((m + 1) as nat);
        assert(q == 2 * rt + 2);
        let v = (j + 1 + rt) as usize;
        assert(v < size);
        assert(spec_pbt_parent(v) == j
            || (spec_pbt_parent(v) >= size && v & ((v + 1) as usize) == (j + 1) as usize))
            by (bit_vector)
            requires
                j & 1 == 1,
                (j + 1) as usize == j + 1,
                v == j + 1 + rt,
                (v + 1) as usize == v + 1,
                rt & ((rt + 1) as usize) == 0,
                j + 1 + rt < size,
                size - j - 1 <= 2 * rt + 1,
                size - j - 1 >= rt + 1,
                (j | spec_last_zero_bit(j)) & !((spec_last_zero_bit(j) >> 1) as usize)
                    >= size,
        ;
        if v == spec_lpbt_root(size) {
            lemma_lpbt_root_all_ones(size);
            if spec_pbt_parent(v) == j {
                lemma_root_parent_outside(size);
            }
            assert(false);
        }
    }
}

/// The chain of ancestors of slot `i`, bottom-up: the `lpbt_parent` orbit
/// from `i` to the root.
pub open spec fn spec_parent_chain(i: usize, size: usize) -> Seq<usize>
    decreases size - spec_tail_ones(i)
        when i < size && size <= usize::MAX / 4
        via spec_parent_chain_decreases
{
    match spec_lpbt_parent(i, size) {
        None => Seq::empty(),
        Some(p) => seq![p] + spec_parent_chain(p, size),
    }
}

#[via_fn]
proof fn spec_parent_chain_decreases(i: usize, size: usize) {
    lemma_tail_ones_le(i);
    if spec_lpbt_parent(i, size) is Some {
        lemma_parent_tail_ones(i, size);
    }
}

/// The ancestor chain of any non-root slot is non-empty and ends at the root
/// position; the root's own chain is empty.
pub proof fn lemma_chain_ends_at_root(i: usize, size: usize)
    requires
        i < size,
        size <= usize::MAX / 4,
    ensures
        i != spec_lpbt_root(size) ==> spec_parent_chain(i, size).len() > 0
            && spec_parent_chain(i, size).last() == spec_lpbt_root(size),
        i == spec_lpbt_root(size) ==> spec_parent_chain(i, size).len() == 0,
    decreases size - spec_tail_ones(i),
{
    lemma_tail_ones_le(i);
    let chain = spec_parent_chain(i, size);
    match spec_lpbt_parent(i, size) {
        None => {},
        Some(p) => {
            lemma_parent_tail_ones(i, size);
            lemma_chain_ends_at_root(p, size);
            let rest = spec_parent_chain(p, size);
            assert(chain == seq![p] + rest);
            if p == spec_lpbt_root(size) {
                assert(rest.len() == 0);
                assert(chain.last() == p);
            } else {
                assert(chain.last() == rest.last());
            }
        },
    }
}

/// Inverse law, downward: a slot's parent has it as one of its two children.
pub proof fn lemma_parent_to_child(c: usize, size: usize)
    requires
        c < size,
        size % 2 == 1,
        size <= usize::MAX / 4,
        spec_lpbt_parent(c, size) is Some,
    ensures
        spec_pbt_left_child(spec_lpbt_parent(c, size).unwrap()) == Some(c)
            || spec_lpbt_right_child(spec_lpbt_parent(c, size).unwrap(), size) == Some(c),
{
    let p = spec_lpbt_parent(c, size).unwrap();
    lemma_parent_tail_ones(c, size);
    lemma_odd_bit(p);
    if spec_pbt_parent(c) < size {
        let pp = spec_pbt_parent(c);
        assert((pp + 1) as usize == pp + 1);
        assert(pp & !((spec_last_zero_bit(pp) >> 1) as usize) == c
            || (pp | spec_last_zero_bit(pp)) & !((spec_last_zero_bit(pp) >> 1) as usize)
                == c) by (bit_vector)
            requires
                (c + 1) as usize == c + 1,
                (pp + 1) as usize == pp + 1,
                pp == spec_pbt_parent(c),
        ;
    } else {
        lemma_overflow_parent_has_predecessor(c, size);
        let lml = spec_pbt_leftmost_leaf(c);
        let tail = spec_tail_ones(c);
        assert((3 * c + 3) as usize == 3 * c + 3);
        let rc = (p | spec_last_zero_bit(p)) & !((spec_last_zero_bit(p) >> 1) as usize);
        assert(size <= lml + 2 * tail + 1
            && lml + tail == c
            && ((tail + 1) as usize) & tail == 0
            && tail < size) by (bit_vector)
            requires
                c & ((c + 1) as usize) >= 1,
                lml == c & ((c + 1) as usize),
                tail == c & !((c + 1) as usize),
                spec_pbt_parent(c) >= size,
                c < size,
                (c + 1) as usize == c + 1,
                (3 * c + 3) as usize == 3 * c + 3,
        ;
        assert(rc == c || rc >= size) by (bit_vector)
            requires
                p == ((c & ((c + 1) as usize)) - 1) as usize,
                rc == (p | spec_last_zero_bit(p)) & !((spec_last_zero_bit(p) >> 1) as usize),
                c & ((c + 1) as usize) >= 1,
                spec_pbt_parent(c) >= size,
                c < size,
                (c + 1) as usize == c + 1,
                (3 * c + 3) as usize == 3 * c + 3,
        ;
        if rc == c {
            assert(spec_lpbt_right_child(p, size) == Some(c));
        } else {
            let m2 = (size - p - 1) as usize;
            assert(m2 == size - lml);
            lemma_pow2_fixpoint((tail + 1) as usize);
            lemma_npot_double((tail + 1) as nat);
            assert(npot((2 * tail + 2) as nat) == 2 * tail + 2);
            assert(m2 + 1 > tail + 1);
            assert(m2 + 1 <= 2 * tail + 2);
            lemma_npot_between((2 * tail + 2) as nat, (m2 + 1) as nat);
            assert(npot((m2 + 1) as nat) == 2 * tail + 2);
            assert((npot((m2 + 1) as nat) - 1) as usize == 2 * tail + 1);
            assert(spec_lpbt_root(m2) == tail);
            assert((p + 1 + spec_lpbt_root(m2)) as usize == c);
            assert(spec_lpbt_right_child(p, size) == Some(c));
        }
    }
}

/// Chains are closed upward: a chain that contains a slot contains that
/// slot's parent.
pub proof fn lemma_orbit_closed(x: usize, size: usize, c: usize, p: usize)
    requires
        x < size,
        size <= usize::MAX / 4,
        c < size,
        spec_parent_chain(x, size).contains(c),
        spec_lpbt_parent(c, size) == Some(p),
    ensures
        spec_parent_chain(x, size).contains(p),
    decreases size - spec_tail_ones(x),
{
    lemma_tail_ones_le(x);
    let chain = spec_parent_chain(x, size);
    match spec_lpbt_parent(x, size) {
        None => {
            assert(false);
        },
        Some(p1) => {
            lemma_parent_tail_ones(x, size);
            let rest = spec_parent_chain(p1, size);
            assert(chain == seq![p1] + rest);
            if c == p1 {
                lemma_parent_tail_ones(c, size);
                assert(rest == seq![p] + spec_parent_chain(p, size));
                assert(chain[1] == p);
                assert(chain.contains(p));
            } else {
                let k = choose|kk: int| 0 <= kk < chain.len() && chain[kk] == c;
                assert(k >= 1);
                assert(rest[k - 1] == c);
                assert(rest.contains(c));
                lemma_orbit_closed(p1, size, c, p);
                let k2 = choose|kk: int| 0 <= kk < rest.len() && rest[kk] == p;
                assert(chain[k2 + 1] == p);
                assert(chain.contains(p));
            }
        },
    }
}

/// Walking a chain down one step: every chain element is the parent of the
/// chain's origin or of an earlier chain element.
pub proof fn lemma_chain_step_down(x: usize, size: usize, i: usize)
    requires
        x < size,
        size <= usize::MAX / 4,
        spec_parent_chain(x, size).contains(i),
    ensures
        exists|c: usize| (c == x || spec_parent_chain(x, size).contains(c))
            && #[trigger] spec_lpbt_parent(c, size) == Some(i),
    decreases size - spec_tail_ones(x),
{
    lemma_tail_ones_le(x);
    let chain = spec_parent_chain(x, size);
    match spec_lpbt_parent(x, size) {
        None => {
            assert(false);
        },
        Some(p1) => {
            lemma_parent_tail_ones(x, size);
            let rest = spec_parent_chain(p1, size);
            assert(chain == seq![p1] + rest);
            if i == p1 {
                assert(spec_lpbt_parent(x, size) == Some(i));
            } else {
                let k = choose|kk: int| 0 <= kk < chain.len() && chain[kk] == i;
                assert(k >= 1);
                assert(rest[k - 1] == i);
                assert(rest.contains(i));
                lemma_chain_step_down(p1, size, i);
                let c = choose|cc: usize| (cc == p1 || spec_parent_chain(p1, size).contains(
                    cc)) && #[trigger] spec_lpbt_parent(cc, size) == Some(i);
                if c == p1 {
                    assert(chain[0] == c);
                    assert(chain.contains(c));
                } else {
                    let k2 = choose|kk: int| 0 <= kk < rest.len() && rest[kk] == c;
                    assert(chain[k2 + 1] == c);
                    assert(chain.contains(c));
                }
            }
        },
    }
}

/// Whether slot `p` lies in the subtree rooted at slot `i`: it is `i` itself
/// or has `i` among its ancestors.
pub open spec fn spec_in_subtree(p: usize, i: usize, size: usize) -> bool {
    p == i || spec_parent_chain(p, size).contains(i)
}

/// Every odd slot whose span reaches the end of the sequence is an ancestor
/// of the last slot.
pub proof fn lemma_qualifier_in_chain(j: usize, size: usize)
    requires
        j % 2 == 1,
        j < size,
        size % 2 == 1,
        size >= 3,
        size <= usize::MAX / 4,
        j + spec_tail_ones(j) >= size - 1,
    ensures
        spec_parent_chain((size - 1) as usize, size).contains(j),
    decreases spec_tail_ones(j),
{
    let chain = spec_parent_chain((size - 1) as usize, size);
    lemma_last_slot_parent(size);
    assert(chain == seq![(size - 2) as usize]
        + spec_parent_chain((size - 2) as usize, size));
    if j == (size - 2) as usize {
        assert(chain[0] == j);
        assert(chain.contains(j));
    } else {
        lemma_odd_bit(j);
        lemma_right_child_decreases(j, size);
        let r = spec_lpbt_right_child(j, size).unwrap();
        let cpbt = spec_pbt_right_child(j).unwrap();
        if cpbt < size {
            assert(cpbt + spec_tail_ones(cpbt) == j + spec_tail_ones(j)
                && (spec_tail_ones(j) != 1 ==> cpbt & 1 == 1)
                && (spec_tail_ones(j) == 1 ==> cpbt == j + 1)) by (bit_vector)
                requires
                    j & 1 == 1,
                    (j + 1) as usize == j + 1,
                    cpbt == (j | spec_last_zero_bit(j))
                        & !((spec_last_zero_bit(j) >> 1) as usize),
            ;
            if spec_tail_ones(j) == 1 {
                assert(j >= size - 2);
                assert(false);
            }
            assert(r == cpbt);
            assert(r + spec_tail_ones(r) >= size - 1);
            lemma_odd_bit(r);
        } else {
            let m = (size - j - 1) as usize;
            assert(m >= 2);
            lemma_npot_ge((m + 1) as nat);
            lemma_npot_le((m + 1) as nat);
            lemma_npot_even((m + 1) as nat);
            lemma_lpbt_root_all_ones(m);
            let rt = spec_lpbt_root(m);
            assert(npot((m + 1) as nat) == 2 * rt + 2);
            assert(rt >= 1);
            assert(spec_tail_ones((j + 1 + rt) as usize) == rt
                && ((j + 1 + rt) as usize) & 1 == 1) by (bit_vector)
                requires
                    j & 1 == 1,
                    (j + 1) as usize == j + 1,
                    (j + 1 + rt) as usize == j + 1 + rt,
                    rt & ((rt + 1) as usize) == 0,
                    rt >= 1,
                    j + 1 + rt < (j | spec_last_zero_bit(j))
                        & !((spec_last_zero_bit(j) >> 1) as usize),
            ;
            assert(r == (j + 1 + rt) as usize);
            assert(r + spec_tail_ones(r) >= size - 1);
            lemma_odd_bit(r);
        }
        lemma_qualifier_in_chain(r, size);
        lemma_right_child_parent(j, size);
        lemma_orbit_closed((size - 1) as usize, size, r, j);
    }
}

/// Every ancestor on the chain is an odd slot inside the sequence, sits
/// strictly higher than `i`, and the chain climbs strictly.
pub proof fn lemma_chain_props(i: usize, size: usize)
    requires
        i < size,
        size <= usize::MAX / 4,
    ensures
        forall|k: int| 0 <= k < spec_parent_chain(i, size).len()
            ==> (#[trigger] spec_parent_chain(i, size)[k]) < size
                && spec_parent_chain(i, size)[k] % 2 == 1
                && spec_tail_ones(spec_parent_chain(i, size)[k]) > spec_tail_ones(i),
        forall|k1: int, k2: int|
            0 <= k1 < k2 < spec_parent_chain(i, size).len()
                ==> spec_tail_ones(#[trigger] spec_parent_chain(i, size)[k1])
                    < spec_tail_ones(#[trigger] spec_parent_chain(i, size)[k2]),
    decreases size - spec_tail_ones(i),
{
    lemma_tail_ones_le(i);
    let chain = spec_parent_chain(i, size);
    match spec_lpbt_parent(i, size) {
        None => {},
        Some(p) => {
            lemma_parent_tail_ones(i, size);
            lemma_chain_props(p, size);
            let rest = spec_parent_chain(p, size);
            assert(chain == seq![p] + rest);
            assert(chain[0] == p);
            assert(forall|k: int| 1 <= k < chain.len() ==> chain[k] == rest[k - 1]);
        },
    }
}

pub fn lpbt_parent(n: usize, size: usize) -> (r: Option<usize>)
    requires
        n < size,
        size <= usize::MAX / 4,
    ensures
        r == spec_lpbt_parent(n, size),
        r is Some ==> r.unwrap() < size && r.unwrap() % 2 == 1,
{
    let root = lpbt_root(size);
    if n == root {
        None
    } else {
        let p = pbt_parent(n);
        proof {
            assert(spec_pbt_parent(n) % 2 == 1) by (bit_vector);
        }
        if p < size {
            Some(p)
        } else {
            proof {
                lemma_overflow_parent_has_predecessor(n, size);
                assert(n & ((n + 1) as usize) <= n) by (bit_vector);
                assert((n & ((n + 1) as usize)) % 2 == 0) by (bit_vector);
            }
            Some(pbt_leftmost_leaf(n) - 1)
        }
    }
}

pub fn lpbt_right_child(n: usize, size: usize) -> (r: Option<usize>)
    requires
        n < size,
        size % 2 == 1,
        size <= usize::MAX / 4,
    ensures
        r == spec_lpbt_right_child(n, size),
        r is Some ==> r.unwrap() < size,
        r is Some ==> spec_tail_ones(r.unwrap()) < spec_tail_ones(n),
{
    if n & 1 == 1 {
        proof {
            lemma_odd_bit(n);
        }
        match pbt_right_child(n) {
            None => None,
            Some(c) => {
                if c < size {
                    proof {
                        assert(spec_tail_ones((n | spec_last_zero_bit(n))
                            & !((spec_last_zero_bit(n) >> 1) as usize)) < spec_tail_ones(n))
                            by (bit_vector)
                            requires
                                n & 1 == 1,
                                (n + 1) as usize == n + 1,
                        ;
                    }
                    Some(c)
                } else {
                    let m = size - n - 1;
                    proof {
                        lemma_npot_ge((m + 1) as nat);
                        lemma_npot_le((m + 1) as nat);
                        lemma_lpbt_root_all_ones(m);
                    }
                    let rt = lpbt_root(m);
                    proof {
                        assert(spec_tail_ones((n + 1 + rt) as usize) < spec_tail_ones(n))
                            by (bit_vector)
                            requires
                                n & 1 == 1,
                                (n + 1) as usize == n + 1,
                                (n + 1 + rt) as usize == n + 1 + rt,
                                rt & ((rt + 1) as usize) == 0,
                                n + 1 + rt < (n | spec_last_zero_bit(n))
                                    & !((spec_last_zero_bit(n) >> 1) as usize),
                        ;
                    }
                    Some(n + 1 + rt)
                }
            },
        }
    } else {
        None
    }
}

} // verus!
