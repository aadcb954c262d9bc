//! The stated laws of the library, proved over the specification functions
//! that the executable contracts use.

use vstd::prelude::*;
use crate::hashing::{LEAF_TAG, NODE_TAG, spec_tag_block, spec_tag_hash, spec_hash};
use crate::merkle::{spec_verifies, spec_fold_proof, spec_node_consistent, leaves,
    ProofElementDirection};
use crate::position::{spec_lpbt_root, spec_tail_ones, spec_pbt_left_child,
    spec_lpbt_right_child, spec_parent_chain, lemma_chain_props, lemma_last_slot_parent,
    lemma_left_child_decreases, lemma_right_child_decreases};
use crate::math::npot;

verus! {

/// What a non-empty append guarantees of the slot sequences (the `ensures`
/// of `add`, restated of the values): two fresh slots, every slot off the
/// new leaf's ancestor chain untouched, and every slot on that chain the
/// node-tagged hash of its children.
pub open spec fn spec_append_post(prev: Seq<Seq<u8>>, t: Seq<Seq<u8>>, n: nat) -> bool {
    &&& t.len() == prev.len() + 2
    &&& forall|j: int|
        0 <= j < prev.len()
            && !spec_parent_chain((t.len() - 1) as usize, t.len() as usize).contains(
            j as usize)
            ==> t[j] == prev[j]
    &&& forall|m: int|
        0 <= m < spec_parent_chain((t.len() - 1) as usize, t.len() as usize).len()
            ==> spec_node_consistent(
            t,
            (#[trigger] spec_parent_chain((t.len() - 1) as usize, t.len() as usize)[m]) as int,
            n,
        )
}

proof fn lemma_chain_slot_equal(
    prev: Seq<Seq<u8>>,
    a: Seq<Seq<u8>>,
    b: Seq<Seq<u8>>,
    n: nat,
    m: int,
)
    requires
        prev.len() % 2 == 1,
        a.len() <= usize::MAX / 4,
        b.len() == a.len(),
        spec_append_post(prev, a, n),
        spec_append_post(prev, b, n),
        leaves(a) == leaves(b),
        0 <= m < spec_parent_chain((a.len() - 1) as usize, a.len() as usize).len(),
    ensures
        a[spec_parent_chain((a.len() - 1) as usize, a.len() as usize)[m] as int]
            == b[spec_parent_chain((a.len() - 1) as usize, a.len() as usize)[m] as int],
    decreases m, 1int,
{
    let sz = a.len() as usize;
    let chain = spec_parent_chain((sz - 1) as usize, sz);
    lemma_chain_props((sz - 1) as usize, sz);
    let i = chain[m];
    lemma_left_child_decreases(i);
    lemma_right_child_decreases(i, sz);
    let l = spec_pbt_left_child(i).unwrap();
    let r = spec_lpbt_right_child(i, sz).unwrap();
    lemma_child_slot_equal(prev, a, b, n, m, l);
    lemma_child_slot_equal(prev, a, b, n, m, r);
    assert(spec_node_consistent(a, i as int, n));
    assert(spec_node_consistent(b, i as int, n));
}

proof fn lemma_child_slot_equal(
    prev: Seq<Seq<u8>>,
    a: Seq<Seq<u8>>,
    b: Seq<Seq<u8>>,
    n: nat,
    m: int,
    c: usize,
)
    requires
        prev.len() % 2 == 1,
        a.len() <= usize::MAX / 4,
        b.len() == a.len(),
        spec_append_post(prev, a, n),
        spec_append_post(prev, b, n),
        leaves(a) == leaves(b),
        0 <= m < spec_parent_chain((a.len() - 1) as usize, a.len() as usize).len(),
        c < a.len(),
        spec_tail_ones(c) < spec_tail_ones(
            spec_parent_chain((a.len() - 1) as usize, a.len() as usize)[m],
        ),
    ensures
        a[c as int] == b[c as int],
    decreases m, 0int,
{
    let sz = a.len() as usize;
    let chain = spec_parent_chain((sz - 1) as usize, sz);
    lemma_chain_props((sz - 1) as usize, sz);
    lemma_last_slot_parent(sz);
    assert(chain == seq![(sz - 2) as usize] + spec_parent_chain((sz - 2) as usize, sz));
    assert(chain[0] == (sz - 2) as usize);
    if c as int == sz - 1 {
        assert(a[c as int] == leaves(a)[(sz - 1) as int / 2]);
        assert(b[c as int] == leaves(b)[(sz - 1) as int / 2]);
    } else if chain.contains(c) {
        let m2 = choose|mm: int| 0 <= mm < chain.len() && chain[mm] == c;
        assert(m2 < m);
        lemma_chain_slot_equal(prev, a, b, n, m2);
    } else {
        assert(c != (sz - 2) as usize);
        assert(c < prev.len());
        assert(a[c as int] == prev[c as int]);
        assert(b[c as int] == prev[c as int]);
    }
}

/// Every leaf commitment in a slot sequence is the value of some slot:
/// together with `add`'s `leaves` clause, an appended leaf's commitment is
/// always among the slots, which is what proof construction owes a proof for
/// on a consistent tree.
pub proof fn lemma_leaf_is_slot(t: Seq<Seq<u8>>, k: int)
    requires
        0 <= k < leaves(t).len(),
    ensures
        exists|p: int| 0 <= p < t.len() && t[p] == leaves(t)[k],
{
    assert(t[2 * k] == leaves(t)[k]);
}

/// Appending is deterministic: two post-append states that satisfy the
/// append contract over the same prior state and the same leaf commitments
/// agree slot for slot — the whole tree, its root included, is a function
/// of the appended payloads alone (the digest itself being deterministic).
pub proof fn lemma_append_deterministic(
    prev: Seq<Seq<u8>>,
    a: Seq<Seq<u8>>,
    b: Seq<Seq<u8>>,
    n: nat,
)
    requires
        prev.len() % 2 == 1,
        a.len() <= usize::MAX / 4,
        b.len() == a.len(),
        spec_append_post(prev, a, n),
        spec_append_post(prev, b, n),
        leaves(a) == leaves(b),
    ensures
        a == b,
{
    let sz = a.len() as usize;
    let chain = spec_parent_chain((sz - 1) as usize, sz);
    lemma_chain_props((sz - 1) as usize, sz);
    lemma_last_slot_parent(sz);
    assert(chain == seq![(sz - 2) as usize] + spec_parent_chain((sz - 2) as usize, sz));
    assert(chain[0] == (sz - 2) as usize);
    assert forall|j: int| 0 <= j < a.len() implies a[j] == b[j] by {
        if j == sz - 1 {
            assert(a[j] == leaves(a)[(sz - 1) as int / 2]);
            assert(b[j] == leaves(b)[(sz - 1) as int / 2]);
        } else if chain.contains(j as usize) {
            let m = choose|mm: int| 0 <= mm < chain.len() && chain[mm] == j as usize;
            lemma_chain_slot_equal(prev, a, b, n, m);
        } else {
            assert(j != sz - 2);
            assert(j < prev.len());
        }
    }
    assert(a =~= b);
}

/// Domain separation: for any payload and any positive slot width, the
/// leaf-tagged and node-tagged commitments feed *different* buffers to the
/// outer hash — the two tag blocks differ in their very first byte.
pub proof fn lemma_domain_separation(data: Seq<u8>, n: nat)
    requires
        n >= 1,
    ensures
        spec_tag_block(LEAF_TAG, n) + spec_hash(data, n)
            != spec_tag_block(NODE_TAG, n) + spec_hash(data, n),
{
    let a = spec_tag_block(LEAF_TAG, n) + spec_hash(data, n);
    let b = spec_tag_block(NODE_TAG, n) + spec_hash(data, n);
    assert(a[0] == LEAF_TAG);
    assert(b[0] == NODE_TAG);
}

/// After exactly one append into an empty tree the slot sequence is the
/// single leaf commitment, and the root position of a one-slot sequence is
/// that slot: the root then *is* the leaf-tagged hash of the appended data.
/// (On the empty sequence itself the root is absent: `root` returns a value
/// exactly when the sequence is non-empty.)
pub proof fn lemma_root_after_first_append(t: Seq<Seq<u8>>, data: Seq<u8>, n: nat)
    requires
        t.len() == 1,
        leaves(t) == seq![spec_tag_hash(LEAF_TAG, data, n)],
    ensures
        spec_lpbt_root(t.len() as usize) == 0,
        t[spec_lpbt_root(t.len() as usize) as int] == spec_tag_hash(LEAF_TAG, data, n),
{
    assert(npot(2) == 2) by {
        assert(npot(1) == 1);
    }
    assert(leaves(t)[0] == t[0]);
}

/// A proof that recombines, leaf first, to a tree's root value is accepted by
/// verification against that root; in particular every proof `create_proof`
/// hands out verifies against the tree's current root.
pub proof fn lemma_recombined_proof_verifies(
    data: Seq<u8>,
    p: Seq<(Seq<u8>, ProofElementDirection)>,
    root: Seq<u8>,
    n: nat,
)
    requires
        spec_fold_proof(p, spec_tag_hash(LEAF_TAG, data, n), n) == root,
    ensures
        spec_verifies(data, p, root, n),
{
}

/// An empty proof asserts that the data itself is the root leaf: it verifies
/// exactly against the leaf commitment of the data.
pub proof fn lemma_empty_proof(data: Seq<u8>, root: Seq<u8>, n: nat)
    ensures
        spec_verifies(data, Seq::empty(), root, n) <==> root == spec_tag_hash(LEAF_TAG, data,
            n),
{
}

} // verus!
