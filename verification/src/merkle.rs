//! The append-only Merkle tree: a flat, growable sequence of fixed-width hash
//! slots, with append, root extraction, inclusion-proof construction and pure
//! proof verification.

use vstd::prelude::*;
use crate::hashing::{LEAF_TAG, NODE_TAG, spec_hash, spec_concat_hash, spec_tag_hash,
    hash_trunc, filled, clone_bytes, bytes_eq};
use crate::position::{spec_lpbt_root, spec_tail_ones, spec_pbt_left_child,
    spec_pbt_right_child, spec_last_zero_bit, spec_lpbt_right_child, spec_lpbt_parent,
    spec_parent_chain, spec_in_subtree, lpbt_root, lpbt_parent, lpbt_right_child,
    pbt_left_child, pbt_right_child, lemma_lpbt_root_le, lemma_lpbt_root_odd,
    lemma_parent_tail_ones, lemma_chain_props, lemma_chain_ends_at_root,
    lemma_left_child_decreases, lemma_right_child_decreases, spec_depth, lemma_depth_mono,
    lemma_last_slot_parent, lemma_left_child_parent, lemma_right_child_parent,
    lemma_odd_bit, lemma_tail_ones_le,
    lemma_parent_to_child, lemma_orbit_closed, lemma_chain_step_down,
    lemma_qualifier_in_chain};

verus! {

/// A structural failure during an append: these indicate a broken internal
/// invariant, and the contracts below show that a well-formed tree never
/// produces one.
#[derive(Debug, Clone, Copy, PartialEq, Eq, Structural)]
pub enum MerkleError {
    /// The requested leaf position lies beyond the current sequence.
    LeafOutOfBounds,
    /// A non-root slot had no resolvable parent.
    MissingParent,
    /// An ancestor slot had no resolvable pair of children.
    MissingChildren,
}

/// The direction a sibling hash takes when it is recombined with the running
/// value during proof verification.
#[derive(Debug, Clone, Copy, PartialEq, Eq, Structural)]
pub enum ProofElementDirection {
    LEFT,
    RIGHT,
}

/// One step of an inclusion proof: a sibling hash and the side on which it
/// enters the recombination.
#[derive(Debug)]
pub struct ProofElement {
    hash: Vec<u8>,
    direction: ProofElementDirection,
}

impl View for ProofElement {
    type V = (Seq<u8>, ProofElementDirection);

    closed spec fn view(&self) -> (Seq<u8>, ProofElementDirection) {
        (self.hash@, self.direction)
    }
}

/// The views of a sequence of proof elements.
pub open spec fn elems_view(s: Seq<ProofElement>) -> Seq<(Seq<u8>, ProofElementDirection)> {
    s.map_values(|e: ProofElement| e@)
}

/// The value an internal slot holds for child slot values `l` and `r`:
/// the node-tagged hash of the hash of their concatenation.
pub open spec fn spec_node_hash(l: Seq<u8>, r: Seq<u8>, n: nat) -> Seq<u8> {
    spec_tag_hash(NODE_TAG, spec_concat_hash(l, r, n), n)
}

/// One recombination step of proof verification.
pub open spec fn spec_combine(acc: Seq<u8>, e: (Seq<u8>, ProofElementDirection), n: nat) -> Seq<u8> {
    match e.1 {
        ProofElementDirection::LEFT => spec_node_hash(e.0, acc, n),
        ProofElementDirection::RIGHT => spec_node_hash(acc, e.0, n),
    }
}

/// Recombining a whole proof, first element (the leaf's sibling) first.
pub open spec fn spec_fold_proof(
    p: Seq<(Seq<u8>, ProofElementDirection)>,
    acc: Seq<u8>,
    n: nat,
) -> Seq<u8>
    decreases p.len(),
{
    if p.len() == 0 {
        acc
    } else {
        spec_combine(spec_fold_proof(p.drop_last(), acc, n), p.last(), n)
    }
}

/// Whether verification accepts `p` as an inclusion proof of `data` against
/// the root value `root`.
pub open spec fn spec_verifies(
    data: Seq<u8>,
    p: Seq<(Seq<u8>, ProofElementDirection)>,
    root: Seq<u8>,
    n: nat,
) -> bool {
    spec_fold_proof(p, spec_tag_hash(LEAF_TAG, data, n), n) == root
}

/// An odd slot agrees with its children: it holds exactly the node-tagged
/// hash of the values of its left and right child slots.
pub open spec fn spec_node_consistent(t: Seq<Seq<u8>>, i: int, n: nat) -> bool {
    t[i] == spec_node_hash(
        t[spec_pbt_left_child(i as usize).unwrap() as int],
        t[spec_lpbt_right_child(i as usize, t.len() as usize).unwrap() as int],
        n,
    )
}

/// Every internal (odd) slot of the sequence agrees with its children: the
/// tree-wide well-formedness of the commitment structure.  `new` establishes
/// it (no internal slots) and `add` maintains it.
pub open spec fn spec_tree_consistent(t: Seq<Seq<u8>>, n: nat) -> bool {
    forall|i: int| 0 <= i < t.len() && i % 2 == 1 ==> spec_node_consistent(t, i, n)
}

/// The leaf slots of a flat slot sequence: the slots at even positions, in order.
pub open spec fn leaves(t: Seq<Seq<u8>>) -> Seq<Seq<u8>> {
    Seq::new((t.len() + 1) / 2, |i: int| t[2 * i])
}

/// An append that recomputes the new leaf's ancestor chain and touches
/// nothing else preserves tree-wide consistency: every other internal slot
/// keeps both its value and its children (a slot whose subtree would have
/// grown is itself an ancestor of the new leaf).
proof fn lemma_append_consistent(prev: Seq<Seq<u8>>, t: Seq<Seq<u8>>, n: nat)
    requires
        prev.len() % 2 == 1,
        t.len() == prev.len() + 2,
        t.len() <= usize::MAX / 4,
        spec_tree_consistent(prev, n),
        forall|m: int|
            0 <= m < spec_parent_chain((t.len() - 1) as usize, t.len() as usize).len()
                ==> spec_node_consistent(
                t,
                (#[trigger] spec_parent_chain((t.len() - 1) as usize, t.len() as usize)[m])
                    as int,
                n,
            ),
        forall|j: int|
            0 <= j < prev.len() && !spec_parent_chain((t.len() - 1) as usize,
                t.len() as usize).contains(j as usize) ==> t[j] == prev[j],
    ensures
        spec_tree_consistent(t, n),
{
    let s = prev.len() as usize;
    let sz = t.len() as usize;
    let chain = spec_parent_chain((sz - 1) as usize, sz);
    lemma_last_slot_parent(sz);
    assert(chain == seq![(sz - 2) as usize] + spec_parent_chain((sz - 2) as usize, sz));
    assert(chain[0] == (sz - 2) as usize);
    assert forall|i: int| 0 <= i < t.len() && i % 2 == 1 implies spec_node_consistent(
        t,
        i,
        n,
    ) by {
        let j = i as usize;
        if chain.contains(j) {
            let m = choose|mm: int| 0 <= mm < chain.len() && chain[mm] == j;
            assert(spec_node_consistent(t, chain[m] as int, n));
        } else {
            assert(j != (sz - 2) as usize);
            assert(j < s);
            lemma_odd_bit(j);
            let c = spec_pbt_right_child(j).unwrap();
            if c >= s {
                assert(j + spec_tail_ones(j) >= s + 1) by (bit_vector)
                    requires
                        j & 1 == 1,
                        (j + 1) as usize == j + 1,
                        j < s,
                        s % 2 == 1,
                        (j | spec_last_zero_bit(j))
                            & !((spec_last_zero_bit(j) >> 1) as usize) >= s,
                ;
                lemma_qualifier_in_chain(j, sz);
                assert(false);
            }
            assert(spec_lpbt_right_child(j, s) == Some(c));
            assert(spec_lpbt_right_child(j, sz) == Some(c));
            lemma_left_child_decreases(j);
            let l = spec_pbt_left_child(j).unwrap();
            if chain.contains(l) {
                lemma_left_child_parent(j, sz);
                lemma_orbit_closed((sz - 1) as usize, sz, l, j);
                assert(false);
            }
            if chain.contains(c) {
                lemma_right_child_parent(j, sz);
                lemma_orbit_closed((sz - 1) as usize, sz, c, j);
                assert(false);
            }
            assert(t[j as int] == prev[j as int]);
            assert(t[l as int] == prev[l as int]);
            assert(t[c as int] == prev[c as int]);
            assert(spec_node_consistent(prev, j as int, n));
        }
    }
}

/// An append-only Merkle tree over SHA-256, truncated to `N`-byte slots;
/// `ND` is the width of the buffer two slots are concatenated into and must
/// be `2 * N` for the scheme to be well-formed.
pub struct MerkleTree<const N: usize, const ND: usize> {
    tree: Vec<Vec<u8>>,
}

impl<const N: usize, const ND: usize> View for MerkleTree<N, ND> {
    type V = Seq<Seq<u8>>;

    closed spec fn view(&self) -> Seq<Seq<u8>> {
        Seq::new(self.tree@.len(), |i: int| self.tree@[i]@)
    }
}

impl<const N: usize, const ND: usize> Default for MerkleTree<N, ND> {
    /// An empty tree, as `new` builds it.
    fn default() -> (r: Self)
        ensures
            r@ =~= Seq::<Seq<u8>>::empty(),
            r.wf(),
            spec_tree_consistent(r@, N as nat),
    {
        MerkleTree { tree: Vec::new() }
    }
}

impl<const N: usize, const ND: usize> MerkleTree<N, ND> {
    /// Well-formedness: the slot count is zero or odd (k leaves occupy
    /// 2k - 1 slots), bounded, and every slot holds exactly `N` bytes.
    pub closed spec fn wf(&self) -> bool {
        &&& self@.len() == 0 || self@.len() % 2 == 1
        &&& self@.len() <= usize::MAX / 4
        &&& forall|i: int| 0 <= i < self@.len() ==> (#[trigger] self@[i]).len() == N
    }

    /// Creates an empty tree.
    ///
    /// The bounds mirror a size check against `8 *` the digest's byte length,
    /// which reads as a bit count and is looser than the byte bound the
    /// truncation in `hash` actually needs (`N <= 32`); the hashing
    /// operations therefore carry the tighter bound themselves.
    pub fn new() -> (r: Self)
        requires
            N < 8 * 32,
            ND < 2 * 8 * 32,
        ensures
            r@ =~= Seq::<Seq<u8>>::empty(),
            r.wf(),
            spec_tree_consistent(r@, N as nat),
    {
        MerkleTree { tree: Vec::new() }
    }

    /// Runs the digest over `data` and keeps the first `N` bytes.
    fn hash(data: &[u8]) -> (r: Vec<u8>)
        requires
            N <= 32,
        ensures
            r@ == spec_hash(data@, N as nat),
            r@.len() == N,
    {
        hash_trunc(data, N)
    }

    /// Hashes the `ND`-byte buffer holding `first` then `second`.
    fn concat_hash(first: &[u8], second: &[u8]) -> (r: Vec<u8>)
        requires
            N <= 32,
            ND == 2 * N,
            first@.len() == N,
            second@.len() == N,
        ensures
            r@ == spec_concat_hash(first@, second@, N as nat),
            r@.len() == N,
    {
        let mut data: Vec<u8> = Vec::new();
        let mut i: usize = 0;
        while i < first.len()
            invariant
                i <= first@.len(),
                data@ == first@.take(i as int),
            decreases first@.len() - i,
        {
            data.push(first[i]);
            proof {
                assert(first@.take((i + 1) as int) =~= first@.take(i as int).push(first@[i as int]));
            }
            i = i + 1;
        }
        proof {
            assert(first@.take(first@.len() as int) =~= first@);
        }
        let mut j: usize = 0;
        while j < second.len()
            invariant
                j <= second@.len(),
                data@ == first@ + second@.take(j as int),
            decreases second@.len() - j,
        {
            data.push(second[j]);
            proof {
                assert(first@ + second@.take((j + 1) as int)
                    =~= (first@ + second@.take(j as int)).push(second@[j as int]));
            }
            j = j + 1;
        }
        proof {
            assert(first@ + second@.take(second@.len() as int) =~= first@ + second@);
        }
        Self::hash(data.as_slice())
    }

    /// The domain-tagged hash of `data`: a block of `N` tag bytes is
    /// concatenated with the truncated digest of `data` and hashed again.
    pub fn tag_hash(tag: u8, data: &[u8]) -> (r: Vec<u8>)
        requires
            N <= 32,
            ND == 2 * N,
        ensures
            r@ == spec_tag_hash(tag, data@, N as nat),
            r@.len() == N,
    {
        let tag_block = filled(tag, N);
        let hashed_data = Self::hash(data);
        Self::concat_hash(tag_block.as_slice(), hashed_data.as_slice())
    }

    /// Writes the given slot value at leaf position `leaf_pos` (slot
    /// `2 * leaf_pos`) and recomputes every ancestor slot on the path to the
    /// root as the node-tagged hash of its children.
    fn lpbt_set(&mut self, leaf_pos: usize, data: &[u8]) -> (r: Result<(), MerkleError>)
        requires
            old(self).wf(),
            old(self)@.len() >= 3,
            N <= 32,
            ND == 2 * N,
            data@.len() == N,
        ensures
            final(self).wf(),
            final(self)@.len() == old(self)@.len(),
            leaf_pos <= old(self)@.len() as usize / 2 ==> r is Ok,
            leaf_pos > old(self)@.len() as usize / 2 ==> r is Err,
            r is Err ==> r->Err_0 == MerkleError::LeafOutOfBounds,
            r is Ok ==> 2 * leaf_pos < final(self)@.len()
                && final(self)@[2 * leaf_pos as int] == data@,
            r is Ok ==> forall|i: int|
                0 <= i < final(self)@.len() && i % 2 == 0 && i != 2 * leaf_pos
                    ==> final(self)@[i] == old(self)@[i],
            r is Ok ==> forall|m: int|
                0 <= m < spec_parent_chain((2 * leaf_pos) as usize,
                    old(self)@.len() as usize).len()
                    ==> spec_node_consistent(
                        final(self)@,
                        (#[trigger] spec_parent_chain((2 * leaf_pos) as usize,
                            old(self)@.len() as usize)[m]) as int,
                        N as nat,
                    ),
            r is Ok ==> forall|j: int|
                0 <= j < final(self)@.len() && j != 2 * leaf_pos
                    && !spec_parent_chain((2 * leaf_pos) as usize,
                        old(self)@.len() as usize).contains(j as usize)
                    ==> final(self)@[j] == old(self)@[j],
            r is Err ==> final(self)@ == old(self)@,
    {
        let size = self.tree.len();
        if leaf_pos > size / 2 {
            return Err(MerkleError::LeafOutOfBounds);
        }
        let pos = leaf_pos * 2;
        proof {
            assert(pos < size);
        }
        let ghost entry = self@;
        self.tree.set(pos, clone_bytes(data));
        proof {
            assert(self@ =~= entry.update(pos as int, data@));
            lemma_lpbt_root_odd(size);
        }
        let mut parent = lpbt_parent(pos, size);
        if parent.is_none() {
            // cannot happen: an even slot is never the (odd) root of a
            // sequence of three or more slots
            return Err(MerkleError::MissingParent);
        }
        let ghost chain = spec_parent_chain(pos, size);
        let ghost mut k: int = 0;
        proof {
            lemma_chain_props(pos, size);
            assert(chain == seq![parent.unwrap()] + spec_parent_chain(parent.unwrap(), size));
            assert(chain[0] == parent.unwrap());
            assert(spec_parent_chain(chain[0], size) =~= chain.skip(1));
            assert(chain.take(0) =~= Seq::<usize>::empty());
        }
        while parent.is_some()
            invariant
                self.wf(),
                N <= 32,
                ND == 2 * N,
                size == self@.len(),
                size >= 3,
                size <= usize::MAX / 4,
                size % 2 == 1,
                2 * leaf_pos < size,
                pos == 2 * leaf_pos,
                self@[pos as int] == data@,
                parent is Some ==> parent.unwrap() < size && parent.unwrap() % 2 == 1,
                forall|i: int|
                    0 <= i < size && i % 2 == 0 && i != pos
                        ==> self@[i] == old(self)@[i],
                chain == spec_parent_chain(pos, size),
                0 <= k <= chain.len(),
                parent is Some ==> k < chain.len() && parent.unwrap() == chain[k]
                    && spec_parent_chain(chain[k], size) == chain.skip(k + 1),
                parent is None ==> k == chain.len(),
                forall|m: int| 0 <= m < k
                    ==> spec_node_consistent(self@, (#[trigger] chain[m]) as int, N as nat),
                forall|j: int|
                    0 <= j < size && j != pos && !chain.take(k).contains(j as usize)
                        ==> self@[j] == old(self)@[j],
            decreases (if parent is Some {
                size - spec_tail_ones(parent.unwrap())
            } else {
                0int
            }),
        {
            let parent_pos = match parent {
                Some(p) => p,
                None => { return Err(MerkleError::MissingParent); },
            };
            proof {
                lemma_odd_bit(parent_pos);
            }
            match (pbt_left_child(parent_pos), lpbt_right_child(parent_pos, size)) {
                (Some(left), Some(right)) => {
                    proof {
                        assert(self@[left as int].len() == N);
                        assert(self@[right as int].len() == N);
                        assert(self.tree@[left as int]@ == self@[left as int]);
                        assert(self.tree@[right as int]@ == self@[right as int]);
                    }
                    let hashed_data = Self::concat_hash(
                        self.tree[left].as_slice(),
                        self.tree[right].as_slice(),
                    );
                    let h = Self::tag_hash(NODE_TAG, hashed_data.as_slice());
                    let ghost before = self@;
                    self.tree.set(parent_pos, h);
                    proof {
                        assert(self@ =~= before.update(parent_pos as int, h@));
                        // ancestors recomputed earlier keep their consistency:
                        // they and their children all sit strictly lower in the
                        // trailing-ones order than the slot just written
                        lemma_chain_props(pos, size);
                        assert forall|m: int| 0 <= m < k
                            implies spec_node_consistent(self@, (chain[m]) as int, N as nat) by {
                            lemma_left_child_decreases(chain[m]);
                            lemma_right_child_decreases(chain[m], size);
                            assert(spec_tail_ones(chain[m]) < spec_tail_ones(chain[k]));
                            assert(chain[m] != parent_pos);
                            assert(spec_pbt_left_child(chain[m]).unwrap() != parent_pos);
                            assert(spec_lpbt_right_child(chain[m], size).unwrap() != parent_pos);
                        }
                        // the slot just written holds the hash of its children,
                        // which it is not one of
                        assert(left != parent_pos && right != parent_pos);
                        assert(spec_node_consistent(self@, parent_pos as int, N as nat));
                        assert(chain.take(k + 1)[k] == chain[k]);
                        assert(chain.take(k + 1).contains(chain[k]));
                        assert forall|j: int|
                            0 <= j < size && j != pos
                                && !chain.take(k + 1).contains(j as usize)
                            implies self@[j] == old(self)@[j] by {
                            assert(!chain.take(k).contains(j as usize));
                            assert(j != parent_pos);
                        }
                    }
                    parent = lpbt_parent(parent_pos, size);
                    proof {
                        if parent is Some {
                            lemma_parent_tail_ones(parent_pos, size);
                        }
                        lemma_tail_ones_le(parent_pos);
                        assert(spec_parent_chain(chain[k], size) == chain.skip(k + 1));
                        if spec_lpbt_parent(chain[k], size) is Some {
                            let p2 = spec_lpbt_parent(chain[k], size).unwrap();
                            assert(spec_parent_chain(chain[k], size)
                                == seq![p2] + spec_parent_chain(p2, size));
                            assert((seq![p2] + spec_parent_chain(p2, size)).skip(1)
                                =~= spec_parent_chain(p2, size));
                            assert(chain.skip(k + 1).skip(1) =~= chain.skip(k + 2));
                            assert(chain.skip(k + 1)[0] == chain[k + 1]);
                            assert(chain[k + 1] == p2);
                            assert(spec_parent_chain(chain[k + 1], size) == chain.skip(k + 2));
                        } else {
                            assert(spec_parent_chain(chain[k], size)
                                =~= Seq::<usize>::empty());
                            assert(chain.skip(k + 1).len() == 0);
                        }
                        k = k + 1;
                    }
                },
                _ => {
                    return Err(MerkleError::MissingChildren);
                },
            }
        }
        proof {
            assert(chain.take(chain.len() as int) =~= chain);
        }
        Ok(())
    }

    /// Appends one leaf: pushes a leaf slot (plus one reserved ancestor slot
    /// once the tree is non-empty) holding the leaf-tagged hash of `data`,
    /// then recomputes the ancestor path.  On a well-formed tree this always
    /// succeeds; the leaf commitments grow by exactly the new leaf and all
    /// earlier leaf slots keep their values.
    pub fn add(&mut self, data: &[u8]) -> (r: Result<(), MerkleError>)
        requires
            old(self).wf(),
            N <= 32,
            ND == 2 * N,
            old(self)@.len() + 2 <= usize::MAX / 4,
        ensures
            final(self).wf(),
            r is Ok,
            final(self)@.len() == if old(self)@.len() == 0 { 1int } else {
                old(self)@.len() as int + 2
            },
            leaves(final(self)@) == leaves(old(self)@).push(
                spec_tag_hash(LEAF_TAG, data@, N as nat),
            ),
            final(self)@.len() >= 3 ==> forall|m: int|
                0 <= m < spec_parent_chain((final(self)@.len() - 1) as usize,
                    final(self)@.len() as usize).len()
                    ==> spec_node_consistent(
                        final(self)@,
                        (#[trigger] spec_parent_chain((final(self)@.len() - 1) as usize,
                            final(self)@.len() as usize)[m]) as int,
                        N as nat,
                    ),
            forall|j: int|
                0 <= j < old(self)@.len()
                    && !spec_parent_chain((final(self)@.len() - 1) as usize,
                        final(self)@.len() as usize).contains(j as usize)
                    ==> final(self)@[j] == old(self)@[j],
            final(self)@.len() >= 3 ==> spec_node_consistent(
                final(self)@,
                spec_lpbt_root(final(self)@.len() as usize) as int,
                N as nat,
            ),
            spec_tree_consistent(old(self)@, N as nat) ==> spec_tree_consistent(
                final(self)@,
                N as nat,
            ),
    {
        if self.tree.len() == 0 {
            let h = Self::tag_hash(LEAF_TAG, data);
            self.tree.push(h);
            proof {
                assert(leaves(self@)
                    =~= leaves(old(self)@).push(spec_tag_hash(LEAF_TAG, data@, N as nat)));
            }
            Ok(())
        } else {
            let z0 = filled(0, N);
            let z1 = filled(0, N);
            self.tree.push(z0);
            self.tree.push(z1);
            let ghost pushed = self@;
            proof {
                assert(forall|i: int| 0 <= i < old(self)@.len()
                    ==> #[trigger] pushed[i] == old(self)@[i]);
                assert(pushed.len() == old(self)@.len() + 2);
            }
            let h = Self::tag_hash(LEAF_TAG, data);
            let leaf_pos = self.tree.len() / 2;
            let res = self.lpbt_set(leaf_pos, h.as_slice());
            match res {
                Ok(()) => {
                    proof {
                        assert(2 * leaf_pos == self@.len() - 1);
                        assert(leaves(self@)
                            =~= leaves(old(self)@).push(
                                spec_tag_hash(LEAF_TAG, data@, N as nat)));
                        assert((2 * leaf_pos) as usize == (self@.len() - 1) as usize);
                        assert(pushed.len() as usize == self@.len() as usize);
                        let sz = self@.len() as usize;
                        lemma_lpbt_root_odd(sz);
                        lemma_chain_ends_at_root((sz - 1) as usize, sz);
                        let rootchain = spec_parent_chain((sz - 1) as usize, sz);
                        assert(rootchain.last() == rootchain[rootchain.len() - 1]);
                        if spec_tree_consistent(old(self)@, N as nat) {
                            lemma_append_consistent(old(self)@, self@, N as nat);
                        }
                    }
                    Ok(())
                },
                Err(e) => Err(e),
            }
        }
    }

    /// The root commitment: the slot at the root position, absent only on an
    /// empty tree.
    pub fn root(&self) -> (r: Option<Vec<u8>>)
        requires
            self.wf(),
        ensures
            (r is Some) <==> self@.len() > 0,
            r is Some ==> r.unwrap()@ == self@[spec_lpbt_root(self@.len() as usize) as int],
            r is Some ==> r.unwrap()@.len() == N,
    {
        if self.tree.len() == 0 {
            None
        } else {
            proof {
                lemma_lpbt_root_le(self.tree.len());
            }
            let ri = lpbt_root(self.tree.len());
            Some(clone_bytes(self.tree[ri].as_slice()))
        }
    }

    /// Reverses a recorded route so that it runs from the leaf's sibling up
    /// to the child of the root.
    fn reverse_elems(v: Vec<ProofElement>) -> (r: Vec<ProofElement>)
        ensures
            r@.len() == v@.len(),
            forall|i: int| 0 <= i < r@.len() ==> r@[i] == v@[v@.len() - 1 - i],
    {
        let ghost orig = v@;
        let mut w = v;
        let mut r: Vec<ProofElement> = Vec::new();
        while w.len() > 0
            invariant
                w@ == orig.take(w@.len() as int),
                r@.len() + w@.len() == orig.len(),
                forall|i: int| 0 <= i < r@.len() ==> r@[i] == orig[orig.len() - 1 - i],
            decreases w@.len(),
        {
            let e = w.pop().unwrap();
            proof {
                assert(orig.take(w@.len() as int + 1).drop_last()
                    =~= orig.take(w@.len() as int));
                assert(e == orig[w@.len() as int]);
            }
            r.push(e);
        }
        r
    }

    /// Recombines a route with a starting value, first element first.
    fn fold_elems(proof_elems: &Vec<ProofElement>, start: Vec<u8>) -> (r: Vec<u8>)
        requires
            N <= 32,
            ND == 2 * N,
            start@.len() == N,
            forall|i: int| 0 <= i < proof_elems@.len()
                ==> (#[trigger] proof_elems@[i])@.0.len() == N,
        ensures
            r@ == spec_fold_proof(elems_view(proof_elems@), start@, N as nat),
            r@.len() == N,
    {
        let mut acc = start;
        let mut i: usize = 0;
        while i < proof_elems.len()
            invariant
                i <= proof_elems@.len(),
                N <= 32,
                ND == 2 * N,
                forall|k: int| 0 <= k < proof_elems@.len()
                    ==> (#[trigger] proof_elems@[k])@.0.len() == N,
                acc@.len() == N,
                acc@ == spec_fold_proof(elems_view(proof_elems@.take(i as int)), start@,
                    N as nat),
            decreases proof_elems@.len() - i,
        {
            let e = &proof_elems[i];
            let combined = match e.direction {
                ProofElementDirection::LEFT => Self::concat_hash(
                    e.hash.as_slice(),
                    acc.as_slice(),
                ),
                ProofElementDirection::RIGHT => Self::concat_hash(
                    acc.as_slice(),
                    e.hash.as_slice(),
                ),
            };
            acc = Self::tag_hash(NODE_TAG, combined.as_slice());
            proof {
                let p = elems_view(proof_elems@.take(i + 1 as int));
                assert(p.drop_last() =~= elems_view(proof_elems@.take(i as int)));
                assert(p.last() == proof_elems@[i as int]@);
            }
            i = i + 1;
        }
        proof {
            assert(proof_elems@.take(proof_elems@.len() as int) =~= proof_elems@);
        }
        acc
    }

    /// Verifies an inclusion proof against a root value: recombines the
    /// leaf-tagged hash of `data` with each sibling in order and compares the
    /// result with `to_match` byte for byte.  Pure: it never touches a tree.
    pub fn verify_proof(data: &[u8], proof_elems: &Vec<ProofElement>, to_match: &[u8]) -> (r:
        bool)
        requires
            N <= 32,
            ND == 2 * N,
            forall|i: int| 0 <= i < proof_elems@.len()
                ==> (#[trigger] proof_elems@[i])@.0.len() == N,
        ensures
            r == spec_verifies(data@, elems_view(proof_elems@), to_match@, N as nat),
    {
        let hash = Self::tag_hash(LEAF_TAG, data);
        let generated = Self::fold_elems(proof_elems, hash);
        bytes_eq(generated.as_slice(), to_match)
    }

    /// Depth-first structural search for a slot holding `hash`, starting at
    /// `idx`: records the sibling passed at each descent (the right sibling
    /// when going left, the left one when going right) and undoes the record
    /// when a branch fails.  On failure the route is exactly as it was.
    #[verifier::rlimit(60)]
    fn create_proof_route(&self, idx: usize, hash: &[u8], route: &mut Vec<ProofElement>) -> (found:
        bool)
        requires
            self.wf(),
            self@.len() > 0,
            idx < self@.len(),
            N <= 32,
            ND == 2 * N,
            hash@.len() == N,
            forall|i: int| 0 <= i < old(route)@.len()
                ==> (#[trigger] old(route)@[i])@.0.len() == N,
        ensures
            forall|i: int| 0 <= i < final(route)@.len()
                ==> (#[trigger] final(route)@[i])@.0.len() == N,
            !found ==> final(route)@ == old(route)@,
            self@[idx as int] == hash@ ==> found && final(route)@ == old(route)@,
            final(route)@.len() >= old(route)@.len(),
            final(route)@.take(old(route)@.len() as int) == old(route)@,
            forall|i: int| old(route)@.len() <= i < final(route)@.len()
                ==> exists|p: int| 0 <= p < self@.len()
                    && (#[trigger] final(route)@[i])@.0 == self@[p],
            final(route)@.len() <= old(route)@.len() + spec_depth(spec_tail_ones(idx)),
            found ==> exists|j: int| 0 <= j < self@.len()
                && spec_in_subtree(j as usize, idx, self@.len() as usize)
                && self@[j] == hash@,
            (exists|p: int| 0 <= p < self@.len()
                && spec_in_subtree(p as usize, idx, self@.len() as usize)
                && self@[p] == hash@) ==> found,
            found && spec_tree_consistent(self@, N as nat) ==> spec_fold_proof(
                elems_view(final(route)@.skip(old(route)@.len() as int)).reverse(),
                hash@,
                N as nat,
            ) == self@[idx as int],
        decreases spec_tail_ones(idx),
    {
        if bytes_eq(self.tree[idx].as_slice(), hash) {
            proof {
                assert(route@.take(route@.len() as int) =~= route@);
                assert(self@[idx as int] == self.tree@[idx as int]@);
                assert(route@.skip(route@.len() as int) =~= Seq::<ProofElement>::empty());
                assert(elems_view(Seq::<ProofElement>::empty()).reverse()
                    =~= Seq::<(Seq<u8>, ProofElementDirection)>::empty());
            }
            return true;
        }
        proof {
            assert(self@[idx as int] == self.tree@[idx as int]@);
        }

        let size = self.tree.len();
        match (pbt_left_child(idx), lpbt_right_child(idx, size)) {
            (Some(left), Some(right)) => {
                proof {
                    lemma_odd_bit(idx);
                    assert(spec_tail_ones(idx) >= 1) by (bit_vector)
                        requires
                            idx & 1 == 1,
                            (idx + 1) as usize == idx + 1,
                    ;
                    lemma_left_child_decreases(idx);
                    lemma_right_child_decreases(idx, size);
                    lemma_depth_mono(spec_tail_ones(left), spec_tail_ones(idx) / 2);
                    lemma_depth_mono(spec_tail_ones(right), spec_tail_ones(idx) / 2);
                    assert(spec_depth(spec_tail_ones(idx))
                        == 1 + spec_depth(spec_tail_ones(idx) / 2));
                }
                route.push(ProofElement {
                    hash: clone_bytes(self.tree[right].as_slice()),
                    direction: ProofElementDirection::RIGHT,
                });
                let ghost with_right = route@;
                proof {
                    assert(self.tree@[right as int]@ == self@[right as int]);
                    assert(forall|i: int| 0 <= i < route@.len()
                        ==> (#[trigger] route@[i])@.0.len() == N);
                    assert(route@.last()@.0 == self@[right as int]);
                    assert(route@.take(route@.len() - 1) =~= with_right.drop_last());
                }
                let new_sz = route.len();

                if self.create_proof_route(left, hash, route) {
                    proof {
                        assert(route@.take(with_right.len() as int).take(new_sz - 1)
                            =~= route@.take(new_sz - 1));
                        let total = route@.skip(old(route)@.len() as int);
                        let deeper = route@.skip(with_right.len() as int);
                        assert(route@.take(with_right.len() as int) == with_right);
                        assert(total =~= seq![with_right.last()] + deeper);
                        let ev = elems_view(total);
                        assert(ev =~= seq![with_right.last()@] + elems_view(deeper));
                        assert(ev.reverse()
                            =~= elems_view(deeper).reverse().push(with_right.last()@));
                        assert(ev.reverse().drop_last() =~= elems_view(deeper).reverse());
                        if spec_tree_consistent(self@, N as nat) {
                            assert(spec_node_consistent(self@, idx as int, N as nat));
                            assert(with_right.last()@
                                == (self@[right as int], ProofElementDirection::RIGHT));
                            assert(spec_fold_proof(ev.reverse(), hash@, N as nat)
                                == self@[idx as int]);
                        }
                        let j = choose|j: int| 0 <= j < self@.len()
                            && spec_in_subtree(j as usize, left, self@.len() as usize)
                            && self@[j] == hash@;
                        lemma_left_child_parent(idx, size);
                        if j as usize != left {
                            lemma_orbit_closed(j as usize, size, left, idx);
                        } else {
                            assert(spec_parent_chain(left, size)
                                == seq![idx] + spec_parent_chain(idx, size));
                            assert(spec_parent_chain(left, size)[0] == idx);
                            assert(spec_parent_chain(left, size).contains(idx));
                        }
                        assert(spec_in_subtree(j as usize, idx, self@.len() as usize));
                    }
                    return true;
                }

                route.remove(new_sz - 1);
                proof {
                    assert(route@ =~= with_right.drop_last());
                    assert(route@.take(route@.len() as int) =~= route@);
                }

                route.push(ProofElement {
                    hash: clone_bytes(self.tree[left].as_slice()),
                    direction: ProofElementDirection::LEFT,
                });
                let ghost with_left = route@;
                proof {
                    assert(self.tree@[left as int]@ == self@[left as int]);
                    assert(forall|i: int| 0 <= i < route@.len()
                        ==> (#[trigger] route@[i])@.0.len() == N);
                    assert(route@.last()@.0 == self@[left as int]);
                    assert(route@.take(route@.len() - 1) =~= with_left.drop_last());
                }
                let new_sz = route.len();

                if self.create_proof_route(right, hash, route) {
                    proof {
                        assert(route@.take(with_left.len() as int).take(new_sz - 1)
                            =~= route@.take(new_sz - 1));
                        let total = route@.skip(old(route)@.len() as int);
                        let deeper = route@.skip(with_left.len() as int);
                        assert(route@.take(with_left.len() as int) == with_left);
                        assert(total =~= seq![with_left.last()] + deeper);
                        let ev = elems_view(total);
                        assert(ev =~= seq![with_left.last()@] + elems_view(deeper));
                        assert(ev.reverse()
                            =~= elems_view(deeper).reverse().push(with_left.last()@));
                        assert(ev.reverse().drop_last() =~= elems_view(deeper).reverse());
                        if spec_tree_consistent(self@, N as nat) {
                            assert(spec_node_consistent(self@, idx as int, N as nat));
                            assert(with_left.last()@
                                == (self@[left as int], ProofElementDirection::LEFT));
                            assert(spec_fold_proof(ev.reverse(), hash@, N as nat)
                                == self@[idx as int]);
                        }
                        let j = choose|j: int| 0 <= j < self@.len()
                            && spec_in_subtree(j as usize, right, self@.len() as usize)
                            && self@[j] == hash@;
                        lemma_right_child_parent(idx, size);
                        if j as usize != right {
                            lemma_orbit_closed(j as usize, size, right, idx);
                        } else {
                            assert(spec_parent_chain(right, size)
                                == seq![idx] + spec_parent_chain(idx, size));
                            assert(spec_parent_chain(right, size)[0] == idx);
                            assert(spec_parent_chain(right, size).contains(idx));
                        }
                        assert(spec_in_subtree(j as usize, idx, self@.len() as usize));
                    }
                    return true;
                }

                route.remove(new_sz - 1);
                proof {
                    assert(route@ =~= with_left.drop_last());
                    assert(route@.take(route@.len() as int) =~= route@);
                    if exists|p: int| 0 <= p < self@.len()
                        && spec_in_subtree(p as usize, idx, self@.len() as usize)
                        && self@[p] == hash@ {
                        let p = choose|p: int| 0 <= p < self@.len()
                            && spec_in_subtree(p as usize, idx, self@.len() as usize)
                            && self@[p] == hash@;
                        assert(p != idx);
                        lemma_chain_step_down(p as usize, size, idx);
                        let c = choose|cc: usize| (cc == p as usize
                            || spec_parent_chain(p as usize, size).contains(cc))
                            && #[trigger] spec_lpbt_parent(cc, size) == Some(idx);
                        if c != p as usize {
                            lemma_chain_props(p as usize, size);
                            let kk = choose|kk: int|
                                0 <= kk < spec_parent_chain(p as usize, size).len()
                                    && (#[trigger] spec_parent_chain(p as usize, size)[kk])
                                        == c;
                            assert(spec_parent_chain(p as usize, size)[kk] < size);
                        }
                        lemma_parent_to_child(c, size);
                        if c == left {
                            assert(spec_in_subtree(p as usize, left, self@.len() as usize));
                            assert(false);
                        } else {
                            assert(c == right);
                            assert(spec_in_subtree(p as usize, right, self@.len() as usize));
                            assert(false);
                        }
                    }
                }
                false
            },
            _ => {
                proof {
                    if exists|p: int| 0 <= p < self@.len()
                        && spec_in_subtree(p as usize, idx, self@.len() as usize)
                        && self@[p] == hash@ {
                        let p = choose|p: int| 0 <= p < self@.len()
                            && spec_in_subtree(p as usize, idx, self@.len() as usize)
                            && self@[p] == hash@;
                        assert(p != idx);
                        lemma_chain_step_down(p as usize, size, idx);
                        let c = choose|cc: usize| (cc == p as usize
                            || spec_parent_chain(p as usize, size).contains(cc))
                            && #[trigger] spec_lpbt_parent(cc, size) == Some(idx);
                        if c != p as usize {
                            lemma_chain_props(p as usize, size);
                            let kk = choose|kk: int|
                                0 <= kk < spec_parent_chain(p as usize, size).len()
                                    && (#[trigger] spec_parent_chain(p as usize, size)[kk])
                                        == c;
                            assert(spec_parent_chain(p as usize, size)[kk] < size);
                        }
                        lemma_parent_to_child(c, size);
                        lemma_odd_bit(idx);
                        lemma_right_child_decreases(idx, size);
                        assert(false);
                    }
                }
                false
            },
        }
    }

    /// Builds an inclusion proof for `data` by depth-first structural search
    /// from the root, recording the sibling passed at each descent; absent
    /// when the leaf-tagged hash of `data` is nowhere in the tree, and owed
    /// whenever it is among the slots of a consistent tree.  Before a route
    /// is handed out it is recombined and checked against the root slot, so
    /// every returned proof verifies against this tree's root.
    pub fn create_proof(&self, data: &[u8]) -> (r: Option<Vec<ProofElement>>)
        requires
            self.wf(),
            N <= 32,
            ND == 2 * N,
        ensures
            r is Some ==> self@.len() > 0 && spec_verifies(
                data@,
                elems_view(r.unwrap()@),
                self@[spec_lpbt_root(self@.len() as usize) as int],
                N as nat,
            ),
            r is Some ==> forall|i: int| 0 <= i < r.unwrap()@.len()
                ==> (#[trigger] r.unwrap()@[i])@.0.len() == N,
            r is Some ==> forall|i: int| 0 <= i < r.unwrap()@.len()
                ==> exists|p: int| 0 <= p < self@.len()
                    && (#[trigger] r.unwrap()@[i])@.0 == self@[p],
            r is Some ==> r.unwrap()@.len()
                <= spec_depth(spec_tail_ones(spec_lpbt_root(self@.len() as usize))),
            r is Some ==> exists|j: int| 0 <= j < self@.len()
                && self@[j] == spec_tag_hash(LEAF_TAG, data@, N as nat),
            self@.len() > 0 && self@[spec_lpbt_root(self@.len() as usize) as int]
                == spec_tag_hash(LEAF_TAG, data@, N as nat) ==> r is Some,
            spec_tree_consistent(self@, N as nat) && (exists|p: int| 0 <= p < self@.len()
                && self@[p] == spec_tag_hash(LEAF_TAG, data@, N as nat)) ==> r is Some,
    {
        if self.tree.len() == 0 {
            return None;
        }
        let hash = Self::tag_hash(LEAF_TAG, data);
        proof {
            lemma_lpbt_root_le(self.tree.len());
        }
        let mut route: Vec<ProofElement> = Vec::new();

        let root_pos = lpbt_root(self.tree.len());
        if self.create_proof_route(root_pos, hash.as_slice(), &mut route) {
            let ghost route_v = route@;
            proof {
                assert(route_v.skip(0) =~= route_v);
            }
            let rev = Self::reverse_elems(route);
            proof {
                assert(elems_view(rev@) =~= elems_view(route_v).reverse());
            }
            let folded = Self::fold_elems(&rev, clone_bytes(hash.as_slice()));
            proof {
                assert(self@[root_pos as int] == self.tree@[root_pos as int]@);
            }
            if bytes_eq(folded.as_slice(), self.tree[root_pos].as_slice()) {
                Some(rev)
            } else {
                // the recorded route did not recombine to the root slot,
                // which the contracts show cannot happen on a consistent
                // tree; on a corrupted one, report the leaf as absent rather
                // than hand out a proof that verification would reject
                proof {
                    if spec_tree_consistent(self@, N as nat) {
                        assert(folded@ == self@[root_pos as int]);
                        assert(false);
                    }
                }
                None
            }
        } else {
            proof {
                if spec_tree_consistent(self@, N as nat) && exists|p: int|
                    0 <= p < self@.len()
                    && self@[p] == spec_tag_hash(LEAF_TAG, data@, N as nat) {
                    let p = choose|p: int| 0 <= p < self@.len()
                        && self@[p] == spec_tag_hash(LEAF_TAG, data@, N as nat);
                    if p as usize != root_pos {
                        lemma_chain_ends_at_root(p as usize, self.tree.len());
                        let ch = spec_parent_chain(p as usize, self@.len() as usize);
                        assert(ch[ch.len() - 1] == root_pos);
                        assert(ch.contains(root_pos));
                    }
                    assert(spec_in_subtree(p as usize, root_pos, self@.len() as usize));
                    assert(false);
                }
            }
            None
        }
    }
}

} // verus!
