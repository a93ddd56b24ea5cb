//! The fixed-depth Merkle tree mirror: construction, leaf replacement and proofs.
use vstd::prelude::*;

use crate::error::MirrorError;
use crate::node::{combine, hash_pair, Node};

verus! {

/// Two to the power of `n`.
pub open spec fn pow2(n: nat) -> nat
    decreases n,
{
    if n == 0 {
        1
    } else {
        2 * pow2((n - 1) as nat)
    }
}

/// The byte strings that a sequence of nodes holds.
pub open spec fn views(s: Seq<Node>) -> Seq<Seq<u8>> {
    s.map_values(|n: Node| n@)
}

/// The node `height` levels above the leaves, `index`-th from the left.
pub open spec fn subtree(leaves: Seq<Seq<u8>>, height: nat, index: nat) -> Seq<u8>
    decreases height,
{
    if height == 0 {
        leaves[index as int]
    } else {
        combine(
            subtree(leaves, (height - 1) as nat, 2 * index),
            subtree(leaves, (height - 1) as nat, 2 * index + 1),
        )
    }
}

/// The root of a tree of the given depth over `leaves`.
pub open spec fn root_of(leaves: Seq<Seq<u8>>, depth: nat) -> Seq<u8> {
    subtree(leaves, depth, 0)
}

/// The position that shares a parent with `pos`.
pub open spec fn sibling(pos: nat) -> nat {
    if pos % 2 == 0 {
        pos + 1
    } else {
        (pos - 1) as nat
    }
}

/// The position, `height` levels up, of the node above leaf `leaf`.
pub open spec fn ancestor(leaf: nat, height: nat) -> nat
    decreases height,
{
    if height == 0 {
        leaf
    } else {
        ancestor(leaf, (height - 1) as nat) / 2
    }
}

/// The siblings met when climbing from position `pos` at `height` to the root.
pub open spec fn proof_from(leaves: Seq<Seq<u8>>, height: nat, depth: nat, pos: nat) -> Seq<Seq<u8>>
    decreases depth - height,
{
    if height >= depth {
        Seq::empty()
    } else {
        seq![subtree(leaves, height, sibling(pos))] + proof_from(leaves, height + 1, depth, pos / 2)
    }
}

/// The inclusion proof of leaf `index`: its siblings from the leaf level up.
pub open spec fn proof_of(leaves: Seq<Seq<u8>>, depth: nat, index: nat) -> Seq<Seq<u8>> {
    proof_from(leaves, 0, depth, index)
}

/// The root obtained by folding `proof` into `node` along the bits of `pos`.
pub open spec fn path_root(node: Seq<u8>, proof: Seq<Seq<u8>>, pos: nat) -> Seq<u8>
    decreases proof.len(),
{
    if proof.len() == 0 {
        node
    } else {
        let parent = if pos % 2 == 0 {
            combine(node, proof[0])
        } else {
            combine(proof[0], node)
        };
        path_root(parent, proof.drop_first(), pos / 2)
    }
}

proof fn lemma_pow2_positive(n: nat)
    ensures
        pow2(n) >= 1,
    decreases n,
{
    if n > 0 {
        lemma_pow2_positive((n - 1) as nat);
    }
}

/// Two to the power of a larger exponent is no smaller.
pub proof fn lemma_pow2_monotone(a: nat, b: nat)
    requires
        a <= b,
    ensures
        pow2(a) <= pow2(b),
    decreases b,
{
    if a < b {
        lemma_pow2_monotone(a, (b - 1) as nat);
        lemma_pow2_positive((b - 1) as nat);
    }
}

/// A leaf outside the span of a node does not affect that node.
proof fn lemma_subtree_frame(
    leaves: Seq<Seq<u8>>,
    depth: nat,
    leaf: nat,
    value: Seq<u8>,
    height: nat,
    index: nat,
)
    requires
        leaves.len() == pow2(depth),
        leaf < leaves.len(),
        height <= depth,
        index < pow2((depth - height) as nat),
        ancestor(leaf, height) != index,
    ensures
        subtree(leaves.update(leaf as int, value), height, index) == subtree(leaves, height, index),
    decreases height,
{
    if height > 0 {
        let h = (height - 1) as nat;
        assert(pow2((depth - h) as nat) == 2 * pow2((depth - height) as nat));
        lemma_subtree_frame(leaves, depth, leaf, value, h, 2 * index);
        lemma_subtree_frame(leaves, depth, leaf, value, h, 2 * index + 1);
    }
}

/// Climbing from a node with its proof reaches the root.
proof fn lemma_path_root_from(leaves: Seq<Seq<u8>>, depth: nat, height: nat, pos: nat)
    requires
        height <= depth,
        pos < pow2((depth - height) as nat),
    ensures
        proof_from(leaves, height, depth, pos).len() == depth - height,
        path_root(subtree(leaves, height, pos), proof_from(leaves, height, depth, pos), pos)
            == root_of(leaves, depth),
    decreases depth - height,
{
    if height < depth {
        let up = height + 1;
        assert(pow2((depth - height) as nat) == 2 * pow2((depth - up) as nat));
        lemma_path_root_from(leaves, depth, up, pos / 2);
        let proof = proof_from(leaves, height, depth, pos);
        let rest = proof_from(leaves, up, depth, pos / 2);
        assert(proof.drop_first() =~= rest);
        assert(proof[0] == subtree(leaves, height, sibling(pos)));
        assert(subtree(leaves, up, pos / 2) == combine(
            subtree(leaves, height, 2 * (pos / 2)),
            subtree(leaves, height, 2 * (pos / 2) + 1),
        ));
    }
}

/// Folding the proof of leaf `index` into that leaf reproduces the root, and the
/// proof holds exactly one sibling per level.
pub proof fn lemma_proof_reproduces_root(leaves: Seq<Seq<u8>>, depth: nat, index: nat)
    requires
        leaves.len() == pow2(depth),
        index < pow2(depth),
    ensures
        proof_of(leaves, depth, index).len() == depth,
        path_root(leaves[index as int], proof_of(leaves, depth, index), index) == root_of(leaves, depth),
{
    lemma_path_root_from(leaves, depth, 0, index);
}

/// Writing into a leaf the value it already holds leaves the root as it was: a
/// root that changes after an update means the leaf held another value.
pub proof fn lemma_same_leaf_keeps_root(leaves: Seq<Seq<u8>>, depth: nat, index: nat, leaf: Seq<u8>)
    requires
        index < leaves.len(),
        leaves[index as int] == leaf,
    ensures
        root_of(leaves.update(index as int, leaf), depth) == root_of(leaves, depth),
{
    assert(leaves.update(index as int, leaf) =~= leaves);
}

/// Applying the same update twice gives the root that applying it once gives.
pub proof fn lemma_update_idempotent(leaves: Seq<Seq<u8>>, depth: nat, index: nat, leaf: Seq<u8>)
    requires
        index < leaves.len(),
    ensures
        root_of(leaves.update(index as int, leaf).update(index as int, leaf), depth) == root_of(
            leaves.update(index as int, leaf),
            depth,
        ),
{
    assert(leaves.update(index as int, leaf).update(index as int, leaf) =~= leaves.update(index as int, leaf));
}

/// A tree of fixed depth over 32-byte nodes, held as one array per level: level 0
/// holds the leaves and level `depth` holds the root alone.
pub struct MerkleTreeMirror {
    depth: usize,
    levels: Vec<Vec<Node>>,
}

impl MerkleTreeMirror {
    /// The depth the tree was built with.
    pub closed spec fn spec_depth(&self) -> nat {
        self.depth as nat
    }

    /// The leaves, left to right.
    pub closed spec fn leaves(&self) -> Seq<Seq<u8>> {
        views(self.levels@[0]@)
    }

    /// The current root.
    pub open spec fn root(&self) -> Seq<u8> {
        root_of(self.leaves(), self.spec_depth())
    }

    /// Every level has its size and every stored node is the hash of its children.
    pub closed spec fn wf(&self) -> bool {
        &&& self.levels@.len() == self.depth + 1
        &&& self.levels@[0]@.len() <= usize::MAX
        &&& forall|k: int|
            0 <= k <= self.depth ==> #[trigger] self.levels@[k]@.len() == pow2((self.depth - k) as nat)
        &&& forall|k: int, i: int|
            0 <= k <= self.depth && 0 <= i < self.levels@[k]@.len() ==> #[trigger] self.levels@[k]@[i]@
                == subtree(self.leaves(), k as nat, i as nat)
    }

    /// The leaf set has exactly two to the power of the depth nodes.
    pub proof fn lemma_leaf_count(&self)
        requires
            self.wf(),
        ensures
            self.leaves().len() == pow2(self.spec_depth()),
            self.leaves().len() <= usize::MAX,
    {
        assert(self.levels@[0]@.len() == pow2((self.depth - 0) as nat));
    }

    /// Builds the tree over `leaves`, whose number must be two to the power of `depth`.
    pub fn new(leaves: Vec<Node>, depth: usize) -> (r: Result<Self, MirrorError>)
        ensures
            r is Ok <==> leaves@.len() == pow2(depth as nat),
            r is Ok ==> r->Ok_0.wf() && r->Ok_0.spec_depth() == depth && r->Ok_0.leaves() == views(leaves@),
            r is Err ==> r->Err_0 == MirrorError::InvalidLeafCount,
    {
        let n = leaves.len();
        let mut p: usize = 1;
        let mut k: usize = 0;
        while k < depth
            invariant
                k <= depth,
                p == pow2(k as nat),
                n == leaves@.len(),
            decreases depth - k,
        {
            if p > n / 2 {
                proof {
                    assert(pow2((k + 1) as nat) == 2 * p);
                    assert(2 * p > n);
                    lemma_pow2_monotone((k + 1) as nat, depth as nat);
                }
                return Err(MirrorError::InvalidLeafCount);
            }
            p = p * 2;
            k += 1;
        }
        if p != n {
            return Err(MirrorError::InvalidLeafCount);
        }
        let ghost lv = views(leaves@);
        let mut levels: Vec<Vec<Node>> = Vec::new();
        levels.push(leaves);
        let mut k: usize = 0;
        while k < depth
            invariant
                k <= depth,
                levels@.len() == k + 1,
                views(levels@[0]@) == lv,
                forall|j: int| 0 <= j <= k ==> #[trigger] levels@[j]@.len() == pow2((depth - j) as nat),
                forall|j: int, i: int|
                    0 <= j <= k && 0 <= i < levels@[j]@.len() ==> #[trigger] levels@[j]@[i]@
                        == subtree(lv, j as nat, i as nat),
            decreases depth - k,
        {
            let ghost len = levels@[k as int]@.len();
            assert(len == pow2((depth - k) as nat));
            assert(pow2((depth - k) as nat) == 2 * pow2((depth - (k + 1)) as nat));
            let row_len = levels[k].len();
            let half = row_len / 2;
            let mut next: Vec<Node> = Vec::new();
            let mut i: usize = 0;
            while i < half
                invariant
                    i <= half,
                    half * 2 == row_len,
                    row_len == len,
                    len == levels@[k as int]@.len(),
                    next@.len() == i,
                    k < levels@.len(),
                    forall|j: int, m: int|
                        0 <= j <= k && 0 <= m < levels@[j]@.len() ==> #[trigger] levels@[j]@[m]@
                            == subtree(lv, j as nat, m as nat),
                    forall|m: int| 0 <= m < i ==> #[trigger] next@[m]@ == subtree(lv, (k + 1) as nat, m as nat),
                decreases half - i,
            {
                let h = hash_pair(&levels[k][2 * i], &levels[k][2 * i + 1]);
                next.push(h);
                i += 1;
            }
            levels.push(next);
            k += 1;
        }
        let r = MerkleTreeMirror { depth, levels };
        assert(r.leaves() == lv);
        Ok(r)
    }

    /// Every leaf and the root are 32 bytes long.
    pub proof fn lemma_node_lengths(&self)
        requires
            self.wf(),
        ensures
            self.root().len() == 32,
            forall|i: int| 0 <= i < self.leaves().len() ==> (#[trigger] self.leaves()[i]).len() == 32,
    {
        let d = self.depth as int;
        assert(self.levels@[d]@.len() == pow2((self.depth - d) as nat));
        assert(self.levels@[d]@[0]@ == subtree(self.leaves(), d as nat, 0));
    }

    /// A copy of the leaves.
    pub fn leaf_nodes(&self) -> (r: Vec<Node>)
        requires
            self.wf(),
        ensures
            views(r@) == self.leaves(),
    {
        let row = &self.levels[0];
        let mut out: Vec<Node> = Vec::new();
        let mut i: usize = 0;
        while i < row.len()
            invariant
                i <= row@.len(),
                self.wf(),
                row@ == self.levels@[0]@,
                out@.len() == i,
                forall|j: int| 0 <= j < i ==> out@[j] == row@[j],
            decreases row@.len() - i,
        {
            out.push(row[i]);
            i += 1;
        }
        assert(out@ =~= row@);
        out
    }

    /// The depth the tree was built with.
    pub fn depth(&self) -> (r: usize)
        ensures
            r == self.spec_depth(),
    {
        self.depth
    }

    /// The current root.
    pub fn get_root(&self) -> (r: Node)
        requires
            self.wf(),
        ensures
            r@ == self.root(),
    {
        let d = self.depth;
        assert(self.levels@[d as int]@.len() == pow2((self.depth - d) as nat));
        self.levels[d][0]
    }

    /// The leaf at `index`.
    pub fn get_leaf(&self, index: usize) -> (r: Result<Node, MirrorError>)
        requires
            self.wf(),
        ensures
            r is Ok <==> index < pow2(self.spec_depth()),
            r is Ok ==> r->Ok_0@ == self.leaves()[index as int],
            r is Err ==> r->Err_0 == MirrorError::IndexOutOfRange,
    {
        proof {
            self.lemma_leaf_count();
        }
        if index >= self.levels[0].len() {
            return Err(MirrorError::IndexOutOfRange);
        }
        Ok(self.levels[0][index])
    }

    /// Overwrites leaf `index` with `leaf` and recomputes the nodes above it.
    pub fn add_leaf(&mut self, leaf: Node, index: usize) -> (r: Result<(), MirrorError>)
        requires
            old(self).wf(),
        ensures
            final(self).wf(),
            final(self).spec_depth() == old(self).spec_depth(),
            r is Ok <==> index < pow2(old(self).spec_depth()),
            r is Ok ==> final(self).leaves() == old(self).leaves().update(index as int, leaf@),
            r is Err ==> r->Err_0 == MirrorError::IndexOutOfRange && *final(self) == *old(self),
    {
        proof {
            self.lemma_leaf_count();
        }
        if index >= self.levels[0].len() {
            return Err(MirrorError::IndexOutOfRange);
        }
        let ghost before = self.leaves();
        let ghost depth = self.depth as nat;
        self.levels[0].set(index, leaf);
        let ghost after = self.leaves();
        assert(after == before.update(index as int, leaf@));
        let mut k: usize = 0;
        let mut pos: usize = index;
        while k < self.depth
            invariant
                k <= self.depth,
                self.depth == depth,
                self.levels@.len() == self.depth + 1,
                self.leaves() == after,
                after == before.update(index as int, leaf@),
                before.len() == pow2(depth),
                index < before.len(),
                pos == ancestor(index as nat, k as nat),
                pos < pow2((depth - k) as nat),
                forall|j: int|
                    0 <= j <= self.depth ==> #[trigger] self.levels@[j]@.len() == pow2((self.depth - j) as nat),
                forall|j: int, i: int|
                    0 <= j <= k && 0 <= i < self.levels@[j]@.len() ==> #[trigger] self.levels@[j]@[i]@
                        == subtree(after, j as nat, i as nat),
                forall|j: int, i: int|
                    k < j <= self.depth && 0 <= i < self.levels@[j]@.len() ==> #[trigger] self.levels@[j]@[i]@
                        == subtree(before, j as nat, i as nat),
            decreases self.depth - k,
        {
            assert(self.levels@[k as int]@.len() == pow2((depth - k) as nat));
            assert(pow2((depth - k) as nat) == 2 * pow2((depth - (k + 1)) as nat));
            let up = pos / 2;
            let h = hash_pair(&self.levels[k][2 * up], &self.levels[k][2 * up + 1]);
            let ghost prev = self.levels@;
            self.levels[k + 1].set(up, h);
            proof {
                assert(self.levels@[0] == prev[0]);
                assert(self.levels@[k as int] == prev[k as int]);
                assert(ancestor(index as nat, (k + 1) as nat) == up);
                assert(self.levels@[k + 1]@ == prev[k + 1]@.update(up as int, h));
                assert(prev[k as int]@[2 * up as int]@ == subtree(after, k as nat, 2 * up as nat));
                assert(prev[k as int]@[2 * up + 1]@ == subtree(after, k as nat, 2 * up as nat + 1));
                assert forall|i: int| 0 <= i < self.levels@[k + 1]@.len() implies #[trigger] self.levels@[k
                    + 1]@[i]@ == subtree(after, (k + 1) as nat, i as nat) by {
                    if i == up {
                        assert(subtree(after, (k + 1) as nat, i as nat) == combine(
                            subtree(after, k as nat, 2 * up as nat),
                            subtree(after, k as nat, 2 * up as nat + 1),
                        ));
                    } else {
                        assert(prev[k + 1]@[i]@ == subtree(before, (k + 1) as nat, i as nat));
                        lemma_subtree_frame(before, depth, index as nat, leaf@, (k + 1) as nat, i as nat);
                    }
                }
            }
            pos = up;
            k += 1;
        }
        Ok(())
    }

    /// The siblings of leaf `index` from the leaf level up to the root.
    pub fn get_proof_of_leaf(&self, index: usize) -> (r: Result<Vec<Node>, MirrorError>)
        requires
            self.wf(),
        ensures
            r is Ok <==> index < pow2(self.spec_depth()),
            r is Ok ==> views(r->Ok_0@) == proof_of(self.leaves(), self.spec_depth(), index as nat),
            r is Err ==> r->Err_0 == MirrorError::IndexOutOfRange,
    {
        proof {
            self.lemma_leaf_count();
        }
        if index >= self.levels[0].len() {
            return Err(MirrorError::IndexOutOfRange);
        }
        let ghost leaves = self.leaves();
        let ghost depth = self.depth as nat;
        let mut path: Vec<Node> = Vec::new();
        let mut k: usize = 0;
        let mut pos: usize = index;
        while k < self.depth
            invariant
                self.wf(),
                leaves == self.leaves(),
                depth == self.depth,
                k <= self.depth,
                pos < pow2((depth - k) as nat),
                views(path@) + proof_from(leaves, k as nat, depth, pos as nat) == proof_of(leaves, depth, index as nat),
            decreases self.depth - k,
        {
            assert(self.levels@[k as int]@.len() == pow2((depth - k) as nat));
            assert(pow2((depth - k) as nat) == 2 * pow2((depth - (k + 1)) as nat));
            let other = if pos % 2 == 0 { pos + 1 } else { pos - 1 };
            let ghost old_path = views(path@);
            path.push(self.levels[k][other]);
            proof {
                assert(views(path@) =~= old_path.push(subtree(leaves, k as nat, other as nat)));
                assert(proof_from(leaves, k as nat, depth, pos as nat) == seq![subtree(leaves, k as nat, other as nat)]
                    + proof_from(leaves, (k + 1) as nat, depth, (pos / 2) as nat));
                assert(views(path@) + proof_from(leaves, (k + 1) as nat, depth, (pos / 2) as nat) =~= old_path
                    + proof_from(leaves, k as nat, depth, pos as nat));
            }
            pos = pos / 2;
            k += 1;
        }
        assert(views(path@) =~= views(path@) + proof_from(leaves, depth, depth, pos as nat));
        Ok(path)
    }
}

} // verus!
