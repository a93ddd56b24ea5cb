//! The state transitions of a collection: create, mint into, and transfer within
//! a tree whose only durable form is its state blob.
use vstd::prelude::*;

use crate::codec::{base58_of, blob_state, decode, encode, layout};
use crate::error::MirrorError;
use crate::leaf::{hash_leaf, leaf_preimage, transferred_leaf, LeafSchema};
use crate::node::{keccak256, Node};
use crate::tree::{lemma_pow2_monotone, pow2, proof_of, root_of, views, MerkleTreeMirror};

verus! {

/// The all-zero node that fills every unused leaf.
pub open spec fn zero_node() -> Seq<u8> {
    Seq::new(32, |j: int| 0u8)
}

/// The leaves of a fresh tree of `depth`.
pub open spec fn empty_leaves(depth: nat) -> Seq<Seq<u8>> {
    Seq::new(pow2(depth), |i: int| zero_node())
}

/// The leaves after leaf `index` is overwritten with the digest of `leaf`.
pub open spec fn with_leaf(leaves: Seq<Seq<u8>>, index: nat, leaf: LeafSchema) -> Seq<Seq<u8>> {
    leaves.update(index as int, keccak256(leaf_preimage(leaf)))
}

/// The blob of a tree of `depth` over `leaves`.
pub open spec fn blob_of(leaves: Seq<Seq<u8>>, depth: nat) -> Seq<char> {
    base58_of(layout(leaves, root_of(leaves, depth)))
}

/// What a transfer hands back: the new blob, and the proof, root and new state
/// that the ledger instruction needs.
pub struct TransferOutcome {
    pub blob: String,
    /// The proof of the asset's leaf against `root`, before the transfer.
    pub proof: Vec<Node>,
    /// The root before the transfer.
    pub root: Node,
    pub leaf: LeafSchema,
}

/// A tree of `depth` whose leaves are all zero.
pub fn empty_tree(depth: usize) -> (r: MerkleTreeMirror)
    requires
        pow2(depth as nat) <= usize::MAX,
    ensures
        r.wf(),
        r.spec_depth() == depth,
        r.leaves() == empty_leaves(depth as nat),
{
    let mut p: usize = 1;
    let mut k: usize = 0;
    while k < depth
        invariant
            k <= depth,
            p == pow2(k as nat),
            pow2(depth as nat) <= usize::MAX,
        decreases depth - k,
    {
        proof {
            lemma_pow2_monotone((k + 1) as nat, depth as nat);
        }
        p = p * 2;
        k += 1;
    }
    let zero: Node = [0u8; 32];
    assert(zero@ =~= zero_node());
    let mut leaves: Vec<Node> = Vec::new();
    let mut i: usize = 0;
    while i < p
        invariant
            i <= p,
            zero@ == zero_node(),
            leaves@.len() == i,
            forall|j: int| 0 <= j < i ==> #[trigger] leaves@[j]@ == zero_node(),
        decreases p - i,
    {
        leaves.push(zero);
        i += 1;
    }
    assert(views(leaves@) =~= empty_leaves(depth as nat));
    MerkleTreeMirror::new(leaves, depth).unwrap()
}

/// The blob of a fresh tree of `depth`.
pub fn build_empty_tree(depth: usize) -> (r: String)
    requires
        pow2(depth as nat) <= usize::MAX,
    ensures
        r@ == blob_of(empty_leaves(depth as nat), depth as nat),
{
    encode(&empty_tree(depth))
}

/// Records the minting of `leaf` in the tree that `blob` holds: the leaf at the
/// asset's nonce becomes the asset's digest. Gives the new blob and that digest.
pub fn apply_mint(blob: &str, depth: usize, leaf: &LeafSchema) -> (r: Result<(String, Node), MirrorError>)
    ensures
        blob_state(blob@, depth as nat) is Err ==> r == Err::<(String, Node), MirrorError>(
            blob_state(blob@, depth as nat)->Err_0,
        ),
        blob_state(blob@, depth as nat) is Ok ==> {
            let leaves = blob_state(blob@, depth as nat)->Ok_0;
            &&& leaf.nonce >= pow2(depth as nat) ==> r == Err::<(String, Node), MirrorError>(
                MirrorError::IndexOutOfRange,
            )
            &&& leaf.nonce < pow2(depth as nat) ==> r is Ok && r->Ok_0.1@ == keccak256(leaf_preimage(*leaf))
                && r->Ok_0.0@ == blob_of(with_leaf(leaves, leaf.nonce as nat, *leaf), depth as nat)
        },
{
    let hash = hash_leaf(leaf);
    let mut tree = match decode(blob, depth) {
        Ok(t) => t,
        Err(e) => return Err(e),
    };
    proof {
        tree.lemma_leaf_count();
    }
    if leaf.nonce > usize::MAX as u64 {
        return Err(MirrorError::IndexOutOfRange);
    }
    match tree.add_leaf(hash, leaf.nonce as usize) {
        Ok(()) => {},
        Err(e) => return Err(e),
    }
    Ok((encode(&tree), hash))
}

/// Records the transfer of the asset whose current state is `leaf` to
/// `new_owner`. Gives the new blob, and the proof and root of the asset's leaf
/// as they stood before the transfer.
pub fn apply_transfer(blob: &str, depth: usize, leaf: &LeafSchema, new_owner: &[u8; 32]) -> (r: Result<
    TransferOutcome,
    MirrorError,
>)
    ensures
        blob_state(blob@, depth as nat) is Err ==> r is Err && r->Err_0 == blob_state(blob@, depth as nat)->Err_0,
        blob_state(blob@, depth as nat) is Ok ==> {
            let leaves = blob_state(blob@, depth as nat)->Ok_0;
            let moved = LeafSchema { owner: *new_owner, delegate: *new_owner, ..*leaf };
            &&& leaf.nonce >= pow2(depth as nat) ==> r is Err && r->Err_0 == MirrorError::IndexOutOfRange
            &&& leaf.nonce < pow2(depth as nat) ==> r is Ok && views(r->Ok_0.proof@) == proof_of(
                leaves,
                depth as nat,
                leaf.nonce as nat,
            ) && r->Ok_0.root@ == root_of(leaves, depth as nat) && r->Ok_0.leaf == moved && r->Ok_0.blob@
                == blob_of(with_leaf(leaves, leaf.nonce as nat, moved), depth as nat)
        },
{
    let mut tree = match decode(blob, depth) {
        Ok(t) => t,
        Err(e) => return Err(e),
    };
    proof {
        tree.lemma_leaf_count();
    }
    if leaf.nonce > usize::MAX as u64 {
        return Err(MirrorError::IndexOutOfRange);
    }
    let index = leaf.nonce as usize;
    let path = match tree.get_proof_of_leaf(index) {
        Ok(p) => p,
        Err(e) => return Err(e),
    };
    let root = tree.get_root();
    let moved = transferred_leaf(leaf, new_owner);
    let hash = hash_leaf(&moved);
    match tree.add_leaf(hash, index) {
        Ok(()) => {},
        Err(e) => return Err(e),
    }
    Ok(TransferOutcome { blob: encode(&tree), proof: path, root, leaf: moved })
}

} // verus!
