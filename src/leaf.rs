//! The canonical digests of an asset's state: creators, leaf schema, asset id.
use vstd::prelude::*;

use solana_program::pubkey::Pubkey;

use crate::codec::le_bytes;
use crate::node::{keccak256, Node};

verus! {

/// One creator of an asset.
#[derive(Debug, Clone, Copy)]
pub struct Creator {
    pub address: [u8; 32],
    /// The percentage share.
    pub share: u8,
    pub verified: bool,
}

/// The state of one asset: the fields whose digest is the asset's leaf.
#[derive(Debug, Clone, Copy)]
pub struct LeafSchema {
    pub id: [u8; 32],
    pub owner: [u8; 32],
    pub delegate: [u8; 32],
    /// The asset's fixed position in the tree.
    pub nonce: u64,
    pub data_hash: Node,
    pub creator_hash: Node,
}

/// The schema version tag that leads every leaf preimage.
pub open spec fn leaf_version() -> u8 {
    1
}

/// The bytes that a creator contributes: address, verified flag, share.
pub open spec fn creator_bytes(c: Creator) -> Seq<u8> {
    c.address@ + seq![if c.verified { 1u8 } else { 0u8 }, c.share]
}

/// The bytes of all creators, in order.
pub open spec fn creators_preimage(cs: Seq<Creator>) -> Seq<u8>
    decreases cs.len(),
{
    if cs.len() == 0 {
        Seq::empty()
    } else {
        creators_preimage(cs.drop_last()) + creator_bytes(cs.last())
    }
}

/// The bytes whose digest is the leaf of `l`.
pub open spec fn leaf_preimage(l: LeafSchema) -> Seq<u8> {
    seq![leaf_version()] + l.id@ + l.owner@ + l.delegate@ + le_bytes(l.nonce as nat, 8) + l.data_hash@
        + l.creator_hash@
}

/// The address of the asset minted as number `nonce` into tree `tree`.
pub uninterp spec fn asset_id_of(tree: Seq<u8>, nonce: nat) -> Seq<u8>;

/// Relies on mpl_bubblegum's LeafSchema::hash: Keccak-256 over the version tag,
/// id, owner, delegate, little-endian nonce, data hash and creator hash.
#[verifier::external_body]
fn leaf_schema_hash(l: &LeafSchema) -> (r: Node)
    ensures
        r@ == keccak256(leaf_preimage(*l)),
{
    mpl_bubblegum::types::LeafSchema::V1 {
        id: Pubkey::new_from_array(l.id),
        owner: Pubkey::new_from_array(l.owner),
        delegate: Pubkey::new_from_array(l.delegate),
        nonce: l.nonce,
        data_hash: l.data_hash,
        creator_hash: l.creator_hash,
    }.hash()
}

/// Relies on mpl_bubblegum::hash::hash_creators: Keccak-256 over each creator's
/// address, verified flag and share, in order.
#[verifier::external_body]
fn creators_hash(creators: &[Creator]) -> (r: Node)
    ensures
        r@ == keccak256(creators_preimage(creators@)),
{
    let converted: Vec<mpl_bubblegum::types::Creator> = creators.iter().map(
        |c| mpl_bubblegum::types::Creator {
            address: Pubkey::new_from_array(c.address),
            verified: c.verified,
            share: c.share,
        },
    ).collect();
    mpl_bubblegum::hash::hash_creators(&converted)
}

/// Relies on mpl_bubblegum::utils::get_asset_id: the program address derived from
/// the tree and the nonce, a function of those two alone.
#[verifier::external_body]
fn asset_id(tree: &[u8; 32], nonce: u64) -> (r: [u8; 32])
    ensures
        r@ == asset_id_of(tree@, nonce as nat),
{
    mpl_bubblegum::utils::get_asset_id(&Pubkey::new_from_array(*tree), nonce).to_bytes()
}

/// The leaf digest of an asset's state.
pub fn hash_leaf(leaf: &LeafSchema) -> (r: Node)
    ensures
        r@ == keccak256(leaf_preimage(*leaf)),
{
    leaf_schema_hash(leaf)
}

/// The digest of an ordered creator list; reordering the list changes its input.
pub fn hash_creators(creators: &[Creator]) -> (r: Node)
    ensures
        r@ == keccak256(creators_preimage(creators@)),
{
    creators_hash(creators)
}

/// The state of the asset minted as number `num_minted` into tree `tree`, owned
/// and delegated to `owner`.
pub fn mint_leaf(tree: &[u8; 32], num_minted: u64, owner: &[u8; 32], data_hash: &Node, creator_hash: &Node) -> (r:
    LeafSchema)
    ensures
        r.id@ == asset_id_of(tree@, num_minted as nat),
        r.owner == *owner,
        r.delegate == *owner,
        r.nonce == num_minted,
        r.data_hash == *data_hash,
        r.creator_hash == *creator_hash,
{
    LeafSchema {
        id: asset_id(tree, num_minted),
        owner: *owner,
        delegate: *owner,
        nonce: num_minted,
        data_hash: *data_hash,
        creator_hash: *creator_hash,
    }
}

/// The state of the asset after a transfer to `new_owner`, who also becomes its
/// delegate; the asset keeps its position.
pub fn transferred_leaf(leaf: &LeafSchema, new_owner: &[u8; 32]) -> (r: LeafSchema)
    ensures
        r == (LeafSchema { owner: *new_owner, delegate: *new_owner, ..*leaf }),
{
    LeafSchema { owner: *new_owner, delegate: *new_owner, ..*leaf }
}

} // verus!
