//! Where a proof and its root come from: the local mirror, or the fields of a
//! remote indexer's responses.
use vstd::prelude::*;

use crate::codec::{base58_decode, base58_decoded, blob_state, decode};
use crate::error::MirrorError;
use crate::node::{vec_to_array, Node};
use crate::tree::{pow2, proof_of, root_of, views};

verus! {

/// An inclusion proof together with the root it leads to.
pub struct AssetProof {
    pub proof: Vec<Node>,
    pub root: Node,
}

/// The compression state of an asset as an indexer reports it.
#[derive(Debug, Clone, Copy)]
pub struct AssetData {
    pub creator_hash: Node,
    pub data_hash: Node,
    pub nonce: u64,
}

/// The fields of an indexer's answer to a proof request; `None` where the
/// answer lacks the field or it is not of the expected kind.
pub struct ProofResponse {
    pub root: Option<String>,
    /// The proof entries, leaf level first.
    pub nodes: Option<Vec<Option<String>>>,
}

/// The fields of an indexer's answer to an asset request; `None` where the
/// answer lacks the field or it is not of the expected kind.
pub struct AssetResponse {
    pub creator_hash: Option<String>,
    pub data_hash: Option<String>,
    pub leaf_id: Option<u64>,
}

/// What a base-58 hash field stands for: 32 bytes, or why not.
pub open spec fn hash_field(text: Seq<char>) -> Result<Seq<u8>, MirrorError> {
    match base58_decoded(text) {
        None => Err(MirrorError::MalformedIndexerResponse),
        Some(b) => if b.len() == 32 {
            Ok(b)
        } else {
            Err(MirrorError::MissingField)
        },
    }
}

/// What an optional hash field stands for.
pub open spec fn required_hash(field: Option<String>) -> Result<Seq<u8>, MirrorError> {
    match field {
        None => Err(MirrorError::MissingField),
        Some(t) => hash_field(t@),
    }
}

/// What a proof entry stands for; an entry that is not text is malformed.
pub open spec fn proof_entry(entry: Option<String>) -> Result<Seq<u8>, MirrorError> {
    match entry {
        None => Err(MirrorError::MalformedIndexerResponse),
        Some(t) => hash_field(t@),
    }
}

/// The nodes of all proof entries, or the failure of the first bad one.
pub open spec fn proof_entries(entries: Seq<Option<String>>) -> Result<Seq<Seq<u8>>, MirrorError>
    decreases entries.len(),
{
    if entries.len() == 0 {
        Ok(Seq::empty())
    } else {
        match proof_entries(entries.drop_last()) {
            Err(e) => Err(e),
            Ok(nodes) => match proof_entry(entries.last()) {
                Err(e) => Err(e),
                Ok(n) => Ok(nodes.push(n)),
            },
        }
    }
}

proof fn lemma_entries_error_persists(entries: Seq<Option<String>>, i: nat)
    requires
        i <= entries.len(),
        proof_entries(entries.subrange(0, i as int)) is Err,
    ensures
        proof_entries(entries) == proof_entries(entries.subrange(0, i as int)),
    decreases entries.len() - i,
{
    if i < entries.len() {
        let next = entries.subrange(0, (i + 1) as int);
        assert(next.drop_last() =~= entries.subrange(0, i as int));
        lemma_entries_error_persists(entries, i + 1);
    } else {
        assert(entries.subrange(0, i as int) =~= entries);
    }
}

/// Decodes one base-58 hash field into a node.
pub fn decode_hash(text: &str) -> (r: Result<Node, MirrorError>)
    ensures
        r is Ok <==> hash_field(text@) is Ok,
        r is Ok ==> r->Ok_0@ == hash_field(text@)->Ok_0,
        r is Err ==> r->Err_0 == hash_field(text@)->Err_0,
{
    match base58_decode(text) {
        None => Err(MirrorError::MalformedIndexerResponse),
        Some(bytes) => match vec_to_array(bytes) {
            Ok(n) => Ok(n),
            Err(_) => Err(MirrorError::MissingField),
        },
    }
}

fn decode_required(field: &Option<String>) -> (r: Result<Node, MirrorError>)
    ensures
        r is Ok <==> required_hash(*field) is Ok,
        r is Ok ==> r->Ok_0@ == required_hash(*field)->Ok_0,
        r is Err ==> r->Err_0 == required_hash(*field)->Err_0,
{
    match field {
        None => Err(MirrorError::MissingField),
        Some(t) => decode_hash(t.as_str()),
    }
}

/// The proof and root that an indexer reported, checked field by field: the
/// root first, then each proof entry in order.
pub fn parse_asset_proof(resp: &ProofResponse) -> (r: Result<AssetProof, MirrorError>)
    ensures
        required_hash(resp.root) is Err ==> r is Err && r->Err_0 == required_hash(resp.root)->Err_0,
        required_hash(resp.root) is Ok && resp.nodes is None ==> r is Err && r->Err_0 == MirrorError::MissingField,
        required_hash(resp.root) is Ok && resp.nodes is Some ==> match proof_entries(resp.nodes->0@) {
            Err(e) => r is Err && r->Err_0 == e,
            Ok(nodes) => r is Ok && r->Ok_0.root@ == required_hash(resp.root)->Ok_0 && views(r->Ok_0.proof@)
                == nodes,
        },
{
    let root = match decode_required(&resp.root) {
        Ok(n) => n,
        Err(e) => return Err(e),
    };
    let entries = match &resp.nodes {
        None => return Err(MirrorError::MissingField),
        Some(v) => v,
    };
    let mut path: Vec<Node> = Vec::new();
    let mut i: usize = 0;
    assert(entries@.subrange(0, 0) =~= Seq::<Option<String>>::empty());
    assert(views(path@) =~= Seq::<Seq<u8>>::empty());
    while i < entries.len()
        invariant
            i <= entries@.len(),
            required_hash(resp.root) is Ok,
            root@ == required_hash(resp.root)->Ok_0,
            resp.nodes == Some(*entries),
            proof_entries(entries@.subrange(0, i as int)) == Ok::<Seq<Seq<u8>>, MirrorError>(views(path@)),
        decreases entries@.len() - i,
    {
        let ghost prev = entries@.subrange(0, i as int);
        let ghost next = entries@.subrange(0, i + 1);
        assert(next.drop_last() =~= prev);
        assert(next.last() == entries@[i as int]);
        let entry = &entries[i];
        let node = match entry {
            None => Err(MirrorError::MalformedIndexerResponse),
            Some(t) => decode_hash(t.as_str()),
        };
        match node {
            Err(e) => {
                proof {
                    lemma_entries_error_persists(entries@, (i + 1) as nat);
                }
                return Err(e);
            },
            Ok(n) => {
                let ghost before = path@;
                path.push(n);
                assert(views(path@) =~= views(before).push(n@));
            },
        }
        i += 1;
    }
    assert(entries@.subrange(0, i as int) =~= entries@);
    Ok(AssetProof { proof: path, root })
}

/// The compression state that an indexer reported, checked field by field:
/// creator hash, data hash, then leaf id.
pub fn parse_asset_data(resp: &AssetResponse) -> (r: Result<AssetData, MirrorError>)
    ensures
        required_hash(resp.creator_hash) is Err ==> r is Err && r->Err_0 == required_hash(resp.creator_hash)->Err_0,
        required_hash(resp.creator_hash) is Ok && required_hash(resp.data_hash) is Err ==> r is Err && r->Err_0
            == required_hash(resp.data_hash)->Err_0,
        required_hash(resp.creator_hash) is Ok && required_hash(resp.data_hash) is Ok ==> match resp.leaf_id {
            None => r is Err && r->Err_0 == MirrorError::MissingField,
            Some(id) => r is Ok && r->Ok_0.creator_hash@ == required_hash(resp.creator_hash)->Ok_0
                && r->Ok_0.data_hash@ == required_hash(resp.data_hash)->Ok_0 && r->Ok_0.nonce == id,
        },
{
    let creator_hash = match decode_required(&resp.creator_hash) {
        Ok(n) => n,
        Err(e) => return Err(e),
    };
    let data_hash = match decode_required(&resp.data_hash) {
        Ok(n) => n,
        Err(e) => return Err(e),
    };
    match resp.leaf_id {
        None => Err(MirrorError::MissingField),
        Some(nonce) => Ok(AssetData { creator_hash, data_hash, nonce }),
    }
}

/// The proof of leaf `index` and the root, taken from the tree that `blob` holds.
pub fn local_asset_proof(blob: &str, depth: usize, index: usize) -> (r: Result<AssetProof, MirrorError>)
    ensures
        blob_state(blob@, depth as nat) is Err ==> r is Err && r->Err_0 == blob_state(blob@, depth as nat)->Err_0,
        blob_state(blob@, depth as nat) is Ok ==> {
            let leaves = blob_state(blob@, depth as nat)->Ok_0;
            &&& index >= pow2(depth as nat) ==> r is Err && r->Err_0 == MirrorError::IndexOutOfRange
            &&& index < pow2(depth as nat) ==> r is Ok && views(r->Ok_0.proof@) == proof_of(
                leaves,
                depth as nat,
                index as nat,
            ) && r->Ok_0.root@ == root_of(leaves, depth as nat)
        },
{
    let tree = match decode(blob, depth) {
        Ok(t) => t,
        Err(e) => return Err(e),
    };
    let path = match tree.get_proof_of_leaf(index) {
        Ok(p) => p,
        Err(e) => return Err(e),
    };
    Ok(AssetProof { proof: path, root: tree.get_root() })
}

} // verus!
