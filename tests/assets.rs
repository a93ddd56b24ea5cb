use cnftnifs::leaf::{hash_creators, hash_leaf, mint_leaf, transferred_leaf, Creator, LeafSchema};
use cnftnifs::ops::{apply_mint, apply_transfer, build_empty_tree, empty_tree};
use cnftnifs::proof_source::{
    decode_hash, local_asset_proof, parse_asset_data, parse_asset_proof, AssetResponse, ProofResponse,
};
use cnftnifs::codec::decode;
use cnftnifs::tree::MerkleTreeMirror;
use cnftnifs::MirrorError;
use solana_program::keccak::hashv;
use solana_program::pubkey::Pubkey;

fn sample_leaf(nonce: u64) -> LeafSchema {
    LeafSchema {
        id: [1u8; 32],
        owner: [2u8; 32],
        delegate: [3u8; 32],
        nonce,
        data_hash: [4u8; 32],
        creator_hash: [5u8; 32],
    }
}

fn b58(bytes: &[u8]) -> String {
    bs58::encode(bytes).into_string()
}

#[test]
fn hash_creators_is_deterministic() {
    let creators = vec![Creator { address: [7u8; 32], share: 100, verified: true }];
    let first = hash_creators(&creators);
    let second = hash_creators(&creators);
    assert_eq!(first, second);
    let mut bytes = vec![7u8; 32];
    bytes.push(1);
    bytes.push(100);
    assert_eq!(first, hashv(&[&bytes]).to_bytes());
}

#[test]
fn hash_creators_depends_on_order() {
    let a = Creator { address: [7u8; 32], share: 60, verified: true };
    let b = Creator { address: [8u8; 32], share: 40, verified: false };
    assert_ne!(hash_creators(&[a, b]), hash_creators(&[b, a]));
    assert_eq!(hash_creators(&[]), hashv(&[]).to_bytes());
}

#[test]
fn hash_leaf_layout() {
    let l = sample_leaf(0x0102);
    let nonce = 0x0102u64.to_le_bytes();
    let expected =
        hashv(&[&[1u8], &[1u8; 32], &[2u8; 32], &[3u8; 32], &nonce, &[4u8; 32], &[5u8; 32]]).to_bytes();
    assert_eq!(hash_leaf(&l), expected);
    assert_ne!(hash_leaf(&l), hash_leaf(&sample_leaf(0x0103)));
}

#[test]
fn mint_leaf_uses_asset_id() {
    let tree = [9u8; 32];
    let l = mint_leaf(&tree, 4, &[2u8; 32], &[4u8; 32], &[5u8; 32]);
    let expected = mpl_bubblegum::utils::get_asset_id(&Pubkey::new_from_array(tree), 4);
    assert_eq!(l.id, expected.to_bytes());
    assert_ne!(l.id, tree);
    assert_eq!(l.owner, [2u8; 32]);
    assert_eq!(l.delegate, [2u8; 32]);
    assert_eq!(l.nonce, 4);
}

#[test]
fn transfer_keeps_position() {
    let l = transferred_leaf(&sample_leaf(3), &[8u8; 32]);
    assert_eq!(l.owner, [8u8; 32]);
    assert_eq!(l.delegate, [8u8; 32]);
    assert_eq!(l.nonce, 3);
    assert_eq!(l.id, [1u8; 32]);
}

#[test]
fn empty_blob_decodes_to_zero_tree() {
    let blob = build_empty_tree(3);
    let t = decode(&blob, 3).unwrap();
    assert_eq!(t.leaf_nodes(), vec![[0u8; 32]; 8]);
    assert_eq!(t.get_root(), empty_tree(3).get_root());
    assert_eq!(decode(&blob, 2).err(), Some(MirrorError::InvalidLeafCount));
}

#[test]
fn mint_then_transfer() {
    let blob = build_empty_tree(3);
    let leaf = sample_leaf(2);
    let (blob, hash) = apply_mint(&blob, 3, &leaf).unwrap();
    assert_eq!(hash, hash_leaf(&leaf));
    let t = decode(&blob, 3).unwrap();
    assert_eq!(t.get_leaf(2).unwrap(), hash);
    let out = apply_transfer(&blob, 3, &leaf, &[8u8; 32]).unwrap();
    assert_eq!(out.root, t.get_root());
    assert_eq!(out.proof, t.get_proof_of_leaf(2).unwrap());
    assert_eq!(spl_merkle_tree_reference::recompute(hash, &out.proof, 2), out.root);
    let after = decode(&out.blob, 3).unwrap();
    assert_eq!(after.get_leaf(2).unwrap(), hash_leaf(&out.leaf));
    assert_ne!(after.get_root(), out.root);
    assert_eq!(out.leaf.owner, [8u8; 32]);
}

#[test]
fn mint_out_of_range_and_bad_blob() {
    let blob = build_empty_tree(2);
    assert_eq!(apply_mint(&blob, 2, &sample_leaf(4)).err(), Some(MirrorError::IndexOutOfRange));
    assert_eq!(apply_mint("0", 2, &sample_leaf(0)).err(), Some(MirrorError::MalformedBlob));
    assert_eq!(apply_transfer(&blob, 2, &sample_leaf(9), &[0u8; 32]).err(), Some(MirrorError::IndexOutOfRange));
}

#[test]
fn local_proof_matches_tree() {
    let leaves: Vec<[u8; 32]> = (0..4u8).map(|i| [i + 10; 32]).collect();
    let t = MerkleTreeMirror::new(leaves, 2).unwrap();
    let blob = cnftnifs::codec::encode(&t);
    let p = local_asset_proof(&blob, 2, 3).unwrap();
    assert_eq!(p.root, t.get_root());
    assert_eq!(p.proof, t.get_proof_of_leaf(3).unwrap());
    assert_eq!(local_asset_proof(&blob, 2, 4).err(), Some(MirrorError::IndexOutOfRange));
}

#[test]
fn decode_hash_fields() {
    assert_eq!(decode_hash(&b58(&[6u8; 32])), Ok([6u8; 32]));
    assert_eq!(decode_hash(&b58(&[6u8; 31])), Err(MirrorError::MissingField));
    assert_eq!(decode_hash("0OIl"), Err(MirrorError::MalformedIndexerResponse));
}

#[test]
fn parse_proof_response() {
    let resp = ProofResponse {
        root: Some(b58(&[1u8; 32])),
        nodes: Some(vec![Some(b58(&[2u8; 32])), Some(b58(&[3u8; 32]))]),
    };
    let p = parse_asset_proof(&resp).unwrap();
    assert_eq!(p.root, [1u8; 32]);
    assert_eq!(p.proof, vec![[2u8; 32], [3u8; 32]]);
    let missing_root = ProofResponse { root: None, nodes: Some(vec![]) };
    assert_eq!(parse_asset_proof(&missing_root).err(), Some(MirrorError::MissingField));
    let missing_nodes = ProofResponse { root: Some(b58(&[1u8; 32])), nodes: None };
    assert_eq!(parse_asset_proof(&missing_nodes).err(), Some(MirrorError::MissingField));
    let bad_entry = ProofResponse { root: Some(b58(&[1u8; 32])), nodes: Some(vec![Some(b58(&[2u8; 32])), None]) };
    assert_eq!(parse_asset_proof(&bad_entry).err(), Some(MirrorError::MalformedIndexerResponse));
    let short_entry = ProofResponse { root: Some(b58(&[1u8; 32])), nodes: Some(vec![Some(b58(&[2u8; 5]))]) };
    assert_eq!(parse_asset_proof(&short_entry).err(), Some(MirrorError::MissingField));
}

#[test]
fn parse_data_response() {
    let resp = AssetResponse {
        creator_hash: Some(b58(&[1u8; 32])),
        data_hash: Some(b58(&[2u8; 32])),
        leaf_id: Some(17),
    };
    let d = parse_asset_data(&resp).unwrap();
    assert_eq!(d.creator_hash, [1u8; 32]);
    assert_eq!(d.data_hash, [2u8; 32]);
    assert_eq!(d.nonce, 17);
    let no_id = AssetResponse { leaf_id: None, ..resp };
    assert_eq!(parse_asset_data(&no_id).err(), Some(MirrorError::MissingField));
    let bad = AssetResponse { creator_hash: Some("0".to_string()), data_hash: None, leaf_id: Some(1) };
    assert_eq!(parse_asset_data(&bad).err(), Some(MirrorError::MalformedIndexerResponse));
}
