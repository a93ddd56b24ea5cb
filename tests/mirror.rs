use cnftnifs::codec::{decode, decode_bytes, encode, encode_bytes, SerializableMerkleTree};
use cnftnifs::tree::MerkleTreeMirror;
use cnftnifs::{nodes_equal, vec_to_array, MirrorError, Node};
use solana_program::keccak::hashv;

fn combine(l: &Node, r: &Node) -> Node {
    hashv(&[l.as_ref(), r.as_ref()]).to_bytes()
}

fn sample_leaves(n: usize) -> Vec<Node> {
    (0..n).map(|i| [(i as u8).wrapping_mul(7).wrapping_add(1); 32]).collect()
}

fn fold_proof(leaf: Node, proof: &[Node], index: usize) -> Node {
    let mut node = leaf;
    let mut pos = index;
    for s in proof {
        node = if pos % 2 == 0 { combine(&node, s) } else { combine(s, &node) };
        pos /= 2;
    }
    node
}

#[test]
fn new_rejects_wrong_leaf_count() {
    assert_eq!(MerkleTreeMirror::new(sample_leaves(3), 2).err(), Some(MirrorError::InvalidLeafCount));
    assert_eq!(MerkleTreeMirror::new(sample_leaves(0), 0).err(), Some(MirrorError::InvalidLeafCount));
    assert_eq!(MerkleTreeMirror::new(sample_leaves(5), 2).err(), Some(MirrorError::InvalidLeafCount));
    assert!(MerkleTreeMirror::new(sample_leaves(1), 0).is_ok());
}

#[test]
fn depth_zero_root_is_the_leaf() {
    let t = MerkleTreeMirror::new(vec![[9u8; 32]], 0).unwrap();
    assert_eq!(t.get_root(), [9u8; 32]);
    assert_eq!(t.get_proof_of_leaf(0).unwrap(), Vec::<Node>::new());
}

#[test]
fn root_of_four_leaves() {
    let leaves = sample_leaves(4);
    let t = MerkleTreeMirror::new(leaves.clone(), 2).unwrap();
    let expected = combine(&combine(&leaves[0], &leaves[1]), &combine(&leaves[2], &leaves[3]));
    assert_eq!(t.get_root(), expected);
    assert_eq!(t.depth(), 2);
}

#[test]
fn root_matches_reference_tree() {
    let leaves = sample_leaves(16);
    let t = MerkleTreeMirror::new(leaves.clone(), 4).unwrap();
    let reference = spl_merkle_tree_reference::MerkleTree::new(&leaves);
    assert_eq!(t.get_root(), reference.root);
}

#[test]
fn every_proof_recomputes_root() {
    let leaves = sample_leaves(16);
    let t = MerkleTreeMirror::new(leaves.clone(), 4).unwrap();
    for i in 0..16 {
        let p = t.get_proof_of_leaf(i).unwrap();
        assert_eq!(p.len(), 4);
        assert_eq!(fold_proof(leaves[i], &p, i), t.get_root());
        assert_eq!(spl_merkle_tree_reference::recompute(leaves[i], &p, i as u32), t.get_root());
    }
}

#[test]
fn proof_siblings_are_positional() {
    let leaves = sample_leaves(4);
    let t = MerkleTreeMirror::new(leaves.clone(), 2).unwrap();
    let p = t.get_proof_of_leaf(2).unwrap();
    assert_eq!(p, vec![leaves[3], combine(&leaves[0], &leaves[1])]);
    let p = t.get_proof_of_leaf(1).unwrap();
    assert_eq!(p, vec![leaves[0], combine(&leaves[2], &leaves[3])]);
}

#[test]
fn depth_six_scenario() {
    let zero = [0u8; 32];
    let mut zeros = vec![zero];
    for k in 0..6 {
        let z = zeros[k];
        zeros.push(combine(&z, &z));
    }
    let mut t = MerkleTreeMirror::new(vec![zero; 64], 6).unwrap();
    assert_eq!(t.get_root(), zeros[6]);
    let h0 = [0xabu8; 32];
    t.add_leaf(h0, 0).unwrap();
    let p = t.get_proof_of_leaf(0).unwrap();
    assert_eq!(p.len(), 6);
    assert_eq!(p, zeros[0..6].to_vec());
    let mut expected = h0;
    for k in 0..6 {
        expected = combine(&expected, &zeros[k]);
    }
    assert_eq!(t.get_root(), expected);
    assert_eq!(t.get_proof_of_leaf(64).err(), Some(MirrorError::IndexOutOfRange));
}

#[test]
fn add_leaf_changes_root_only_for_new_value() {
    let leaves = sample_leaves(8);
    let mut t = MerkleTreeMirror::new(leaves.clone(), 3).unwrap();
    let before = t.get_root();
    t.add_leaf(leaves[5], 5).unwrap();
    assert_eq!(t.get_root(), before);
    t.add_leaf([0xeeu8; 32], 5).unwrap();
    let once = t.get_root();
    assert_ne!(once, before);
    t.add_leaf([0xeeu8; 32], 5).unwrap();
    assert_eq!(t.get_root(), once);
    let mut changed = leaves.clone();
    changed[5] = [0xeeu8; 32];
    assert_eq!(MerkleTreeMirror::new(changed, 3).unwrap().get_root(), once);
    assert_eq!(t.get_leaf(5).unwrap(), [0xeeu8; 32]);
}

#[test]
fn add_leaf_out_of_range() {
    let mut t = MerkleTreeMirror::new(sample_leaves(8), 3).unwrap();
    let before = t.get_root();
    assert_eq!(t.add_leaf([1u8; 32], 8), Err(MirrorError::IndexOutOfRange));
    assert_eq!(t.get_root(), before);
    assert_eq!(t.get_leaf(8).err(), Some(MirrorError::IndexOutOfRange));
}

#[test]
fn blob_round_trip() {
    let leaves = sample_leaves(8);
    let t = MerkleTreeMirror::new(leaves.clone(), 3).unwrap();
    let blob = encode(&t);
    let back = decode(&blob, 3).unwrap();
    assert_eq!(back.get_root(), t.get_root());
    assert_eq!(back.leaf_nodes(), leaves);
    assert_eq!(blob, bs58::encode(encode_bytes(&t)).into_string());
}

#[test]
fn snapshot_layout() {
    let leaves = sample_leaves(2);
    let t = MerkleTreeMirror::new(leaves.clone(), 1).unwrap();
    let bytes = SerializableMerkleTree::from(&t).to_bytes();
    assert_eq!(bytes.len(), 8 + 64 + 32);
    assert_eq!(&bytes[0..8], &[2u8, 0, 0, 0, 0, 0, 0, 0]);
    assert_eq!(&bytes[8..40], &leaves[0]);
    assert_eq!(&bytes[40..72], &leaves[1]);
    assert_eq!(&bytes[72..104], &t.get_root());
    let s = SerializableMerkleTree::from_bytes(&bytes).unwrap();
    assert_eq!(s.leaf_nodes, leaves);
    assert_eq!(s.root, t.get_root());
}

#[test]
fn flipped_root_byte_is_root_mismatch() {
    let t = MerkleTreeMirror::new(sample_leaves(8), 3).unwrap();
    let mut bytes = encode_bytes(&t);
    let last = bytes.len() - 1;
    bytes[last] ^= 0x01;
    assert_eq!(decode_bytes(&bytes, 3).err(), Some(MirrorError::RootMismatch));
    let text = bs58::encode(&bytes).into_string();
    assert_eq!(decode(&text, 3).err(), Some(MirrorError::RootMismatch));
}

#[test]
fn wrong_leaf_count_blob_is_rejected() {
    let t = MerkleTreeMirror::new(sample_leaves(64), 6).unwrap();
    let snapshot = SerializableMerkleTree::from(&t);
    let short = SerializableMerkleTree { leaf_nodes: snapshot.leaf_nodes[0..63].to_vec(), root: snapshot.root };
    let bytes = short.to_bytes();
    assert_eq!(decode_bytes(&bytes, 6).err(), Some(MirrorError::InvalidLeafCount));
    let mut truncated = encode_bytes(&t);
    truncated.truncate(truncated.len() - 32);
    assert_eq!(decode_bytes(&truncated, 6).err(), Some(MirrorError::MalformedBlob));
    let mut lying = encode_bytes(&t);
    lying[0] = 63;
    assert_eq!(decode_bytes(&lying, 6).err(), Some(MirrorError::MalformedBlob));
}

#[test]
fn malformed_text_is_rejected() {
    assert_eq!(decode("0OIl", 3).err(), Some(MirrorError::MalformedBlob));
    assert_eq!(decode("", 3).err(), Some(MirrorError::MalformedBlob));
    assert_eq!(decode_bytes(&[1u8, 2, 3], 0).err(), Some(MirrorError::MalformedBlob));
}

#[test]
fn vec_to_array_requires_32_bytes() {
    assert_eq!(vec_to_array(vec![5u8; 32]), Ok([5u8; 32]));
    assert_eq!(vec_to_array(vec![5u8; 31]), Err("Vector length is not 32 bytes"));
    assert!(vec_to_array(vec![]).is_err());
}

#[test]
fn nodes_equal_is_bytewise() {
    let a = [3u8; 32];
    let mut b = a;
    assert!(nodes_equal(&a, &b));
    b[31] = 4;
    assert!(!nodes_equal(&a, &b));
}
