//! A verified off-chain mirror of a compressed-asset Merkle accumulator.
use vstd::prelude::*;

pub mod codec;
pub mod error;
pub mod leaf;
pub mod node;
pub mod ops;
pub mod proof_source;
pub mod tree;

pub use error::MirrorError;
pub use node::{combine, keccak256, nodes_equal, vec_to_array, Node};
pub use codec::SerializableMerkleTree;
pub use tree::MerkleTreeMirror;
