//! 32-byte digests, the keccak combining hash and small byte helpers.
use vstd::prelude::*;

verus! {

/// A 32-byte digest, used both as a leaf identity and as an internal hash.
pub type Node = [u8; 32];

/// The Keccak-256 digest of a byte string.
pub uninterp spec fn keccak256(data: Seq<u8>) -> Seq<u8>;

/// The digest that combines two child nodes into their parent.
pub open spec fn combine(left: Seq<u8>, right: Seq<u8>) -> Seq<u8> {
    keccak256(left + right)
}

/// Relies on solana_program::keccak::hashv: it feeds each slice to one hasher in
/// turn, so the digest is that of the two nodes laid end to end.
#[verifier::external_body]
pub(crate) fn hash_pair(left: &Node, right: &Node) -> (r: Node)
    ensures
        r@ == keccak256(left@ + right@),
{
    solana_program::keccak::hashv(&[left.as_ref(), right.as_ref()]).to_bytes()
}

/// Byte-wise equality of two nodes.
pub fn nodes_equal(a: &Node, b: &Node) -> (r: bool)
    ensures
        r == (a@ == b@),
{
    let mut i: usize = 0;
    while i < 32
        invariant
            i <= 32,
            forall|j: int| 0 <= j < i ==> a@[j] == b@[j],
        decreases 32 - i,
    {
        if a[i] != b[i] {
            assert(a@[i as int] != b@[i as int]);
            return false;
        }
        i += 1;
    }
    assert(a@ =~= b@);
    true
}

/// Turns a byte vector of length 32 into a node.
pub fn vec_to_array(vec: Vec<u8>) -> (r: Result<Node, &'static str>)
    ensures
        r is Ok <==> vec@.len() == 32,
        r is Ok ==> r->Ok_0@ == vec@,
{
    if vec.len() != 32 {
        return Err("Vector length is not 32 bytes");
    }
    let mut out: Node = [0u8; 32];
    let mut i: usize = 0;
    while i < 32
        invariant
            i <= 32,
            vec@.len() == 32,
            forall|j: int| 0 <= j < i ==> out@[j] == vec@[j],
        decreases 32 - i,
    {
        out[i] = vec[i];
        i += 1;
    }
    assert(out@ =~= vec@);
    Ok(out)
}

} // verus!
