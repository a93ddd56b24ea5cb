//! The state blob: a length-prefixed binary snapshot of the leaves and the root,
//! carried as base-58 text, and checked against its root when read back.
use vstd::prelude::*;

use crate::error::MirrorError;
use crate::node::{nodes_equal, Node};
use crate::tree::{pow2, root_of, views, MerkleTreeMirror};

verus! {

/// Two hundred fifty-six to the power of `n`.
pub open spec fn pow256(n: nat) -> nat
    decreases n,
{
    if n == 0 {
        1
    } else {
        256 * pow256((n - 1) as nat)
    }
}

/// The `count` low bytes of `n`, least significant first.
pub open spec fn le_bytes(n: nat, count: nat) -> Seq<u8>
    decreases count,
{
    if count == 0 {
        Seq::empty()
    } else {
        seq![(n % 256) as u8] + le_bytes(n / 256, (count - 1) as nat)
    }
}

/// The number whose bytes, least significant first, are `b`.
pub open spec fn le_value(b: Seq<u8>) -> nat
    decreases b.len(),
{
    if b.len() == 0 {
        0
    } else {
        b[0] as nat + 256 * le_value(b.drop_first())
    }
}

/// The nodes laid end to end.
pub open spec fn flatten(nodes: Seq<Seq<u8>>) -> Seq<u8>
    decreases nodes.len(),
{
    if nodes.len() == 0 {
        Seq::empty()
    } else {
        flatten(nodes.drop_last()) + nodes.last()
    }
}

/// The binary snapshot: the leaf count as eight little-endian bytes, the leaves,
/// then the root.
pub open spec fn layout(leaves: Seq<Seq<u8>>, root: Seq<u8>) -> Seq<u8> {
    le_bytes(leaves.len(), 8) + flatten(leaves) + root
}

/// The leaf count that a snapshot announces.
pub open spec fn blob_count(b: Seq<u8>) -> nat {
    le_value(b.subrange(0, 8))
}

/// A snapshot is well formed when the announced count of 32-byte leaves lies
/// between the prefix and a 32-byte root.
pub open spec fn blob_well_formed(b: Seq<u8>) -> bool {
    &&& b.len() >= 40
    &&& (b.len() - 40) % 32 == 0
    &&& blob_count(b) == (b.len() - 40) / 32
}

/// The leaves that a well-formed snapshot carries.
pub open spec fn blob_leaves(b: Seq<u8>) -> Seq<Seq<u8>> {
    Seq::new(blob_count(b), |i: int| b.subrange(8 + 32 * i, 8 + 32 * i + 32))
}

/// The root that a well-formed snapshot carries.
pub open spec fn blob_root(b: Seq<u8>) -> Seq<u8> {
    b.subrange(b.len() - 32, b.len() as int)
}

/// What reading snapshot `b` back into a tree of `depth` gives: its leaves, or
/// the first failure met while reading it.
pub open spec fn decoded(b: Seq<u8>, depth: nat) -> Result<Seq<Seq<u8>>, MirrorError> {
    if !blob_well_formed(b) {
        Err(MirrorError::MalformedBlob)
    } else if blob_leaves(b).len() != pow2(depth) {
        Err(MirrorError::InvalidLeafCount)
    } else if root_of(blob_leaves(b), depth) != blob_root(b) {
        Err(MirrorError::RootMismatch)
    } else {
        Ok(blob_leaves(b))
    }
}

/// What reading state blob `text` back into a tree of `depth` gives.
pub open spec fn blob_state(text: Seq<char>, depth: nat) -> Result<Seq<Seq<u8>>, MirrorError> {
    match base58_decoded(text) {
        Some(b) => decoded(b, depth),
        None => Err(MirrorError::MalformedBlob),
    }
}

/// The base-58 text of a byte string.
pub uninterp spec fn base58_of(data: Seq<u8>) -> Seq<char>;

/// The bytes that a base-58 text stands for, if it is valid base-58.
pub uninterp spec fn base58_decoded(text: Seq<char>) -> Option<Seq<u8>>;

/// Relies on bs58::encode(..).into_string: the Bitcoin-alphabet text of the bytes.
#[verifier::external_body]
fn base58_encode(data: &[u8]) -> (r: String)
    ensures
        r@ == base58_of(data@),
{
    bs58::encode(data).into_string()
}

/// Relies on bs58::decode(..).into_vec: it fails on text outside the alphabet, and
/// gives back exactly the bytes that bs58::encode turned into that text.
#[verifier::external_body]
pub(crate) fn base58_decode(text: &str) -> (r: Option<Vec<u8>>)
    ensures
        r is Some <==> base58_decoded(text@) is Some,
        r is Some ==> r->0@ == base58_decoded(text@)->0,
        forall|b: Seq<u8>| #[trigger] base58_of(b) == text@ ==> r is Some && r->0@ == b,
{
    bs58::decode(text).into_vec().ok()
}

proof fn lemma_le_round_trip(n: nat, count: nat)
    requires
        n < pow256(count),
    ensures
        le_bytes(n, count).len() == count,
        le_value(le_bytes(n, count)) == n,
    decreases count,
{
    if count > 0 {
        let c = (count - 1) as nat;
        lemma_le_round_trip(n / 256, c);
        let b = le_bytes(n, count);
        assert(b.drop_first() =~= le_bytes(n / 256, c));
    }
}

proof fn lemma_pow256_8()
    ensures
        pow256(8) == 0x1_0000_0000_0000_0000,
{
    reveal_with_fuel(pow256, 9);
}

proof fn lemma_flatten(nodes: Seq<Seq<u8>>)
    requires
        forall|i: int| 0 <= i < nodes.len() ==> (#[trigger] nodes[i]).len() == 32,
    ensures
        flatten(nodes).len() == 32 * nodes.len(),
        forall|i: int|
            0 <= i < nodes.len() ==> #[trigger] flatten(nodes).subrange(32 * i, 32 * i + 32) == nodes[i],
    decreases nodes.len(),
{
    if nodes.len() > 0 {
        let init = nodes.drop_last();
        lemma_flatten(init);
        let f = flatten(nodes);
        assert forall|i: int| 0 <= i < nodes.len() implies #[trigger] f.subrange(32 * i, 32 * i + 32)
            == nodes[i] by {
            if i < nodes.len() - 1 {
                assert(init[i] == nodes[i]);
                assert(f.subrange(32 * i, 32 * i + 32) =~= flatten(init).subrange(32 * i, 32 * i + 32));
            } else {
                assert(f.subrange(32 * i, 32 * i + 32) =~= nodes.last());
            }
        }
    }
}

/// A snapshot of every leaf of a tree and of its root.
pub struct SerializableMerkleTree {
    pub leaf_nodes: Vec<Node>,
    pub root: Node,
}

/// A snapshot parses back into the leaves and the root it was laid out from.
proof fn lemma_layout_parses(leaves: Seq<Seq<u8>>, root: Seq<u8>)
    requires
        forall|i: int| 0 <= i < leaves.len() ==> (#[trigger] leaves[i]).len() == 32,
        root.len() == 32,
        leaves.len() < pow256(8),
    ensures
        blob_well_formed(layout(leaves, root)),
        blob_leaves(layout(leaves, root)) == leaves,
        blob_root(layout(leaves, root)) == root,
{
    let n = leaves.len();
    let b = layout(leaves, root);
    let prefix = le_bytes(n, 8);
    let flat = flatten(leaves);
    lemma_le_round_trip(n, 8);
    lemma_flatten(leaves);
    assert(b.subrange(0, 8) =~= prefix);
    assert(b.len() == 8 + 32 * n + 32);
    assert((b.len() - 40) as int == 32 * n);
    assert(((b.len() - 40) as int) % 32 == 0 && ((b.len() - 40) as int) / 32 == n) by (nonlinear_arith)
        requires
            (b.len() - 40) as int == 32 * n,
    ;
    assert forall|i: int| 0 <= i < n implies #[trigger] b.subrange(8 + 32 * i, 8 + 32 * i + 32) == leaves[i] by {
        assert(b.subrange(8 + 32 * i, 8 + 32 * i + 32) =~= flat.subrange(32 * i, 32 * i + 32));
    }
    assert(blob_leaves(b) =~= leaves);
    assert(blob_root(b) =~= root);
}

/// Laying out a tree and reading the snapshot back gives the same leaves, and
/// so the same root, under the same depth.
pub proof fn lemma_snapshot_round_trip(tree: &MerkleTreeMirror)
    requires
        tree.wf(),
    ensures
        decoded(layout(tree.leaves(), tree.root()), tree.spec_depth()) == Ok::<Seq<Seq<u8>>, MirrorError>(
            tree.leaves(),
        ),
{
    tree.lemma_leaf_count();
    tree.lemma_node_lengths();
    lemma_pow2_fits(tree.spec_depth(), tree.leaves().len());
    lemma_layout_parses(tree.leaves(), tree.root());
}

/// A snapshot whose last root byte was altered is refused as a root mismatch.
pub proof fn lemma_altered_root_rejected(tree: &MerkleTreeMirror, byte: u8)
    requires
        tree.wf(),
        byte != layout(tree.leaves(), tree.root()).last(),
    ensures
        ({
            let b = layout(tree.leaves(), tree.root());
            decoded(b.update(b.len() - 1, byte), tree.spec_depth()) == Err::<Seq<Seq<u8>>, MirrorError>(
                MirrorError::RootMismatch,
            )
        }),
{
    tree.lemma_leaf_count();
    tree.lemma_node_lengths();
    lemma_pow2_fits(tree.spec_depth(), tree.leaves().len());
    lemma_layout_parses(tree.leaves(), tree.root());
    let b = layout(tree.leaves(), tree.root());
    let c = b.update(b.len() - 1, byte);
    assert(c.subrange(0, 8) =~= b.subrange(0, 8));
    assert forall|i: int| 0 <= i < blob_count(b) implies #[trigger] c.subrange(8 + 32 * i, 8 + 32 * i + 32)
        == b.subrange(8 + 32 * i, 8 + 32 * i + 32) by {
        assert(c.subrange(8 + 32 * i, 8 + 32 * i + 32) =~= b.subrange(8 + 32 * i, 8 + 32 * i + 32));
    }
    assert(blob_leaves(c) =~= blob_leaves(b));
    assert(blob_root(c).last() != blob_root(b).last());
}

/// A snapshot that holds a number of leaves other than two to the power of the
/// depth is refused as an invalid leaf count.
pub proof fn lemma_wrong_count_rejected(leaves: Seq<Seq<u8>>, root: Seq<u8>, depth: nat)
    requires
        forall|i: int| 0 <= i < leaves.len() ==> (#[trigger] leaves[i]).len() == 32,
        root.len() == 32,
        leaves.len() < pow256(8),
        leaves.len() != pow2(depth),
    ensures
        decoded(layout(leaves, root), depth) == Err::<Seq<Seq<u8>>, MirrorError>(MirrorError::InvalidLeafCount),
{
    lemma_layout_parses(leaves, root);
}

/// A leaf count that fits in memory fits in eight bytes.
proof fn lemma_pow2_fits(depth: nat, n: nat)
    requires
        n == pow2(depth),
        n <= usize::MAX,
    ensures
        n < pow256(8),
{
    lemma_pow256_8();
}

/// Whether an exec result agrees with what a snapshot decodes to.
pub open spec fn agrees(r: Result<MerkleTreeMirror, MirrorError>, d: Result<Seq<Seq<u8>>, MirrorError>, depth: nat) -> bool {
    match (r, d) {
        (Ok(t), Ok(leaves)) => t.wf() && t.leaves() == leaves && t.spec_depth() == depth,
        (Err(e), Err(f)) => e == f,
        _ => false,
    }
}

impl SerializableMerkleTree {
    /// The byte strings of the leaves.
    pub open spec fn leaf_views(&self) -> Seq<Seq<u8>> {
        views(self.leaf_nodes@)
    }

    /// The snapshot of `tree`.
    pub fn from(tree: &MerkleTreeMirror) -> (r: Self)
        requires
            tree.wf(),
        ensures
            r.leaf_views() == tree.leaves(),
            r.root@ == tree.root(),
    {
        SerializableMerkleTree { leaf_nodes: tree.leaf_nodes(), root: tree.get_root() }
    }

    /// The binary layout of the snapshot.
    pub fn to_bytes(&self) -> (r: Vec<u8>)
        ensures
            r@ == layout(self.leaf_views(), self.root@),
    {
        let n = self.leaf_nodes.len();
        let mut out: Vec<u8> = Vec::new();
        push_u64_le(&mut out, n as u64);
        let mut i: usize = 0;
        while i < n
            invariant
                i <= n,
                n == self.leaf_nodes@.len(),
                out@ == le_bytes(n as nat, 8) + flatten(self.leaf_views().subrange(0, i as int)),
            decreases n - i,
        {
            let ghost prev = self.leaf_views().subrange(0, i as int);
            let ghost next = self.leaf_views().subrange(0, i + 1);
            push_node(&mut out, &self.leaf_nodes[i]);
            assert(next.drop_last() =~= prev);
            i += 1;
        }
        assert(self.leaf_views().subrange(0, n as int) =~= self.leaf_views());
        push_node(&mut out, &self.root);
        out
    }

    /// Reads a snapshot from its binary layout; only the layout is checked.
    pub fn from_bytes(bytes: &[u8]) -> (r: Result<Self, MirrorError>)
        ensures
            r is Ok <==> blob_well_formed(bytes@),
            r is Ok ==> r->Ok_0.leaf_views() == blob_leaves(bytes@) && r->Ok_0.root@ == blob_root(bytes@),
            r is Err ==> r->Err_0 == MirrorError::MalformedBlob,
    {
        let len = bytes.len();
        if len < 40 || (len - 40) % 32 != 0 {
            return Err(MirrorError::MalformedBlob);
        }
        let count = (len - 40) / 32;
        let announced = read_u64_le(bytes);
        if announced != count as u64 {
            return Err(MirrorError::MalformedBlob);
        }
        let ghost want = blob_leaves(bytes@);
        let mut leaf_nodes: Vec<Node> = Vec::new();
        let mut i: usize = 0;
        while i < count
            invariant
                i <= count,
                count * 32 + 40 == len,
                len == bytes@.len(),
                want.len() == count,
                want == blob_leaves(bytes@),
                leaf_nodes@.len() == i,
                forall|j: int| 0 <= j < i ==> #[trigger] leaf_nodes@[j]@ == want[j],
            decreases count - i,
        {
            let leaf = node_at(bytes, 8 + 32 * i);
            leaf_nodes.push(leaf);
            i += 1;
        }
        let root = node_at(bytes, len - 32);
        let r = SerializableMerkleTree { leaf_nodes, root };
        assert(r.leaf_views() =~= want);
        Ok(r)
    }

    /// Rebuilds the tree of `depth` from the snapshot's leaves, and refuses it
    /// unless its root is the one the snapshot carries.
    pub fn into_tree(self, depth: usize) -> (r: Result<MerkleTreeMirror, MirrorError>)
        ensures
            agrees(
                r,
                if self.leaf_views().len() != pow2(depth as nat) {
                    Err(MirrorError::InvalidLeafCount)
                } else if root_of(self.leaf_views(), depth as nat) != self.root@ {
                    Err(MirrorError::RootMismatch)
                } else {
                    Ok(self.leaf_views())
                },
                depth as nat,
            ),
    {
        let root = self.root;
        match MerkleTreeMirror::new(self.leaf_nodes, depth) {
            Err(e) => Err(e),
            Ok(tree) => {
                let computed = tree.get_root();
                if nodes_equal(&computed, &root) {
                    Ok(tree)
                } else {
                    Err(MirrorError::RootMismatch)
                }
            },
        }
    }
}

/// The binary snapshot of `tree`.
pub fn encode_bytes(tree: &MerkleTreeMirror) -> (r: Vec<u8>)
    requires
        tree.wf(),
    ensures
        r@ == layout(tree.leaves(), tree.root()),
{
    SerializableMerkleTree::from(tree).to_bytes()
}

/// The state blob of `tree`: its binary snapshot as base-58 text.
pub fn encode(tree: &MerkleTreeMirror) -> (r: String)
    requires
        tree.wf(),
    ensures
        r@ == base58_of(layout(tree.leaves(), tree.root())),
{
    let bytes = encode_bytes(tree);
    base58_encode(bytes.as_slice())
}

/// Reads a binary snapshot back into a tree of `depth`.
pub fn decode_bytes(bytes: &[u8], depth: usize) -> (r: Result<MerkleTreeMirror, MirrorError>)
    ensures
        agrees(r, decoded(bytes@, depth as nat), depth as nat),
{
    match SerializableMerkleTree::from_bytes(bytes) {
        Err(e) => Err(e),
        Ok(snapshot) => snapshot.into_tree(depth),
    }
}

/// Reads a state blob back into a tree of `depth`.
pub fn decode(text: &str, depth: usize) -> (r: Result<MerkleTreeMirror, MirrorError>)
    ensures
        agrees(r, blob_state(text@, depth as nat), depth as nat),
        forall|b: Seq<u8>| #[trigger] base58_of(b) == text@ ==> agrees(r, decoded(b, depth as nat), depth as nat),
{
    match base58_decode(text) {
        None => Err(MirrorError::MalformedBlob),
        Some(bytes) => decode_bytes(bytes.as_slice(), depth),
    }
}

/// Appends the eight little-endian bytes of `n`.
fn push_u64_le(out: &mut Vec<u8>, n: u64)
    ensures
        final(out)@ == old(out)@ + le_bytes(n as nat, 8),
{
    let ghost start = old(out)@;
    let mut x: u64 = n;
    let mut k: usize = 0;
    while k < 8
        invariant
            k <= 8,
            out@ + le_bytes(x as nat, (8 - k) as nat) == start + le_bytes(n as nat, 8),
        decreases 8 - k,
    {
        let ghost before = out@;
        out.push((x % 256) as u8);
        proof {
            assert(le_bytes(x as nat, (8 - k) as nat) == seq![(x % 256) as u8] + le_bytes(
                (x / 256) as nat,
                (8 - (k + 1)) as nat,
            ));
            assert(out@ + le_bytes((x / 256) as nat, (8 - (k + 1)) as nat) =~= before + le_bytes(
                x as nat,
                (8 - k) as nat,
            ));
        }
        x = x / 256;
        k += 1;
    }
    assert(out@ + le_bytes(x as nat, 0) =~= out@);
}

/// Appends the 32 bytes of `n`.
fn push_node(out: &mut Vec<u8>, n: &Node)
    ensures
        final(out)@ == old(out)@ + n@,
{
    let ghost start = old(out)@;
    let mut i: usize = 0;
    while i < 32
        invariant
            i <= 32,
            out@ == start + n@.subrange(0, i as int),
        decreases 32 - i,
    {
        out.push(n[i]);
        assert(out@ =~= start + n@.subrange(0, i + 1));
        i += 1;
    }
    assert(n@.subrange(0, 32) =~= n@);
}

/// The number whose little-endian bytes are `b[0..8]`.
fn read_u64_le(b: &[u8]) -> (r: u64)
    requires
        b@.len() >= 8,
    ensures
        r == le_value(b@.subrange(0, 8)),
{
    let mut v: u64 = 0;
    let mut k: usize = 8;
    proof {
        lemma_pow256_8();
        assert(b@.subrange(8, 8) =~= Seq::<u8>::empty());
    }
    while k > 0
        invariant
            k <= 8,
            b@.len() >= 8,
            v == le_value(b@.subrange(k as int, 8)),
            v < pow256((8 - k) as nat),
            pow256(8) == 0x1_0000_0000_0000_0000,
        decreases k,
    {
        let ghost rest = b@.subrange(k as int, 8);
        let ghost whole = b@.subrange(k - 1, 8);
        assert(whole.drop_first() =~= rest);
        assert(pow256((8 - (k - 1)) as nat) == 256 * pow256((8 - k) as nat));
        assert(v * 256 + 255 < pow256((8 - (k - 1)) as nat)) by (nonlinear_arith)
            requires
                v < pow256((8 - k) as nat),
                pow256((8 - (k - 1)) as nat) == 256 * pow256((8 - k) as nat),
        ;
        proof {
            lemma_pow256_monotone((8 - (k - 1)) as nat, 8);
        }
        v = v * 256 + b[k - 1] as u64;
        k -= 1;
    }
    v
}

proof fn lemma_pow256_monotone(a: nat, b: nat)
    requires
        a <= b,
    ensures
        pow256(a) <= pow256(b),
    decreases b,
{
    if a < b {
        lemma_pow256_monotone(a, (b - 1) as nat);
    }
}

/// The node held in `b[start..start + 32]`.
fn node_at(b: &[u8], start: usize) -> (r: Node)
    requires
        start + 32 <= b@.len(),
    ensures
        r@ == b@.subrange(start as int, start + 32),
{
    let n = b.len();
    let mut out: Node = [0u8; 32];
    let mut i: usize = 0;
    while i < 32
        invariant
            i <= 32,
            n == b@.len(),
            start + 32 <= b@.len(),
            forall|j: int| 0 <= j < i ==> out@[j] == b@[start + j],
        decreases 32 - i,
    {
        out[i] = b[start + i];
        i += 1;
    }
    assert(out@ =~= b@.subrange(start as int, start + 32));
    out
}

} // verus!
