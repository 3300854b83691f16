use vstd::prelude::*;

use crate::hashing::Hash256;
use crate::zero_hash_seq;

verus! {

/// The backing tree: blake2b hashing, 32-byte leaf hashes stored directly
/// as the leaf values, and the crate's in-memory store.
pub type Smt = sparse_merkle_tree::SparseMerkleTree<
    sparse_merkle_tree::blake2b::Blake2bHasher,
    sparse_merkle_tree::H256,
    sparse_merkle_tree::default_store::DefaultStore<sparse_merkle_tree::H256>,
>;

/// The set leaves of a backing tree: tree key bytes mapped to the nonzero
/// leaf hash stored there. Keys holding the zero leaf are absent.
pub uninterp spec fn smt_leaves(t: Smt) -> Map<Seq<u8>, Seq<u8>>;

/// The leaf set of a tree with nothing committed.
pub open spec fn empty_leaves() -> Map<Seq<u8>, Seq<u8>> {
    Map::empty()
}

/// The root the sparse Merkle tree derives from a leaf set. The tree's
/// structure is a function of the set leaves alone, never of insertion
/// order, so one leaf set has exactly one root.
pub uninterp spec fn smt_root_of(leaves: Map<Seq<u8>, Seq<u8>>) -> Seq<u8>;

/// The root that MerkleProof::compute_root reconstructs from a proof and one
/// (key, leaf) pair, or nothing when the proof does not fit the pair.
pub uninterp spec fn smt_proof_root(
    proof: sparse_merkle_tree::MerkleProof,
    key: Seq<u8>,
    leaf: Seq<u8>,
) -> Option<Seq<u8>>;

/// The leaf committed at a key: the stored hash, or the zero leaf when the
/// key is unset.
pub open spec fn leaf_or_zero(leaves: Map<Seq<u8>, Seq<u8>>, key: Seq<u8>) -> Seq<u8> {
    if leaves.dom().contains(key) {
        leaves[key]
    } else {
        zero_hash_seq()
    }
}

/// A proof accepts a root for a (key, leaf) pair when it reconstructs
/// exactly that root.
pub open spec fn proof_accepts(
    proof: sparse_merkle_tree::MerkleProof,
    key: Seq<u8>,
    leaf: Seq<u8>,
    root: Seq<u8>,
) -> bool {
    smt_proof_root(proof, key, leaf) == Some(root)
}

/// Relies on SparseMerkleTree::default: a fresh tree has no leaves, and its
/// root is the zero hash.
#[verifier::external_body]
fn smt_new() -> (r: Smt)
    ensures
        smt_leaves(r) == empty_leaves(),
        smt_root_of(smt_leaves(r)) == zero_hash_seq(),
{
    Default::default()
}

/// Relies on SparseMerkleTree::update: storing a zero leaf deletes the key,
/// any other leaf is inserted, and the returned root is recomputed from the
/// stored leaves alone. With DefaultStore every store operation returns Ok,
/// so the update cannot fail and the unwrap cannot trip.
#[verifier::external_body]
fn smt_update(t: &mut Smt, key: &Hash256, leaf: &Hash256) -> (r: Hash256)
    ensures
        smt_leaves(*final(t)) == (if leaf@ == zero_hash_seq() {
            smt_leaves(*old(t)).remove(key@)
        } else {
            smt_leaves(*old(t)).insert(key@, leaf@)
        }),
        r@ == smt_root_of(smt_leaves(*final(t))),
{
    let k = sparse_merkle_tree::H256::from(key.bytes);
    let v = sparse_merkle_tree::H256::from(leaf.bytes);
    let root = t.update(k, v).unwrap();
    let mut bytes = [0u8; 32];
    bytes.copy_from_slice(root.as_slice());
    Hash256 { bytes }
}

/// Relies on SparseMerkleTree::get: the stored leaf, or the zero value when
/// the key is unset. With DefaultStore every store operation returns Ok, so
/// the lookup cannot fail and the unwrap cannot trip.
#[verifier::external_body]
fn smt_get(t: &Smt, key: &Hash256) -> (r: Hash256)
    ensures
        r@ == leaf_or_zero(smt_leaves(*t), key@),
{
    let v = t.get(&sparse_merkle_tree::H256::from(key.bytes)).unwrap();
    let mut bytes = [0u8; 32];
    bytes.copy_from_slice(v.as_slice());
    Hash256 { bytes }
}

/// Relies on SparseMerkleTree::root: the current root, a function of the
/// stored leaves.
#[verifier::external_body]
fn smt_root(t: &Smt) -> (r: Hash256)
    ensures
        r@ == smt_root_of(smt_leaves(*t)),
{
    let mut bytes = [0u8; 32];
    bytes.copy_from_slice(t.root().as_slice());
    Hash256 { bytes }
}

/// Relies on SparseMerkleTree::merkle_proof: a proof generated for one key
/// reconstructs the tree's current root from that key and the leaf the tree
/// commits there. With one key the empty-keys error cannot occur and the
/// store never fails, so the call cannot fail and the unwrap cannot trip.
#[verifier::external_body]
fn smt_merkle_proof(t: &Smt, key: &Hash256) -> (r: sparse_merkle_tree::MerkleProof)
    ensures
        smt_proof_root(r, key@, leaf_or_zero(smt_leaves(*t), key@)) == Some(
            smt_root_of(smt_leaves(*t)),
        ),
{
    t.merkle_proof(vec![sparse_merkle_tree::H256::from(key.bytes)]).unwrap()
}

/// Relies on MerkleProof::compute_root: the reconstructed root is a pure
/// function of the proof and the (key, leaf) pair, and an error means the
/// proof does not fit the pair.
#[verifier::external_body]
fn smt_compute_root(proof: &sparse_merkle_tree::MerkleProof, key: &Hash256, leaf: &Hash256) -> (r:
    Result<Hash256, sparse_merkle_tree::error::Error>)
    ensures
        r matches Ok(h) ==> smt_proof_root(*proof, key@, leaf@) == Some(h@),
        r is Err ==> smt_proof_root(*proof, key@, leaf@) is None,
{
    let leaves = vec![
        (sparse_merkle_tree::H256::from(key.bytes), sparse_merkle_tree::H256::from(leaf.bytes)),
    ];
    match proof.clone().compute_root::<sparse_merkle_tree::blake2b::Blake2bHasher>(leaves) {
        Ok(root) => {
            let mut bytes = [0u8; 32];
            bytes.copy_from_slice(root.as_slice());
            Ok(Hash256 { bytes })
        },
        Err(e) => Err(e),
    }
}

/// An authentication path for one key, valid against the root of the tree
/// state it was generated from.
pub struct Proof {
    inner: sparse_merkle_tree::MerkleProof,
}

impl Proof {
    /// The underlying proof value, for stating which roots it accepts.
    pub closed spec fn spec_inner(&self) -> sparse_merkle_tree::MerkleProof {
        self.inner
    }
}

/// The sparse Merkle commitment tree over 256-bit keys: unset keys
/// implicitly hold the zero leaf, set keys hold a 32-byte leaf hash.
pub struct CommitmentTree {
    inner: Smt,
}

impl CommitmentTree {
    /// The leaf set this tree commits: key bytes to nonzero leaf bytes.
    pub closed spec fn leaves(&self) -> Map<Seq<u8>, Seq<u8>> {
        smt_leaves(self.inner)
    }

    /// The leaf committed at a key, the zero leaf when unset.
    pub open spec fn committed_leaf(&self, key: Seq<u8>) -> Seq<u8> {
        leaf_or_zero(self.leaves(), key)
    }

    /// An empty tree commits no leaves and has the zero root.
    pub fn new() -> (r: CommitmentTree)
        ensures
            r.leaves() == empty_leaves(),
            smt_root_of(r.leaves()) == zero_hash_seq(),
    {
        CommitmentTree { inner: smt_new() }
    }

    /// Inserts or overwrites one leaf and returns the new root: a zero leaf
    /// unsets the key, any other leaf is stored, and the root is derived
    /// from the new leaf set alone. The in-memory store cannot fail, so the
    /// new root is owed on every update.
    pub fn update(&mut self, key: &Hash256, leaf: &Hash256) -> (r: Hash256)
        ensures
            final(self).leaves() == (if leaf@ == zero_hash_seq() {
                old(self).leaves().remove(key@)
            } else {
                old(self).leaves().insert(key@, leaf@)
            }),
            r@ == smt_root_of(final(self).leaves()),
    {
        smt_update(&mut self.inner, key, leaf)
    }

    /// The leaf committed at a key: the stored hash, or the zero leaf when
    /// the key is unset.
    pub fn get(&self, key: &Hash256) -> (r: Hash256)
        ensures
            r@ == self.committed_leaf(key@),
    {
        smt_get(&self.inner, key)
    }

    /// The current commitment root, a function of the committed leaf set.
    pub fn root(&self) -> (r: Hash256)
        ensures
            r@ == smt_root_of(self.leaves()),
    {
        smt_root(&self.inner)
    }

    /// Generates an authentication path for one key. The proof reconstructs
    /// the current root from the key and the leaf committed there, for a
    /// membership proof of a set key or a non-membership proof of an unset
    /// one.
    pub fn generate_proof(&self, key: &Hash256) -> (r: Proof)
        ensures
            proof_accepts(
                r.spec_inner(),
                key@,
                self.committed_leaf(key@),
                smt_root_of(self.leaves()),
            ),
    {
        Proof { inner: smt_merkle_proof(&self.inner, key) }
    }

    /// Checks a proof against a caller-supplied root: true exactly when the
    /// proof reconstructs that root from the claimed (key, leaf) pair. Fails
    /// closed: a proof that fits the pair accepts at most one root, and a
    /// proof that does not fit accepts none.
    pub fn verify_proof(proof: &Proof, root: &Hash256, key: &Hash256, leaf: &Hash256) -> (r: bool)
        ensures
            r == proof_accepts(proof.spec_inner(), key@, leaf@, root@),
    {
        match smt_compute_root(&proof.inner, key, leaf) {
            Ok(h) => {
                let same = h.eq_bytes(root);
                proof {
                    if same {
                        assert(smt_proof_root(proof.spec_inner(), key@, leaf@) == Some(root@));
                    } else {
                        assert(smt_proof_root(proof.spec_inner(), key@, leaf@) != Some(root@));
                    }
                }
                same
            },
            Err(_) => false,
        }
    }
}

/// Proof soundness, exclusivity half: one proof accepts at most one root for
/// a given (key, leaf) pair, so a proof that verifies against the root it
/// was generated under fails against every other root.
pub proof fn lemma_proof_pins_root(
    proof: sparse_merkle_tree::MerkleProof,
    key: Seq<u8>,
    leaf: Seq<u8>,
    r1: Seq<u8>,
    r2: Seq<u8>,
)
    requires
        proof_accepts(proof, key, leaf, r1),
        r1 != r2,
    ensures
        !proof_accepts(proof, key, leaf, r2),
{
}

} // verus!
