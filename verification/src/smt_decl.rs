use vstd::prelude::*;

verus! {

// Declarations of the outside sparse-merkle-tree types that carry the
// commitment state. They are opaque here: every fact about them enters
// through the contracts of the trusted wrappers in the tree module.

#[verifier::external_type_specification]
#[verifier::external_body]
#[verifier::reject_recursive_types(H)]
#[verifier::reject_recursive_types(V)]
#[verifier::reject_recursive_types(S)]
pub struct ExSparseMerkleTree<H, V, S>(sparse_merkle_tree::SparseMerkleTree<H, V, S>);

#[verifier::external_type_specification]
#[verifier::external_body]
pub struct ExSmtH256(sparse_merkle_tree::H256);

#[verifier::external_type_specification]
#[verifier::external_body]
pub struct ExBlake2bHasher(sparse_merkle_tree::blake2b::Blake2bHasher);

#[verifier::external_type_specification]
#[verifier::external_body]
#[verifier::reject_recursive_types(V)]
pub struct ExDefaultStore<V>(sparse_merkle_tree::default_store::DefaultStore<V>);

#[verifier::external_type_specification]
#[verifier::external_body]
pub struct ExMerkleProof(sparse_merkle_tree::MerkleProof);

#[verifier::external_type_specification]
#[verifier::external_body]
pub struct ExSmtError(sparse_merkle_tree::error::Error);

} // verus!
