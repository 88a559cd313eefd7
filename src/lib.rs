//! A binary Merkle hash tree over SHA-256: build it from an ordered sequence
//! of items, produce an inclusion proof for an item, and check such a proof
//! against the root digest.
//!
//! Whenever a level holds an odd number of entries, its last entry is
//! repeated before pairing; the leaf level is always paired at least once.
//! So a single item `a` gives the root `H(H(a) || H(a))`, and its proof is
//! one step holding `H(a)`.
//!
//! Each proof step records on which side its sibling digest stands, so that
//! leaves that are right children verify as well as left ones.
mod digest;
mod display;
mod inclusion;
mod laws;
mod node;
mod tree;

pub use digest::{digest_pair, sha256_of, Digest};
pub use display::reduce_string;
pub use inclusion::{apply_step, replay};
pub use laws::{
    is_prefix, lemma_absent_item_has_no_proof, lemma_build_deterministic,
    lemma_built_tree_is_perfect, lemma_leaves_in_input_order, lemma_member_proof_verifies,
    lemma_odd_padding, lemma_path_exists_iff_leaf, lemma_path_length,
    lemma_path_replays_to_digest, lemma_proof_length_is_height, level_leaves,
};
pub use node::{join, MerkelNode, ProofStep, TreeModel};
pub use tree::{
    has_item_digest, join_up, leaf_digests, leaf_level, merkle_root, nodes_have, pad,
    pair_digests, pair_trees, pair_up, pairs_have, reduce, reduce_trees, spec_tree, views,
    MerkelNodePair, MerkleError, MerkleTree,
};
