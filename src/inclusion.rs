use vstd::prelude::*;
use crate::digest::{digest_pair, hash_pair, sha256_hash, sha256_of, Digest};
use crate::node::{MerkelNode, ProofStep};
use crate::tree::MerkleTree;

verus! {

/// The digest one level up from `current`, combined with the sibling of
/// `step` on the side that the step records.
pub open spec fn apply_step(current: Seq<u8>, step: ProofStep) -> Seq<u8> {
    if step.is_left {
        digest_pair(step.digest@, current)
    } else {
        digest_pair(current, step.digest@)
    }
}

/// The digest reached from the leaf digest `leaf` by applying the steps of
/// `proof` in order.
pub open spec fn replay(leaf: Seq<u8>, proof: Seq<ProofStep>) -> Seq<u8>
    decreases proof.len(),
{
    if proof.len() == 0 {
        leaf
    } else {
        apply_step(replay(leaf, proof.drop_last()), proof.last())
    }
}

/// Compares two digests byte by byte.
fn digest_eq(a: &Digest, b: &Digest) -> (r: bool)
    ensures
        r == (a@ == b@),
{
    let mut i: usize = 0;
    while i < 32
        invariant
            i <= 32,
            forall|k: int| 0 <= k < i ==> a@[k] == b@[k],
        decreases 32 - i,
    {
        if a[i] != b[i] {
            return false;
        }
        i += 1;
    }
    assert(a@ =~= b@);
    true
}

/// Searches below `node` for the leftmost leaf holding the digest of
/// `data`; on success appends its authentication path to `proof`.
fn get_proof_helper(node: &MerkelNode, data: &[u8], proof: &mut Vec<ProofStep>) -> (r: bool)
    requires
        node.wf(),
    ensures
        r == node.proof_path(sha256_of(data@)) is Some,
        r ==> final(proof)@ == old(proof)@ + node.proof_path(sha256_of(data@))->0,
        !r ==> final(proof)@ == old(proof)@,
    decreases node,
{
    let ghost h = sha256_of(data@);
    match &node.left {
        None => {
            let hash = sha256_hash(data);
            digest_eq(&node.data, &hash)
        },
        Some(left) => match &node.right {
            None => false,
            Some(right) => {
                if get_proof_helper(left, data, proof) {
                    let ghost p = left.proof_path(h)->0;
                    proof.push(ProofStep { digest: right.data, is_left: false });
                    assert(final(proof)@ =~= old(proof)@ + p.push(ProofStep { digest: right.data, is_left: false }));
                    return true;
                }
                if get_proof_helper(right, data, proof) {
                    let ghost p = right.proof_path(h)->0;
                    proof.push(ProofStep { digest: left.data, is_left: true });
                    assert(final(proof)@ =~= old(proof)@ + p.push(ProofStep { digest: left.data, is_left: true }));
                    return true;
                }
                false
            },
        },
    }
}

impl MerkleTree {
    /// The authentication path of the leftmost leaf that holds the digest of
    /// `data`, or `None` when no leaf holds it.
    pub fn get_proof(&self, data: &[u8]) -> (r: Option<Vec<ProofStep>>)
        requires
            self.wf(),
        ensures
            match self.root.proof_path(sha256_of(data@)) {
                Some(p) => r is Some && r->0@ == p,
                None => r is None,
            },
    {
        let mut proof: Vec<ProofStep> = Vec::new();
        if get_proof_helper(&self.root, data, &mut proof) {
            assert(proof@ =~= self.root.proof_path(sha256_of(data@))->0);
            Some(proof)
        } else {
            None
        }
    }

    /// Replays `proof` from the digest of `data` and tells whether it ends
    /// at the root digest.
    pub fn verify_proof(&self, data: &[u8], proof: &[ProofStep]) -> (r: bool)
        ensures
            r == (replay(sha256_of(data@), proof@) == self.root.data@),
    {
        let ghost leaf = sha256_of(data@);
        let mut current_hash = sha256_hash(data);
        let mut i: usize = 0;
        while i < proof.len()
            invariant
                i <= proof@.len(),
                current_hash@ == replay(leaf, proof@.subrange(0, i as int)),
            decreases proof@.len() - i,
        {
            let sibling = &proof[i];
            let ghost before = proof@.subrange(0, i as int);
            current_hash = if sibling.is_left {
                hash_pair(&sibling.digest, &current_hash)
            } else {
                hash_pair(&current_hash, &sibling.digest)
            };
            assert(proof@.subrange(0, i + 1).drop_last() =~= before);
            i += 1;
        }
        assert(proof@.subrange(0, proof@.len() as int) =~= proof@);
        digest_eq(&current_hash, &self.root.data)
    }
}

} // verus!
