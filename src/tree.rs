use vstd::prelude::*;
use crate::digest::{digest_pair, hash_pair, sha256_hash, sha256_of, Digest};
use crate::node::{join, MerkelNode, TreeModel};

verus! {

/// Why a tree could not be built.
#[derive(Clone, Copy, Debug, PartialEq, Eq)]
pub enum MerkleError {
    /// The item sequence was empty.
    InvalidInput,
}

/// Two nodes that become the children of one parent.
pub type MerkelNodePair = (MerkelNode, MerkelNode);

/// The byte contents of a sequence of items.
pub open spec fn views(items: Seq<Vec<u8>>) -> Seq<Seq<u8>> {
    items.map_values(|v: Vec<u8>| v@)
}

/// Appends a copy of the last element when the count is odd.
pub open spec fn pad<A>(s: Seq<A>) -> Seq<A> {
    if s.len() % 2 == 1 {
        s.push(s.last())
    } else {
        s
    }
}

/// Combines neighbouring digests pairwise, left to right.
pub open spec fn pair_up(s: Seq<Seq<u8>>) -> Seq<Seq<u8>> {
    Seq::new(s.len() / 2, |k: int| digest_pair(s[2 * k], s[2 * k + 1]))
}

/// The digest that remains once a level is padded and paired repeatedly
/// until one digest is left.
pub open spec fn reduce(s: Seq<Seq<u8>>) -> Seq<u8>
    decreases s.len(),
{
    if s.len() <= 1 {
        s[0]
    } else {
        reduce(pair_up(pad(s)))
    }
}

/// The leaf digests of a sequence of items.
pub open spec fn leaf_digests(items: Seq<Seq<u8>>) -> Seq<Seq<u8>> {
    items.map_values(|x: Seq<u8>| sha256_of(x))
}

/// The root digest of the tree built from `items`: the leaf level is padded
/// and paired once, and then every level with more than one digest is
/// padded and paired again.
pub open spec fn merkle_root(items: Seq<Seq<u8>>) -> Seq<u8> {
    reduce(pair_up(pad(leaf_digests(items))))
}

/// Combines neighbouring subtrees pairwise, left to right.
pub open spec fn join_up(s: Seq<TreeModel>) -> Seq<TreeModel> {
    Seq::new(s.len() / 2, |k: int| join(s[2 * k], s[2 * k + 1]))
}

/// The tree that remains once a level is padded and joined repeatedly
/// until one subtree is left.
pub open spec fn reduce_trees(s: Seq<TreeModel>) -> TreeModel
    decreases s.len(),
{
    if s.len() <= 1 {
        s[0]
    } else {
        reduce_trees(join_up(pad(s)))
    }
}

/// The leaves of the tree built from `items`: one per item, the last one
/// repeated when the count is odd.
pub open spec fn leaf_level(items: Seq<Seq<u8>>) -> Seq<TreeModel> {
    pad(leaf_digests(items)).map_values(|h: Seq<u8>| TreeModel::Leaf(h))
}

/// The tree built from `items`: the leaf level is joined once, and then
/// every level with more than one subtree is padded and joined again.
pub open spec fn spec_tree(items: Seq<Seq<u8>>) -> TreeModel {
    reduce_trees(join_up(leaf_level(items)))
}

/// The parents of a sequence of pairs, as models.
pub open spec fn pair_trees(ps: Seq<MerkelNodePair>) -> Seq<TreeModel> {
    Seq::new(ps.len(), |k: int| join(ps[k].0@, ps[k].1@))
}

/// Some item of `items` hashes to `h`.
pub open spec fn has_item_digest(items: Seq<Seq<u8>>, h: Seq<u8>) -> bool {
    exists|i: int| 0 <= i < items.len() && sha256_of(items[i]) == h
}

/// The digests of the parents of a sequence of pairs.
pub open spec fn pair_digests(ps: Seq<MerkelNodePair>) -> Seq<Seq<u8>> {
    Seq::new(ps.len(), |k: int| digest_pair(ps[k].0.data@, ps[k].1.data@))
}

/// Some node of some pair holds a leaf with digest `h`.
pub open spec fn pairs_have(ps: Seq<MerkelNodePair>, h: Seq<u8>) -> bool {
    exists|k: int| 0 <= k < ps.len() && (ps[k].0.has_leaf(h) || ps[k].1.has_leaf(h))
}

/// Some node of `ns` holds a leaf with digest `h`.
pub open spec fn nodes_have(ns: Seq<MerkelNode>, h: Seq<u8>) -> bool {
    exists|k: int| 0 <= k < ns.len() && ns[k].has_leaf(h)
}

/// A tree: its root owns every other node.
#[derive(Debug)]
pub struct MerkleTree {
    pub root: Box<MerkelNode>,
}

impl MerkleTree {
    pub open spec fn wf(&self) -> bool {
        self.root.wf()
    }

    /// This tree is well formed, its root digest is the one of `items`, and
    /// its leaves hold exactly the digests of the items.
    pub open spec fn built_from(&self, items: Seq<Seq<u8>>) -> bool {
        &&& self.wf()
        &&& self.root@ == spec_tree(items)
        &&& self.root.data@ == merkle_root(items)
        &&& forall|h: Seq<u8>| self.root.has_leaf(h) == has_item_digest(items, h)
    }

    /// A placeholder tree whose root is a single leaf of zero bytes; `create`
    /// replaces it.
    pub fn new() -> (r: MerkleTree)
        ensures
            r.wf(),
            r.root.is_leaf(),
            r.root.data@ == Seq::new(32, |i: int| 0u8),
    {
        let r = MerkleTree { root: Box::new(MerkelNode::new([0u8; 32])) };
        assert(r.root.data@ =~= Seq::new(32, |i: int| 0u8));
        r
    }
    /// Combines each pair into a parent node; once one parent is left it
    /// becomes the root, otherwise the parents (the last one repeated when
    /// their count is odd) are paired and combined in turn.
    pub fn build_merkle_tree(&mut self, merkle_pairs: Vec<MerkelNodePair>)
        requires
            merkle_pairs@.len() >= 1,
            forall|k: int|
                0 <= k < merkle_pairs@.len() ==> (#[trigger] merkle_pairs@[k]).0.wf()
                    && merkle_pairs@[k].1.wf(),
        ensures
            final(self).wf(),
            final(self).root@ == reduce_trees(pair_trees(merkle_pairs@)),
            final(self).root.data@ == reduce(pair_digests(merkle_pairs@)),
            forall|h: Seq<u8>| final(self).root.has_leaf(h) == pairs_have(merkle_pairs@, h),
        decreases merkle_pairs@.len(),
    {
        let ghost ps = merkle_pairs@;
        let mut output_nodes: Vec<MerkelNode> = Vec::new();
        let mut i: usize = 0;
        while i < merkle_pairs.len()
            invariant
                ps == merkle_pairs@,
                i <= ps.len(),
                output_nodes@.len() == i,
                forall|k: int| 0 <= k < ps.len() ==> (#[trigger] ps[k]).0.wf() && ps[k].1.wf(),
                forall|k: int|
                    0 <= k < i ==> {
                        let n = #[trigger] output_nodes@[k];
                        &&& n.left == Some(Box::new(ps[k].0))
                        &&& n.right == Some(Box::new(ps[k].1))
                        &&& n.data@ == pair_digests(ps)[k]
                        &&& n@ == pair_trees(ps)[k]
                    },
            decreases ps.len() - i,
        {
            let pair = &merkle_pairs[i];
            proof {
                lemma_view_digest(&pair.0);
                lemma_view_digest(&pair.1);
            }
            let hash = hash_pair(&pair.0.data, &pair.1.data);
            let mut new_node = MerkelNode::new(hash);
            new_node.left = Some(Box::new(pair.0.duplicate()));
            new_node.right = Some(Box::new(pair.1.duplicate()));
            output_nodes.push(new_node);
            i += 1;
        }
        proof {
            assert forall|k: int| 0 <= k < output_nodes@.len() implies (#[trigger] output_nodes@[k]).wf() by {
                assert(ps[k].0.wf() && ps[k].1.wf());
            }
            assert(output_nodes@.map_values(|n: MerkelNode| n.data@) =~= pair_digests(ps));
            lemma_parents_have(ps, output_nodes@);
        }
        if output_nodes.len() == 1 {
            let last = output_nodes.pop();
            match last {
                Some(n) => {
                    self.root = Box::new(n);
                },
                None => {},
            }
            return;
        }
        let ghost level = output_nodes@;
        if output_nodes.len() % 2 != 0 {
            let dup = output_nodes[output_nodes.len() - 1].duplicate();
            output_nodes.push(dup);
        }
        assert(output_nodes@ == pad(level));
        let mut output_pairs: Vec<MerkelNodePair> = Vec::new();
        let mut j: usize = 0;
        while j < output_nodes.len() - 1
            invariant
                output_nodes@ == pad(level),
                output_nodes@.len() % 2 == 0,
                output_nodes@.len() >= 2,
                j % 2 == 0,
                j <= output_nodes@.len(),
                output_pairs@.len() == j / 2,
                forall|k: int|
                    0 <= k < j / 2 ==> #[trigger] output_pairs@[k] == (
                    output_nodes@[2 * k],
                    output_nodes@[2 * k + 1],
                ),
            decreases output_nodes@.len() - j,
        {
            let pair = (output_nodes[j].duplicate(), output_nodes[j + 1].duplicate());
            output_pairs.push(pair);
            j += 2;
        }
        proof {
            let d = pair_digests(ps);
            lemma_pad_nodes(level);
            assert(pair_digests(output_pairs@) =~= pair_up(pad(d)));
            assert(output_nodes@.map_values(|n: MerkelNode| n@) =~= pad(pair_trees(ps)));
            assert(pair_trees(output_pairs@) =~= join_up(pad(pair_trees(ps))));
            assert forall|k: int| 0 <= k < output_pairs@.len() implies (#[trigger] output_pairs@[k]).0.wf()
                && output_pairs@[k].1.wf() by {
                assert(output_nodes@[2 * k].wf());
                assert(output_nodes@[2 * k + 1].wf());
            }
            lemma_pairs_of_level(output_nodes@, output_pairs@);
        }
        self.build_merkle_tree(output_pairs);
    }

    /// Builds the tree from `data`, replacing the current root. When the
    /// count of items is odd, the last item is first appended to `data` once
    /// more. An empty `data` is refused and leaves everything unchanged.
    pub fn create(&mut self, data: &mut Vec<Vec<u8>>) -> (r: Result<(), MerkleError>)
        ensures
            old(data)@.len() == 0 <==> r == Err::<(), MerkleError>(MerkleError::InvalidInput),
            old(data)@.len() == 0 ==> *final(self) == *old(self) && final(data)@ == old(data)@,
            old(data)@.len() > 0 ==> {
                &&& r is Ok
                &&& views(final(data)@) == pad(views(old(data)@))
                &&& final(self).built_from(views(old(data)@))
            },
    {
        if data.len() == 0 {
            return Err(MerkleError::InvalidInput);
        }
        let ghost items = views(data@);
        if data.len() % 2 != 0 {
            let last = data[data.len() - 1].clone();
            assert(last@ =~= data@[data@.len() - 1]@);
            data.push(last);
        }
        assert(views(data@) =~= pad(items));
        let ghost padded = views(data@);
        let mut leaves: Vec<Digest> = Vec::new();
        let mut i: usize = 0;
        while i < data.len()
            invariant
                padded == views(data@),
                i <= data@.len(),
                leaves@.len() == i,
                forall|k: int| 0 <= k < i ==> (#[trigger] leaves@[k])@ == sha256_of(padded[k]),
            decreases data@.len() - i,
        {
            let hash = sha256_hash(data[i].as_slice());
            leaves.push(hash);
            i += 1;
        }
        let mut merkle_node_pairs: Vec<MerkelNodePair> = Vec::new();
        let mut j: usize = 0;
        while j < leaves.len() - 1
            invariant
                leaves@.len() == padded.len(),
                padded.len() % 2 == 0,
                padded.len() >= 2,
                forall|k: int| 0 <= k < padded.len() ==> (#[trigger] leaves@[k])@ == sha256_of(padded[k]),
                j % 2 == 0,
                j <= leaves@.len(),
                merkle_node_pairs@.len() == j / 2,
                forall|k: int|
                    0 <= k < j / 2 ==> {
                        let p = #[trigger] merkle_node_pairs@[k];
                        &&& p.0.is_leaf() && p.0.data == leaves@[2 * k]
                        &&& p.1.is_leaf() && p.1.data == leaves@[2 * k + 1]
                    },
            decreases leaves@.len() - j,
        {
            let pair = (MerkelNode::new(leaves[j]), MerkelNode::new(leaves[j + 1]));
            merkle_node_pairs.push(pair);
            j += 2;
        }
        proof {
            let ps = merkle_node_pairs@;
            assert(leaf_digests(padded) == pad(leaf_digests(items))) by {
                assert(leaf_digests(padded) =~= pad(leaf_digests(items)));
            }
            assert(pair_digests(ps) =~= pair_up(pad(leaf_digests(items))));
            assert forall|k: int| 0 <= k < ps.len() implies (#[trigger] ps[k]).0@ == leaf_level(items)[2 * k]
                && ps[k].1@ == leaf_level(items)[2 * k + 1] by {
                assert(leaf_digests(padded)[2 * k] == sha256_of(padded[2 * k]));
                assert(leaf_digests(padded)[2 * k + 1] == sha256_of(padded[2 * k + 1]));
            }
            assert(pair_trees(ps) =~= join_up(leaf_level(items)));
            assert forall|k: int| 0 <= k < ps.len() implies (#[trigger] ps[k]).0.wf() && ps[k].1.wf() by {}
            assert forall|h: Seq<u8>| pairs_have(ps, h) == has_item_digest(items, h) by {
                if pairs_have(ps, h) {
                    let k = choose|k: int| 0 <= k < ps.len() && (ps[k].0.has_leaf(h) || ps[k].1.has_leaf(h));
                    let m = if ps[k].0.has_leaf(h) { 2 * k } else { 2 * k + 1 };
                    assert(sha256_of(padded[m]) == h);
                    if m < items.len() {
                        assert(sha256_of(items[m]) == h);
                    } else {
                        assert(sha256_of(items[items.len() - 1]) == h);
                    }
                }
                if has_item_digest(items, h) {
                    let m = choose|m: int| 0 <= m < items.len() && sha256_of(items[m]) == h;
                    assert(padded[m] == items[m]);
                    let k = m / 2;
                    assert(ps[k].0.has_leaf(h) || ps[k].1.has_leaf(h));
                }
            }
        }
        self.build_merkle_tree(merkle_node_pairs);
        Ok(())
    }

    /// Builds a tree from `items`; an empty sequence is refused.
    pub fn build(items: &Vec<Vec<u8>>) -> (r: Result<MerkleTree, MerkleError>)
        ensures
            items@.len() == 0 <==> r is Err,
            r is Err ==> r == Err::<MerkleTree, MerkleError>(MerkleError::InvalidInput),
            r matches Ok(t) ==> t.built_from(views(items@)),
    {
        let mut data = items.clone();
        assert(views(data@) =~= views(items@)) by {
            assert forall|k: int| 0 <= k < data@.len() implies #[trigger] data@[k]@ == items@[k]@ by {
                assert(cloned::<Vec<u8>>(items@[k], data@[k]));
            }
        }
        let mut tree = MerkleTree::new();
        match tree.create(&mut data) {
            Ok(()) => Ok(tree),
            Err(e) => Err(e),
        }
    }

}

proof fn lemma_view_digest(n: &MerkelNode)
    ensures
        n@.digest() == n.data@,
{
}

/// The parents of a sequence of pairs hold the leaves that the pairs hold.
proof fn lemma_parents_have(ps: Seq<MerkelNodePair>, ns: Seq<MerkelNode>)
    requires
        ns.len() == ps.len(),
        forall|k: int|
            0 <= k < ps.len() ==> (#[trigger] ns[k]).left == Some(Box::new(ps[k].0)) && ns[k].right
                == Some(Box::new(ps[k].1)),
    ensures
        forall|h: Seq<u8>| nodes_have(ns, h) == pairs_have(ps, h),
{
    assert forall|h: Seq<u8>| nodes_have(ns, h) == pairs_have(ps, h) by {
        if nodes_have(ns, h) {
            let k = choose|k: int| 0 <= k < ns.len() && ns[k].has_leaf(h);
            assert(ps[k].0.has_leaf(h) || ps[k].1.has_leaf(h));
        }
        if pairs_have(ps, h) {
            let k = choose|k: int| 0 <= k < ps.len() && (ps[k].0.has_leaf(h) || ps[k].1.has_leaf(h));
            assert(ns[k].has_leaf(h));
        }
    }
}

/// Padding a level keeps its well-formedness, the leaves it holds, and pads
/// its digests.
proof fn lemma_pad_nodes(ns: Seq<MerkelNode>)
    requires
        ns.len() >= 1,
        forall|k: int| 0 <= k < ns.len() ==> (#[trigger] ns[k]).wf(),
    ensures
        forall|k: int| 0 <= k < pad(ns).len() ==> (#[trigger] pad(ns)[k]).wf(),
        pad(ns).map_values(|n: MerkelNode| n.data@) == pad(ns.map_values(|n: MerkelNode| n.data@)),
        forall|h: Seq<u8>| nodes_have(pad(ns), h) == nodes_have(ns, h),
{
    assert(pad(ns).map_values(|n: MerkelNode| n.data@) =~= pad(ns.map_values(|n: MerkelNode| n.data@)));
    assert forall|h: Seq<u8>| nodes_have(pad(ns), h) == nodes_have(ns, h) by {
        if nodes_have(pad(ns), h) {
            let k = choose|k: int| 0 <= k < pad(ns).len() && pad(ns)[k].has_leaf(h);
            if k >= ns.len() {
                assert(ns[ns.len() - 1].has_leaf(h));
            } else {
                assert(ns[k].has_leaf(h));
            }
        }
        if nodes_have(ns, h) {
            let k = choose|k: int| 0 <= k < ns.len() && ns[k].has_leaf(h);
            assert(pad(ns)[k].has_leaf(h));
        }
    }
}

/// Pairing neighbours of an even level keeps the leaves it holds.
proof fn lemma_pairs_of_level(ns: Seq<MerkelNode>, ps: Seq<MerkelNodePair>)
    requires
        ns.len() % 2 == 0,
        ps.len() == ns.len() / 2,
        forall|k: int| 0 <= k < ps.len() ==> #[trigger] ps[k] == (ns[2 * k], ns[2 * k + 1]),
    ensures
        forall|h: Seq<u8>| pairs_have(ps, h) == nodes_have(ns, h),
{
    assert forall|h: Seq<u8>| pairs_have(ps, h) == nodes_have(ns, h) by {
        if pairs_have(ps, h) {
            let k = choose|k: int| 0 <= k < ps.len() && (ps[k].0.has_leaf(h) || ps[k].1.has_leaf(h));
            assert(ps[k] == (ns[2 * k], ns[2 * k + 1]));
            if ps[k].0.has_leaf(h) {
                assert(ns[2 * k].has_leaf(h));
            } else {
                assert(ns[2 * k + 1].has_leaf(h));
            }
        }
        if nodes_have(ns, h) {
            let m = choose|m: int| 0 <= m < ns.len() && ns[m].has_leaf(h);
            let k = m / 2;
            assert(ps[k] == (ns[2 * k], ns[2 * k + 1]));
            assert(ps[k].0.has_leaf(h) || ps[k].1.has_leaf(h));
        }
    }
}

} // verus!
