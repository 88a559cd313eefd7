use vstd::prelude::*;
use crate::digest::sha256_of;
use crate::inclusion::replay;
use crate::node::{join, MerkelNode, TreeModel};
use crate::tree::{
    has_item_digest, join_up, leaf_digests, leaf_level, merkle_root, pad, reduce_trees, spec_tree,
    MerkleTree,
};

verus! {

/// In a well-formed subtree, a path exists exactly for the digests that
/// some leaf holds.
pub proof fn lemma_path_exists_iff_leaf(node: &MerkelNode, h: Seq<u8>)
    requires
        node.wf(),
    ensures
        node.proof_path(h) is Some <==> node.has_leaf(h),
    decreases node,
{
    match node.left {
        None => {},
        Some(l) => match node.right {
            None => {},
            Some(r) => {
                lemma_path_exists_iff_leaf(&l, h);
                lemma_path_exists_iff_leaf(&r, h);
            },
        },
    }
}

/// In a well-formed subtree, replaying the path found for `h` from `h`
/// gives the subtree's digest.
pub proof fn lemma_path_replays_to_digest(node: &MerkelNode, h: Seq<u8>)
    requires
        node.wf(),
        node.proof_path(h) is Some,
    ensures
        replay(h, node.proof_path(h)->0) == node.data@,
    decreases node,
{
    match node.left {
        None => {},
        Some(l) => match node.right {
            None => {},
            Some(r) => {
                match l.proof_path(h) {
                    Some(p) => {
                        lemma_path_replays_to_digest(&l, h);
                        assert(node.proof_path(h)->0.drop_last() =~= p);
                    },
                    None => {
                        let p = r.proof_path(h)->0;
                        lemma_path_replays_to_digest(&r, h);
                        assert(node.proof_path(h)->0.drop_last() =~= p);
                    },
                }
            },
        },
    }
}

/// Every item of the sequence a tree was built from has a proof, and that
/// proof verifies against the tree's root.
pub proof fn lemma_member_proof_verifies(tree: &MerkleTree, items: Seq<Seq<u8>>, x: Seq<u8>)
    requires
        tree.built_from(items),
        items.contains(x),
    ensures
        tree.root.proof_path(sha256_of(x)) is Some,
        replay(sha256_of(x), tree.root.proof_path(sha256_of(x))->0) == tree.root.data@,
{
    let i = choose|i: int| 0 <= i < items.len() && items[i] == x;
    assert(has_item_digest(items, sha256_of(x)));
    lemma_path_exists_iff_leaf(&tree.root, sha256_of(x));
    lemma_path_replays_to_digest(&tree.root, sha256_of(x));
}

/// An item whose digest differs from the digest of every item the tree was
/// built from has no proof.
pub proof fn lemma_absent_item_has_no_proof(tree: &MerkleTree, items: Seq<Seq<u8>>, y: Seq<u8>)
    requires
        tree.built_from(items),
        forall|i: int| 0 <= i < items.len() ==> sha256_of(#[trigger] items[i]) != sha256_of(y),
    ensures
        tree.root.proof_path(sha256_of(y)) is None,
{
    if has_item_digest(items, sha256_of(y)) {
        let i = choose|i: int| 0 <= i < items.len() && sha256_of(items[i]) == sha256_of(y);
        assert(sha256_of(items[i]) != sha256_of(y));
    }
    lemma_path_exists_iff_leaf(&tree.root, sha256_of(y));
}

/// Two trees built from the same items have the same shape, the same
/// digests everywhere, and so the same root digest.
pub proof fn lemma_build_deterministic(t1: &MerkleTree, t2: &MerkleTree, items: Seq<Seq<u8>>)
    requires
        t1.built_from(items),
        t2.built_from(items),
    ensures
        t1.root@ == t2.root@,
        t1.root.data@ == t2.root.data@,
{
}

/// Appending a copy of the last item to an odd-length sequence does not
/// change the root digest.
pub proof fn lemma_odd_padding(items: Seq<Seq<u8>>)
    requires
        items.len() >= 1,
    ensures
        merkle_root(pad(items)) == merkle_root(items),
{
    assert(leaf_digests(pad(items)) =~= pad(leaf_digests(items)));
    assert(pad(pad(leaf_digests(items))) =~= pad(leaf_digests(items)));
}

/// Reducing a level of perfect subtrees of one height gives a perfect tree
/// at least that high.
proof fn lemma_reduce_perfect(s: Seq<TreeModel>, k: nat)
    requires
        s.len() >= 1,
        forall|i: int| 0 <= i < s.len() ==> (#[trigger] s[i]).is_perfect() && s[i].height() == k,
    ensures
        reduce_trees(s).is_perfect(),
        reduce_trees(s).height() >= k,
    decreases s.len(),
{
    if s.len() > 1 {
        let t = join_up(pad(s));
        assert forall|i: int| 0 <= i < t.len() implies (#[trigger] t[i]).is_perfect() && t[i].height() == k + 1 by {
            assert(pad(s)[2 * i].is_perfect() && pad(s)[2 * i + 1].is_perfect());
            assert(t[i] == join(pad(s)[2 * i], pad(s)[2 * i + 1]));
        }
        lemma_reduce_perfect(t, k + 1);
    }
}

/// The tree built from a non-empty item sequence has an internal root and
/// all its leaves at one depth.
pub proof fn lemma_built_tree_is_perfect(items: Seq<Seq<u8>>)
    requires
        items.len() >= 1,
    ensures
        spec_tree(items).is_perfect(),
        spec_tree(items).height() >= 1,
        spec_tree(items) is Branch,
{
    let s = join_up(leaf_level(items));
    assert forall|i: int| 0 <= i < s.len() implies (#[trigger] s[i]).is_perfect() && s[i].height() == 1 by {
        let p = pad(leaf_digests(items));
        assert(p.len() % 2 == 0);
        assert(leaf_level(items)[2 * i] == TreeModel::Leaf(p[2 * i]));
        assert(leaf_level(items)[2 * i + 1] == TreeModel::Leaf(p[2 * i + 1]));
        assert(s[i] == join(leaf_level(items)[2 * i], leaf_level(items)[2 * i + 1]));
        assert(leaf_level(items)[2 * i].is_perfect() && leaf_level(items)[2 * i].height() == 0);
        assert(leaf_level(items)[2 * i + 1].is_perfect() && leaf_level(items)[2 * i + 1].height() == 0);
    }
    lemma_reduce_perfect(s, 1);
}

/// In a well-formed subtree whose leaves lie at one depth, a path has one
/// step for each level below the subtree's root.
pub proof fn lemma_path_length(node: &MerkelNode, h: Seq<u8>)
    requires
        node.wf(),
        node@.is_perfect(),
        node.proof_path(h) is Some,
    ensures
        node.proof_path(h)->0.len() == node@.height(),
    decreases node,
{
    match node.left {
        None => {},
        Some(l) => match node.right {
            None => {},
            Some(r) => {
                if l.proof_path(h) is Some {
                    lemma_path_length(&l, h);
                } else {
                    lemma_path_length(&r, h);
                }
            },
        },
    }
}

/// Every proof from a built tree has as many steps as the tree is high,
/// whichever leaf it leads to.
pub proof fn lemma_proof_length_is_height(tree: &MerkleTree, items: Seq<Seq<u8>>, h: Seq<u8>)
    requires
        tree.built_from(items),
        items.len() >= 1,
        tree.root.proof_path(h) is Some,
    ensures
        tree.root.proof_path(h)->0.len() == spec_tree(items).height(),
        spec_tree(items).height() >= 1,
{
    lemma_built_tree_is_perfect(items);
    lemma_path_length(&tree.root, h);
}
/// The leaf digests of a level of subtrees, left to right.
pub open spec fn level_leaves(s: Seq<TreeModel>) -> Seq<Seq<u8>>
    decreases s.len(),
{
    if s.len() == 0 {
        Seq::empty()
    } else {
        level_leaves(s.drop_last()) + s.last().leaves()
    }
}

/// `p` is a prefix of `s`.
pub open spec fn is_prefix(p: Seq<Seq<u8>>, s: Seq<Seq<u8>>) -> bool {
    p.len() <= s.len() && s.subrange(0, p.len() as int) == p
}

proof fn lemma_join_up_leaves(t: Seq<TreeModel>)
    requires
        t.len() % 2 == 0,
    ensures
        level_leaves(join_up(t)) == level_leaves(t),
    decreases t.len(),
{
    if t.len() > 0 {
        let n = t.len() as int;
        let u = t.subrange(0, n - 2);
        lemma_join_up_leaves(u);
        assert(join_up(t).drop_last() =~= join_up(u));
        assert(t.drop_last().drop_last() =~= u);
        assert(t.drop_last().last() == t[n - 2]);
        assert(join_up(t).last() == join(t[n - 2], t[n - 1]));
        assert(level_leaves(t) == level_leaves(t.drop_last()) + t.last().leaves());
        assert(level_leaves(t.drop_last()) == level_leaves(u) + t[n - 2].leaves());
        assert(level_leaves(t) =~= level_leaves(u) + t[n - 2].leaves() + t[n - 1].leaves());
        assert(level_leaves(join_up(t)) =~= level_leaves(u) + (t[n - 2].leaves() + t[n - 1].leaves()));
    }
}

proof fn lemma_pad_leaves(s: Seq<TreeModel>)
    ensures
        is_prefix(level_leaves(s), level_leaves(pad(s))),
{
    if s.len() % 2 == 1 {
        assert(pad(s).drop_last() =~= s);
    }
    assert(level_leaves(pad(s)).subrange(0, level_leaves(s).len() as int) =~= level_leaves(s));
}

proof fn lemma_reduce_leaves(s: Seq<TreeModel>)
    requires
        s.len() >= 1,
    ensures
        is_prefix(level_leaves(s), reduce_trees(s).leaves()),
    decreases s.len(),
{
    if s.len() <= 1 {
        assert(s.drop_last() =~= Seq::<TreeModel>::empty());
        assert(level_leaves(s) == level_leaves(s.drop_last()) + s.last().leaves());
        assert(level_leaves(s.drop_last()) == Seq::<Seq<u8>>::empty());
        assert(level_leaves(s) =~= s[0].leaves());
        assert(s[0].leaves().subrange(0, s[0].leaves().len() as int) =~= s[0].leaves());
    } else {
        let t = join_up(pad(s));
        lemma_pad_leaves(s);
        lemma_join_up_leaves(pad(s));
        lemma_reduce_leaves(t);
        let a = level_leaves(s);
        let b = level_leaves(pad(s));
        let c = reduce_trees(s).leaves();
        assert(c.subrange(0, a.len() as int) =~= c.subrange(0, b.len() as int).subrange(0, a.len() as int));
    }
}

proof fn lemma_leaf_level_leaves(d: Seq<Seq<u8>>)
    ensures
        level_leaves(d.map_values(|h: Seq<u8>| TreeModel::Leaf(h))) == d,
    decreases d.len(),
{
    if d.len() > 0 {
        lemma_leaf_level_leaves(d.drop_last());
        assert(d.map_values(|h: Seq<u8>| TreeModel::Leaf(h)).drop_last() =~= d.drop_last().map_values(
            |h: Seq<u8>| TreeModel::Leaf(h),
        ));
        assert(TreeModel::Leaf(d.last()).leaves() == seq![d.last()]);
        assert(d =~= d.drop_last() + seq![d.last()]);
    }
}

/// The leaves of the tree built from `items`, read left to right, begin
/// with the items' digests in input order.
pub proof fn lemma_leaves_in_input_order(items: Seq<Seq<u8>>)
    requires
        items.len() >= 1,
    ensures
        is_prefix(leaf_digests(items), spec_tree(items).leaves()),
{
    let ll = leaf_level(items);
    let p = pad(leaf_digests(items));
    lemma_leaf_level_leaves(p);
    lemma_join_up_leaves(ll);
    lemma_reduce_leaves(join_up(ll));
    let c = spec_tree(items).leaves();
    let n = leaf_digests(items).len() as int;
    assert(p.subrange(0, n) =~= leaf_digests(items));
    assert(c.subrange(0, n) =~= c.subrange(0, p.len() as int).subrange(0, n));
}
} // verus!
