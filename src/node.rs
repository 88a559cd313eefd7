use vstd::prelude::*;
use crate::digest::{digest_pair, Digest};

verus! {

/// One step of an inclusion proof: the digest of the sibling on the path,
/// and whether that sibling stands to the left of the path.
#[derive(Clone, Copy, Debug, PartialEq, Eq)]
pub struct ProofStep {
    pub digest: Digest,
    pub is_left: bool,
}

/// The mathematical model of a tree: every vertex with its digest.
pub enum TreeModel {
    Leaf(Seq<u8>),
    Branch(Seq<u8>, Box<TreeModel>, Box<TreeModel>),
}

impl TreeModel {
    pub open spec fn digest(self) -> Seq<u8> {
        match self {
            TreeModel::Leaf(d) => d,
            TreeModel::Branch(d, _, _) => d,
        }
    }

    /// Number of edges from the root down to its leftmost leaf.
    pub open spec fn height(self) -> nat
        decreases self,
    {
        match self {
            TreeModel::Leaf(_) => 0,
            TreeModel::Branch(_, l, _) => l.height() + 1,
        }
    }

    /// Every internal vertex has two subtrees of equal height, so all
    /// leaves lie at the same depth.
    pub open spec fn is_perfect(self) -> bool
        decreases self,
    {
        match self {
            TreeModel::Leaf(_) => true,
            TreeModel::Branch(_, l, r) => l.is_perfect() && r.is_perfect() && l.height() == r.height(),
        }
    }

    /// The leaf digests, left to right.
    pub open spec fn leaves(self) -> Seq<Seq<u8>>
        decreases self,
    {
        match self {
            TreeModel::Leaf(d) => seq![d],
            TreeModel::Branch(_, l, r) => l.leaves() + r.leaves(),
        }
    }
}

/// The parent of two subtrees.
pub open spec fn join(left: TreeModel, right: TreeModel) -> TreeModel {
    TreeModel::Branch(digest_pair(left.digest(), right.digest()), Box::new(left), Box::new(right))
}

/// A vertex of the tree. A leaf has no children and holds the digest of
/// one item; an internal node has two children and holds the digest of
/// their concatenated digests.
#[derive(Debug)]
pub struct MerkelNode {
    pub data: Digest,
    pub left: Option<Box<MerkelNode>>,
    pub right: Option<Box<MerkelNode>>,
}

impl MerkelNode {
    /// The model of the subtree rooted here.
    pub open spec fn view(&self) -> TreeModel
        decreases self,
    {
        match self.left {
            Some(l) => match self.right {
                Some(r) => TreeModel::Branch(self.data@, Box::new(l.view()), Box::new(r.view())),
                None => TreeModel::Leaf(self.data@),
            },
            None => TreeModel::Leaf(self.data@),
        }
    }

    pub open spec fn is_leaf(&self) -> bool {
        self.left.is_none() && self.right.is_none()
    }

    /// Every node has zero or two children, and every internal digest is
    /// the digest of its children's digests.
    pub open spec fn wf(&self) -> bool
        decreases self,
    {
        match self.left {
            None => self.right.is_none(),
            Some(l) => match self.right {
                None => false,
                Some(r) => l.wf() && r.wf() && self.data@ == digest_pair(l.data@, r.data@),
            },
        }
    }

    /// Some leaf below this node (or the node itself) holds digest `h`.
    pub open spec fn has_leaf(&self, h: Seq<u8>) -> bool
        decreases self,
    {
        match self.left {
            None => match self.right {
                None => self.data@ == h,
                Some(r) => r.has_leaf(h),
            },
            Some(l) => l.has_leaf(h) || match self.right {
                None => false,
                Some(r) => r.has_leaf(h),
            },
        }
    }

    /// The authentication path to the leftmost leaf holding `h`: sibling
    /// digests from the leaf's sibling up to the child of this node,
    /// searching the left subtree before the right one.
    pub open spec fn proof_path(&self, h: Seq<u8>) -> Option<Seq<ProofStep>>
        decreases self,
    {
        match self.left {
            None => if self.data@ == h {
                Some(Seq::empty())
            } else {
                None
            },
            Some(l) => match self.right {
                None => None,
                Some(r) => match l.proof_path(h) {
                    Some(p) => Some(p.push(ProofStep { digest: r.data, is_left: false })),
                    None => match r.proof_path(h) {
                        Some(p) => Some(p.push(ProofStep { digest: l.data, is_left: true })),
                        None => None,
                    },
                },
            },
        }
    }

    /// A leaf holding `data`.
    pub fn new(data: Digest) -> (r: MerkelNode)
        ensures
            r.data == data,
            r.is_leaf(),
            r.wf(),
            r@ == TreeModel::Leaf(data@),
    {
        MerkelNode { data, left: None, right: None }
    }

    /// A deep copy of this node and everything below it.
    pub fn duplicate(&self) -> (r: MerkelNode)
        ensures
            r == *self,
        decreases self,
    {
        let left = match &self.left {
            Some(l) => Some(Box::new(l.duplicate())),
            None => None,
        };
        let right = match &self.right {
            Some(r) => Some(Box::new(r.duplicate())),
            None => None,
        };
        MerkelNode { data: self.data, left, right }
    }
}

} // verus!
