use merkle_tree::{reduce_string, MerkelNode, MerkleError, MerkleTree, ProofStep};
use sha2::{Digest as _, Sha256};

fn items(xs: &[&str]) -> Vec<Vec<u8>> {
    xs.iter().map(|x| x.as_bytes().to_vec()).collect()
}

fn sha(data: &[u8]) -> [u8; 32] {
    Sha256::digest(data).into()
}

fn pair(a: &[u8; 32], b: &[u8; 32]) -> [u8; 32] {
    let mut buf = a.to_vec();
    buf.extend_from_slice(b);
    sha(&buf)
}

fn hex(d: &[u8; 32]) -> String {
    d.iter().map(|b| format!("{:02x}", b)).collect()
}

fn depth(node: &MerkelNode) -> usize {
    match (&node.left, &node.right) {
        (Some(l), Some(r)) => {
            let dl = depth(l);
            assert_eq!(dl, depth(r));
            dl + 1
        }
        (None, None) => 0,
        _ => panic!("node with one child"),
    }
}

const EIGHT: [&str; 8] = ["a", "b", "c", "d", "e", "f", "g", "h"];

#[test]
fn test_merkle_tree() {
    let mut merkle_tree = MerkleTree::new();
    let mut data = items(&EIGHT);
    assert_eq!(merkle_tree.create(&mut data), Ok(()));

    let proof = merkle_tree.get_proof("c".as_bytes());
    if let Some(proof) = proof {
        println!("Inclusion proof for 'c': {:?}", proof);
        let is_valid = merkle_tree.verify_proof("c".as_bytes(), &proof);
        println!("Is the proof valid? {}", is_valid);
        assert!(is_valid);
    } else {
        panic!("Data 'c' not found in the tree");
    }

    let exclusion_proof = merkle_tree.get_proof("x".as_bytes());
    if let Some(proof) = exclusion_proof {
        println!("Exclusion proof for 'x': {:?}", proof);
        let is_valid = merkle_tree.verify_proof("x".as_bytes(), &proof);
        println!("Is the exclusion proof valid? {}", is_valid);
        panic!("'x' has a proof");
    } else {
        println!("Data 'x' is not in the tree (as expected)");
    }
}

#[test]
fn eight_items_scenario() {
    let tree = MerkleTree::build(&items(&EIGHT)).unwrap();
    assert_eq!(depth(&tree.root), 3);
    let proof = tree.get_proof(b"c").unwrap();
    assert_eq!(proof.len(), 3);
    assert!(tree.verify_proof(b"c", &proof));
    assert!(tree.get_proof(b"x").is_none());

    let h: Vec<[u8; 32]> = EIGHT.iter().map(|x| sha(x.as_bytes())).collect();
    let ab = pair(&h[0], &h[1]);
    let cd = pair(&h[2], &h[3]);
    let ef = pair(&h[4], &h[5]);
    let gh = pair(&h[6], &h[7]);
    let abcd = pair(&ab, &cd);
    let efgh = pair(&ef, &gh);
    assert_eq!(tree.root.data, pair(&abcd, &efgh));
    assert_eq!(
        proof,
        vec![
            ProofStep { digest: h[3], is_left: false },
            ProofStep { digest: ab, is_left: true },
            ProofStep { digest: efgh, is_left: false },
        ]
    );
}

#[test]
fn every_item_has_a_valid_proof() {
    for n in 1..=9 {
        let xs = &["a", "b", "c", "d", "e", "f", "g", "h", "i"][..n];
        let tree = MerkleTree::build(&items(xs)).unwrap();
        for x in xs {
            let proof = tree.get_proof(x.as_bytes()).unwrap();
            assert!(tree.verify_proof(x.as_bytes(), &proof), "{} of {}", x, n);
        }
        assert!(tree.get_proof(b"zz").is_none());
    }
}

#[test]
fn right_child_on_odd_depth_verifies() {
    let tree = MerkleTree::build(&items(&["a", "b", "c", "d", "e"])).unwrap();
    assert_eq!(depth(&tree.root), 3);
    let proof = tree.get_proof(b"e").unwrap();
    assert_eq!(proof.len(), 3);
    assert!(proof[0].is_left == false);
    assert!(proof[2].is_left);
    assert!(tree.verify_proof(b"e", &proof));
    let d = tree.get_proof(b"d").unwrap();
    assert!(d[0].is_left);
    assert!(tree.verify_proof(b"d", &d));
}

#[test]
fn single_item_is_paired_with_itself() {
    let tree = MerkleTree::build(&items(&["a"])).unwrap();
    let leaf = sha(b"a");
    assert_eq!(
        hex(&leaf),
        "ca978112ca1bbdcafac231b39a23dc4da786eff8147c4e72b9807785afee48bb"
    );
    assert_eq!(tree.root.data, pair(&leaf, &leaf));
    assert_eq!(depth(&tree.root), 1);
    assert_eq!(tree.root.left.as_ref().unwrap().data, leaf);
    assert_eq!(tree.root.right.as_ref().unwrap().data, leaf);
    let proof = tree.get_proof(b"a").unwrap();
    assert_eq!(proof, vec![ProofStep { digest: leaf, is_left: false }]);
    assert!(tree.verify_proof(b"a", &proof));
}

#[test]
fn empty_input_is_rejected() {
    assert_eq!(MerkleTree::build(&Vec::new()).unwrap_err(), MerkleError::InvalidInput);
    let mut tree = MerkleTree::new();
    let mut data: Vec<Vec<u8>> = Vec::new();
    assert_eq!(tree.create(&mut data), Err(MerkleError::InvalidInput));
    assert_eq!(tree.root.data, [0u8; 32]);
    assert!(data.is_empty());
}

#[test]
fn odd_count_duplicates_last_item() {
    let three = MerkleTree::build(&items(&["a", "b", "c"])).unwrap();
    let four = MerkleTree::build(&items(&["a", "b", "c", "c"])).unwrap();
    assert_eq!(three.root.data, four.root.data);
    let (a, b, c) = (sha(b"a"), sha(b"b"), sha(b"c"));
    assert_eq!(three.root.data, pair(&pair(&a, &b), &pair(&c, &c)));

    let mut tree = MerkleTree::new();
    let mut data = items(&["a", "b", "c"]);
    tree.create(&mut data).unwrap();
    assert_eq!(data, items(&["a", "b", "c", "c"]));
}

#[test]
fn odd_internal_level_duplicates_last_node() {
    let tree = MerkleTree::build(&items(&["a", "b", "c", "d", "e", "f"])).unwrap();
    let h: Vec<[u8; 32]> = ["a", "b", "c", "d", "e", "f"].iter().map(|x| sha(x.as_bytes())).collect();
    let ab = pair(&h[0], &h[1]);
    let cd = pair(&h[2], &h[3]);
    let ef = pair(&h[4], &h[5]);
    assert_eq!(tree.root.data, pair(&pair(&ab, &cd), &pair(&ef, &ef)));
}

#[test]
fn rebuilding_gives_same_root() {
    let t1 = MerkleTree::build(&items(&["p", "q", "r"])).unwrap();
    let t2 = MerkleTree::build(&items(&["p", "q", "r"])).unwrap();
    assert_eq!(t1.root.data, t2.root.data);
    let t3 = MerkleTree::build(&items(&["q", "p", "r"])).unwrap();
    assert_ne!(t1.root.data, t3.root.data);
}

#[test]
fn tampered_proof_fails() {
    let tree = MerkleTree::build(&items(&EIGHT)).unwrap();
    let proof = tree.get_proof(b"f").unwrap();
    for step in 0..proof.len() {
        for byte in 0..32 {
            let mut bad = proof.clone();
            bad[step].digest[byte] ^= 0x01;
            assert!(!tree.verify_proof(b"f", &bad));
        }
        let mut flipped = proof.clone();
        flipped[step].is_left = !flipped[step].is_left;
        assert!(!tree.verify_proof(b"f", &flipped));
    }
}

#[test]
fn swapped_item_fails() {
    let tree = MerkleTree::build(&items(&EIGHT)).unwrap();
    let proof = tree.get_proof(b"c").unwrap();
    assert!(!tree.verify_proof(b"d", &proof));
    assert!(!tree.verify_proof(b"x", &proof));
    assert!(!tree.verify_proof(b"c", &[]));
}

#[test]
fn new_tree_is_a_zero_leaf() {
    let tree = MerkleTree::new();
    assert!(tree.root.left.is_none() && tree.root.right.is_none());
    assert_eq!(tree.root.data, [0u8; 32]);
    let leaf = MerkelNode::new([5u8; 32]);
    assert_eq!(leaf.data, [5u8; 32]);
    assert!(leaf.left.is_none() && leaf.right.is_none());
}

#[test]
fn duplicate_copies_whole_subtree() {
    let tree = MerkleTree::build(&items(&["a", "b", "c"])).unwrap();
    let copy = tree.root.duplicate();
    assert_eq!(copy.data, tree.root.data);
    assert_eq!(depth(&copy), 2);
    assert_eq!(
        copy.right.as_ref().unwrap().left.as_ref().unwrap().data,
        sha(b"c")
    );
}

#[test]
fn reduce_string_keeps_ends() {
    assert_eq!(reduce_string("abcdefghij".to_owned()), "abc...ghij");
    assert_eq!(reduce_string("1234567".to_owned()), "123...4567");
    assert_eq!(reduce_string("abcd".to_owned()), "abc...abcd");
    assert_eq!(reduce_string("abcdef".to_owned()), "abc...cdef");
}

fn leaves(node: &MerkelNode, out: &mut Vec<[u8; 32]>) {
    match (&node.left, &node.right) {
        (Some(l), Some(r)) => {
            leaves(l, out);
            leaves(r, out);
        }
        _ => out.push(node.data),
    }
}

#[test]
fn leaves_are_in_input_order() {
    let tree = MerkleTree::build(&items(&EIGHT)).unwrap();
    let mut got = Vec::new();
    leaves(&tree.root, &mut got);
    let want: Vec<[u8; 32]> = EIGHT.iter().map(|x| sha(x.as_bytes())).collect();
    assert_eq!(got, want);

    let five = MerkleTree::build(&items(&["a", "b", "c", "d", "e"])).unwrap();
    let mut got = Vec::new();
    leaves(&five.root, &mut got);
    let e = sha(b"e");
    let mut want: Vec<[u8; 32]> = ["a", "b", "c", "d"].iter().map(|x| sha(x.as_bytes())).collect();
    want.extend([e, e, e, e]);
    assert_eq!(got, want);
}

#[test]
fn single_pair_becomes_root() {
    let mut tree = MerkleTree::new();
    let l = MerkelNode::new(sha(b"l"));
    let r = MerkelNode::new(sha(b"r"));
    tree.build_merkle_tree(vec![(l, r)]);
    assert_eq!(tree.root.data, pair(&sha(b"l"), &sha(b"r")));
    assert_eq!(tree.root.left.as_ref().unwrap().data, sha(b"l"));
    assert_eq!(tree.root.right.as_ref().unwrap().data, sha(b"r"));
    assert!(tree.root.left.as_ref().unwrap().left.is_none());
}
