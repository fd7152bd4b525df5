use plasma_operator::double_layer_tree::{DoubleLayerTree, DoubleLayerTreeLeaf};
use plasma_operator::error::Error;
use plasma_operator::merkle::{
    climb_branch, compute_branch, compute_next_level, compute_parent, compute_root, filler_node,
    Node,
};
use plasma_operator::primitives::{Address, Digest, Order};

fn leaf(owner: u8, end: u64, data: &[u8]) -> DoubleLayerTreeLeaf {
    DoubleLayerTreeLeaf { address: Address::new([owner; 20]), end, data: data.to_vec() }
}

fn sample_leaves() -> Vec<DoubleLayerTreeLeaf> {
    vec![
        leaf(2, 100, b"b100"),
        leaf(1, 50, b"a50"),
        leaf(1, 20, b"a20"),
        leaf(3, 7, b"c7"),
        leaf(1, 90, b"a90"),
        leaf(2, 10, b"b10"),
    ]
}

#[test]
fn every_leaf_has_a_proof_that_verifies() {
    let tree = DoubleLayerTree::generate(sample_leaves()).unwrap();
    let root = tree.get_root();
    for l in sample_leaves() {
        let proof = tree.generate_proof(&l).unwrap();
        assert!(DoubleLayerTree::verify(&l, &proof, &root));
    }
}

#[test]
fn a_changed_leaf_does_not_verify() {
    let tree = DoubleLayerTree::generate(sample_leaves()).unwrap();
    let root = tree.get_root();
    let original = leaf(1, 50, b"a50");
    let proof = tree.generate_proof(&original).unwrap();
    assert!(DoubleLayerTree::verify(&original, &proof, &root));
    assert!(!DoubleLayerTree::verify(&leaf(1, 50, b"a51"), &proof, &root));
    assert!(!DoubleLayerTree::verify(&leaf(1, 51, b"a50"), &proof, &root));
    assert!(!DoubleLayerTree::verify(&leaf(4, 50, b"a50"), &proof, &root));
    let other_root = Digest::new([1u8; 32]);
    assert!(!DoubleLayerTree::verify(&original, &proof, &other_root));
}

#[test]
fn a_changed_proof_does_not_verify() {
    let tree = DoubleLayerTree::generate(sample_leaves()).unwrap();
    let root = tree.get_root();
    let original = leaf(1, 50, b"a50");
    let mut proof = tree.generate_proof(&original).unwrap();
    proof.inner_siblings[0].digest.bytes[0] ^= 1;
    assert!(!DoubleLayerTree::verify(&original, &proof, &root));
    let mut proof = tree.generate_proof(&original).unwrap();
    proof.inner_position ^= 1;
    assert!(!DoubleLayerTree::verify(&original, &proof, &root));
    let mut proof = tree.generate_proof(&original).unwrap();
    proof.outer_siblings[0].index += 1;
    assert!(!DoubleLayerTree::verify(&original, &proof, &root));
}

#[test]
fn a_leaf_that_is_not_in_the_tree_has_no_proof() {
    let tree = DoubleLayerTree::generate(sample_leaves()).unwrap();
    assert!(tree.generate_proof(&leaf(1, 50, b"other")).is_none());
    assert!(tree.generate_proof(&leaf(1, 51, b"a50")).is_none());
    assert!(tree.generate_proof(&leaf(9, 50, b"a50")).is_none());
}

#[test]
fn the_root_does_not_depend_on_the_order_of_the_leaves() {
    let mut reversed = sample_leaves();
    reversed.reverse();
    let a = DoubleLayerTree::generate(sample_leaves()).unwrap().get_root();
    let b = DoubleLayerTree::generate(reversed).unwrap().get_root();
    assert_eq!(a.bytes, b.bytes);
    let mut fewer = sample_leaves();
    fewer.pop();
    let c = DoubleLayerTree::generate(fewer).unwrap().get_root();
    assert_ne!(a.bytes, c.bytes);
}

#[test]
fn two_leaves_with_one_key_are_refused() {
    let mut leaves = sample_leaves();
    leaves.push(leaf(1, 50, b"again"));
    assert_eq!(DoubleLayerTree::generate(leaves).err(), Some(Error::MalformedLeaf));
}

#[test]
fn the_tree_over_no_leaf_has_the_zero_root() {
    let tree = DoubleLayerTree::generate(Vec::new()).unwrap();
    assert_eq!(tree.get_root().bytes, [0u8; 32]);
}

#[test]
fn a_single_leaf_verifies_without_siblings() {
    let only = leaf(1, 5, b"x");
    let tree = DoubleLayerTree::generate(vec![leaf(1, 5, b"x")]).unwrap();
    let proof = tree.generate_proof(&only).unwrap();
    assert_eq!(proof.inner_siblings.len(), 0);
    assert_eq!(proof.outer_siblings.len(), 0);
    assert!(DoubleLayerTree::verify(&only, &proof, &tree.get_root()));
    assert!(!DoubleLayerTree::verify(&leaf(1, 6, b"x"), &proof, &tree.get_root()));
}

fn node(tag: u8, index: u64) -> Node {
    Node { digest: Digest::new([tag; 32]), index }
}

#[test]
fn the_parent_commits_to_both_children_and_takes_the_left_index() {
    let a = node(1, 10);
    let b = node(2, 20);
    let parent = compute_parent(&a, &b);
    assert_eq!(parent.index, 10);
    assert_ne!(parent.digest.bytes, compute_parent(&b, &a).digest.bytes);
    assert_ne!(parent.digest.bytes, compute_parent(&a, &node(2, 21)).digest.bytes);
    assert_ne!(parent.digest.bytes, a.digest.bytes);
}

#[test]
fn levels_pair_up_and_the_odd_node_meets_the_filler() {
    let level = vec![node(1, 1), node(2, 2), node(3, 3)];
    let next = compute_next_level(&level);
    assert_eq!(next.len(), 2);
    assert_eq!(next[0].digest.bytes, compute_parent(&level[0], &level[1]).digest.bytes);
    assert_eq!(next[1].digest.bytes, compute_parent(&level[2], &filler_node()).digest.bytes);
    assert_eq!(next[1].index, 3);
    let root = compute_root(vec![node(1, 1), node(2, 2), node(3, 3)]);
    assert_eq!(root.digest.bytes, compute_parent(&next[0], &next[1]).digest.bytes);
    assert_eq!(compute_root(Vec::new()).index, u64::MAX);
}

#[test]
fn a_branch_climbs_to_the_root_in_order() {
    let level = || vec![node(1, 10), node(2, 20), node(3, 30), node(4, 40), node(5, 50)];
    let root = compute_root(level());
    for i in 0..5usize {
        let branch = compute_branch(level(), i);
        assert_eq!(branch.len(), 3);
        let (reached, ordered) = climb_branch(level()[i], i as u64, &branch);
        assert_eq!(reached.digest.bytes, root.digest.bytes);
        assert!(ordered);
    }
    let branch = compute_branch(level(), 1);
    let (_, ordered) = climb_branch(node(2, 5), 1, &branch);
    assert!(!ordered);
}

#[test]
fn addresses_are_ordered_by_their_bytes() {
    let mut low = [0u8; 20];
    low[19] = 1;
    let mut high = [0u8; 20];
    high[0] = 1;
    let low = Address::new(low);
    let high = Address::new(high);
    assert_eq!(low.order_to(&high), Order::Before);
    assert_eq!(high.order_to(&low), Order::After);
    assert_eq!(low.order_to(&low), Order::Same);
    assert!(low.same(&low));
    assert!(!low.same(&high));
}

#[test]
fn a_failed_check_is_a_verification_error() {
    let tree = DoubleLayerTree::generate(sample_leaves()).unwrap();
    let root = tree.get_root();
    let original = leaf(2, 10, b"b10");
    let proof = tree.generate_proof(&original).unwrap();
    assert_eq!(DoubleLayerTree::check(&original, &proof, &root), Ok(()));
    assert_eq!(
        DoubleLayerTree::check(&leaf(2, 11, b"b10"), &proof, &root),
        Err(Error::VerificationError)
    );
}
