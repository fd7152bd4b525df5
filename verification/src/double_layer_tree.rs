//! The two-layer Merkle interval tree that commits to the leaves of a block.
//!
//! The inner layer holds, for each owner, a tree over that owner's leaves in
//! the order of their end offsets. The outer layer holds a tree over the
//! owners in the order of their addresses; the node of an owner commits to
//! the address and to the root of the owner's inner tree, and its index is
//! the owner's place in that order. The digest of the outer root is the
//! commitment.

use crate::error::Error;
use crate::hash::{hash_collision, sha3_256, digest_of};
use crate::merkle::{
    ascending, branch_of, climb, climb_branch, compute_branch, compute_root, in_order,
    lemma_climb_binds_branch, lemma_climb_wf, lemma_places_order_keys, meet, nodes_wf, lemma_branch_in_order,
    lemma_branch_reaches_root, lemma_climb_binds, lemma_split_concat, root_of, views, Node,
    NodeView,
};
use crate::primitives::{
    be_bytes, be_value, bytes_eq, lemma_be_injective, push_be_bytes, push_bytes, Address, Digest,
    Order,
};
use vstd::prelude::*;

verus! {

/// A leaf: the data committed for the interval of `address` that ends at
/// `end`.
#[derive(Debug)]
pub struct DoubleLayerTreeLeaf {
    pub address: Address,
    pub end: u64,
    pub data: Vec<u8>,
}

/// What a leaf stands for.
pub struct LeafView {
    pub address: Seq<u8>,
    pub end: u64,
    pub data: Seq<u8>,
}

impl View for DoubleLayerTreeLeaf {
    type V = LeafView;

    open spec fn view(&self) -> LeafView {
        LeafView { address: self.address@, end: self.end, data: self.data@ }
    }
}

/// The siblings of a leaf in both layers, with the leaf's place among its
/// owner's leaves and the owner's place among the owners.
#[derive(Debug)]
pub struct InclusionProof {
    pub inner_position: u64,
    pub inner_siblings: Vec<Node>,
    pub outer_position: u64,
    pub outer_siblings: Vec<Node>,
}

/// What a proof stands for.
pub struct ProofView {
    pub inner_position: u64,
    pub inner_siblings: Seq<NodeView>,
    pub outer_position: u64,
    pub outer_siblings: Seq<NodeView>,
}

impl View for InclusionProof {
    type V = ProofView;

    open spec fn view(&self) -> ProofView {
        ProofView {
            inner_position: self.inner_position,
            inner_siblings: views(self.inner_siblings@),
            outer_position: self.outer_position,
            outer_siblings: views(self.outer_siblings@),
        }
    }
}

/// The node of a leaf in its owner's tree.
pub open spec fn leaf_node(leaf: LeafView) -> NodeView {
    NodeView { digest: digest_of(leaf.data), index: leaf.end }
}

/// The bytes that the node of an owner hashes.
pub open spec fn owner_preimage(address: Seq<u8>, inner_root: NodeView) -> Seq<u8> {
    address + inner_root.digest + be_bytes(inner_root.index)
}

/// The node of an owner in the outer tree.
pub open spec fn owner_node(address: Seq<u8>, inner_root: NodeView, position: u64) -> NodeView {
    NodeView { digest: digest_of(owner_preimage(address, inner_root)), index: position }
}

/// The root of the inner tree that `proof` leads to from `leaf`.
pub open spec fn inner_root_from(leaf: LeafView, proof: ProofView) -> NodeView {
    climb(leaf_node(leaf), proof.inner_position as int, proof.inner_siblings)
}

/// The root of the outer tree that `proof` leads to from `leaf`.
pub open spec fn outer_root_from(leaf: LeafView, proof: ProofView) -> NodeView {
    climb(
        owner_node(leaf.address, inner_root_from(leaf, proof), proof.outer_position),
        proof.outer_position as int,
        proof.outer_siblings,
    )
}

/// Whether `proof` shows that `leaf` is committed under `root`: both
/// branches are in order and lead to a node whose digest is `root`.
pub open spec fn verifies(leaf: LeafView, proof: ProofView, root: Seq<u8>) -> bool {
    &&& in_order(leaf.end, proof.inner_position as int, proof.inner_siblings)
    &&& in_order(proof.outer_position, proof.outer_position as int, proof.outer_siblings)
    &&& outer_root_from(leaf, proof).digest == root
}

/// One proof verifies at most one leaf under one root: two leaves that the
/// same proof verifies under the same root are the same leaf, or the hash
/// function has a collision. So a proof made for a leaf does not verify the
/// leaf with any field changed.
pub proof fn lemma_proof_binds_leaf(l1: LeafView, l2: LeafView, proof: ProofView, root: Seq<u8>)
    requires
        l1.address.len() == 20,
        l2.address.len() == 20,
        verifies(l1, proof, root),
        verifies(l2, proof, root),
    ensures
        l1 == l2 || hash_collision(),
{
    let r1 = inner_root_from(l1, proof);
    let r2 = inner_root_from(l2, proof);
    let o1 = owner_node(l1.address, r1, proof.outer_position);
    let o2 = owner_node(l2.address, r2, proof.outer_position);
    if proof.outer_siblings.len() > 0 {
        lemma_climb_binds(o1, o2, proof.outer_position as int, proof.outer_siblings);
    }
    if o1.digest == o2.digest {
        let first = owner_preimage(l1.address, r1);
        let second = owner_preimage(l2.address, r2);
        if first == second {
            assert(first =~= l1.address + (r1.digest + be_bytes(r1.index)));
            assert(second =~= l2.address + (r2.digest + be_bytes(r2.index)));
            lemma_split_concat(
                l1.address,
                r1.digest + be_bytes(r1.index),
                l2.address,
                r2.digest + be_bytes(r2.index),
            );
            assert(r1.digest.len() == r2.digest.len()) by {
                assert((r1.digest + be_bytes(r1.index)).len() == (r2.digest + be_bytes(
                    r2.index,
                )).len());
            }
            lemma_split_concat(r1.digest, be_bytes(r1.index), r2.digest, be_bytes(r2.index));
            lemma_be_injective(r1.index, r2.index);
            assert(r1 == r2);
            if proof.inner_siblings.len() > 0 {
                lemma_climb_binds(
                    leaf_node(l1),
                    leaf_node(l2),
                    proof.inner_position as int,
                    proof.inner_siblings,
                );
            }
            assert(leaf_node(l1) == leaf_node(l2) || hash_collision());
        }
    }
}

/// Whether the digests of the siblings of a proof have the length of a
/// digest.
pub open spec fn proof_wf(proof: ProofView) -> bool {
    nodes_wf(proof.inner_siblings) && nodes_wf(proof.outer_siblings)
}

/// The leaves of an owner stand in the order of their end offsets. Let two
/// leaves of one owner verify under one root, with proofs that put the
/// owner at the same place and have branches of the same lengths. Then the
/// leaf whose proof puts it further left ends before the other, unless the
/// other ends at the largest coordinate, or the hash function has a
/// collision. So no leaf can be shown to end between the ends of two leaves
/// that are shown to be neighbours.
pub proof fn lemma_verified_leaves_are_ordered(
    left: LeafView,
    right: LeafView,
    proof_left: ProofView,
    proof_right: ProofView,
    root: Seq<u8>,
)
    requires
        left.address.len() == 20,
        left.address == right.address,
        proof_wf(proof_left),
        proof_wf(proof_right),
        verifies(left, proof_left, root),
        verifies(right, proof_right, root),
        proof_left.outer_position == proof_right.outer_position,
        proof_left.outer_siblings.len() == proof_right.outer_siblings.len(),
        proof_left.inner_siblings.len() == proof_right.inner_siblings.len(),
        proof_left.inner_position < proof_right.inner_position,
        meet(proof_left.inner_position as int, proof_right.inner_position as int, proof_left.inner_siblings.len()),
    ensures
        hash_collision() || left.end < right.end || right.end == u64::MAX,
{
    let root_left = inner_root_from(left, proof_left);
    let root_right = inner_root_from(right, proof_right);
    let owner_left = owner_node(left.address, root_left, proof_left.outer_position);
    let owner_right = owner_node(right.address, root_right, proof_right.outer_position);
    lemma_climb_wf(leaf_node(left), proof_left.inner_position as int, proof_left.inner_siblings);
    lemma_climb_wf(leaf_node(right), proof_right.inner_position as int, proof_right.inner_siblings);
    lemma_climb_binds_branch(
        owner_left,
        owner_right,
        proof_left.outer_position as int,
        proof_left.outer_siblings,
        proof_right.outer_siblings,
    );
    if owner_left.digest == owner_right.digest {
        let first = owner_preimage(left.address, root_left);
        let second = owner_preimage(right.address, root_right);
        if first == second {
            assert(first =~= left.address + (root_left.digest + be_bytes(root_left.index)));
            assert(second =~= right.address + (root_right.digest + be_bytes(root_right.index)));
            lemma_split_concat(
                left.address,
                root_left.digest + be_bytes(root_left.index),
                right.address,
                root_right.digest + be_bytes(root_right.index),
            );
            lemma_split_concat(root_left.digest, be_bytes(root_left.index), root_right.digest, be_bytes(root_right.index));
            lemma_places_order_keys(
                leaf_node(left),
                leaf_node(right),
                left.end,
                right.end,
                proof_left.inner_position as int,
                proof_right.inner_position as int,
                proof_left.inner_siblings,
                proof_right.inner_siblings,
            );
        }
    }
}

impl DoubleLayerTreeLeaf {
    /// The node of the leaf in its owner's tree.
    pub fn node(&self) -> (node: Node)
        ensures
            node@ == leaf_node(self@),
    {
        Node { digest: sha3_256(self.data.as_slice()), index: self.end }
    }
}

/// The node of an owner in the outer tree.
pub fn compute_owner_node(address: &Address, inner_root: &Node, position: u64) -> (node: Node)
    ensures
        node@ == owner_node(address@, inner_root@, position),
{
    let mut preimage: Vec<u8> = Vec::new();
    push_bytes(&mut preimage, address.as_bytes());
    push_bytes(&mut preimage, inner_root.digest.as_bytes());
    push_be_bytes(&mut preimage, inner_root.index);
    assert(preimage@ =~= owner_preimage(address@, inner_root@));
    Node { digest: sha3_256(preimage.as_slice()), index: position }
}

/// Whether `proof` shows that `leaf` is committed under `root`.
pub fn verify_inclusion(leaf: &DoubleLayerTreeLeaf, proof: &InclusionProof, root: &Digest) -> (ok:
    bool)
    ensures
        ok == verifies(leaf@, proof@, root@),
        proof_wf(proof@),
        leaf@.address.len() == 20,
{
    let (inner_root, inner_ok) = climb_branch(
        leaf.node(),
        proof.inner_position,
        &proof.inner_siblings,
    );
    let owner = compute_owner_node(&leaf.address, &inner_root, proof.outer_position);
    let (outer_root, outer_ok) = climb_branch(owner, proof.outer_position, &proof.outer_siblings);
    inner_ok && outer_ok && outer_root.digest.same(root)
}

/// The leaves of one owner, in the order of their end offsets.
#[derive(Debug)]
pub struct OwnerLeaves {
    pub address: Address,
    pub leaves: Vec<DoubleLayerTreeLeaf>,
}

/// What the leaves of one owner stand for.
pub struct OwnerView {
    pub address: Seq<u8>,
    pub leaves: Seq<LeafView>,
}

/// The views of a sequence of leaves.
pub open spec fn leaf_views(leaves: Seq<DoubleLayerTreeLeaf>) -> Seq<LeafView> {
    leaves.map_values(|l: DoubleLayerTreeLeaf| l@)
}

impl View for OwnerLeaves {
    type V = OwnerView;

    open spec fn view(&self) -> OwnerView {
        OwnerView { address: self.address@, leaves: leaf_views(self.leaves@) }
    }
}

/// The views of a sequence of owners.
pub open spec fn owner_views(owners: Seq<OwnerLeaves>) -> Seq<OwnerView> {
    owners.map_values(|o: OwnerLeaves| o@)
}

/// An owner is well formed when it has a leaf, all its leaves carry its
/// address, and their end offsets ascend strictly.
pub open spec fn owner_wf(owner: OwnerView) -> bool {
    &&& owner.address.len() == 20
    &&& owner.leaves.len() > 0
    &&& forall|i: int| 0 <= i < owner.leaves.len() ==> (#[trigger] owner.leaves[i]).address == owner.address
    &&& forall|i: int, j: int|
        0 <= i < j < owner.leaves.len() ==> (#[trigger] owner.leaves[i]).end < (#[trigger] owner.leaves[j]).end
}

/// The owners of a tree are well formed when each of them is and their
/// addresses ascend strictly.
pub open spec fn owners_wf(owners: Seq<OwnerView>) -> bool {
    &&& owners.len() <= u64::MAX
    &&& forall|g: int| 0 <= g < owners.len() ==> owner_wf(#[trigger] owners[g])
    &&& forall|g: int, h: int|
        0 <= g < h < owners.len() ==> be_value((#[trigger] owners[g]).address) < be_value(
            (#[trigger] owners[h]).address,
        )
}

/// The lowest level of an owner's tree.
pub open spec fn inner_level(leaves: Seq<LeafView>) -> Seq<NodeView> {
    leaves.map_values(|l: LeafView| leaf_node(l))
}

/// The lowest level of the outer tree.
pub open spec fn outer_level(owners: Seq<OwnerView>) -> Seq<NodeView> {
    Seq::new(
        owners.len(),
        |g: int| owner_node(owners[g].address, root_of(inner_level(owners[g].leaves)), g as u64),
    )
}

/// The commitment to the leaves of the owners: the digest of the outer root.
pub open spec fn commitment(owners: Seq<OwnerView>) -> Seq<u8> {
    root_of(outer_level(owners)).digest
}

/// Whether `leaf` is the leaf at place `i` of the owner at place `g`.
pub open spec fn leaf_at(owners: Seq<OwnerView>, g: int, i: int, leaf: LeafView) -> bool {
    0 <= g < owners.len() && 0 <= i < owners[g].leaves.len() && owners[g].leaves[i] == leaf
}

/// Whether `leaf` is among the leaves of the owners.
pub open spec fn holds(owners: Seq<OwnerView>, leaf: LeafView) -> bool {
    exists|g: int, i: int| leaf_at(owners, g, i, leaf)
}

/// Whether a leaf of the owner at place `g` with the given address ends at
/// `end`, at place `i`.
pub open spec fn key_at(owners: Seq<OwnerView>, g: int, i: int, address: Seq<u8>, end: u64) -> bool {
    0 <= g < owners.len() && 0 <= i < owners[g].leaves.len() && owners[g].address == address
        && owners[g].leaves[i].end == end
}

/// Whether some leaf of `address` ends at `end`.
pub open spec fn has_key(owners: Seq<OwnerView>, address: Seq<u8>, end: u64) -> bool {
    exists|g: int, i: int| key_at(owners, g, i, address, end)
}

/// The proof for the leaf at place `i` of the owner at place `g`.
pub open spec fn proof_at(owners: Seq<OwnerView>, g: int, i: int) -> ProofView {
    ProofView {
        inner_position: i as u64,
        inner_siblings: branch_of(inner_level(owners[g].leaves), i),
        outer_position: g as u64,
        outer_siblings: branch_of(outer_level(owners), g),
    }
}

/// The proof made for a leaf of a well-formed tree verifies that leaf under
/// the tree's commitment.
pub proof fn lemma_own_proof_verifies(owners: Seq<OwnerView>, g: int, i: int)
    requires
        owners_wf(owners),
        0 <= g < owners.len(),
        0 <= i < owners[g].leaves.len() <= u64::MAX,
    ensures
        verifies(owners[g].leaves[i], proof_at(owners, g, i), commitment(owners)),
{
    let leaf = owners[g].leaves[i];
    let inner = inner_level(owners[g].leaves);
    let outer = outer_level(owners);
    assert(owner_wf(owners[g]));
    assert(ascending(inner)) by {
        assert forall|a: int, b: int| 0 <= a < b < inner.len() implies inner[a].index
            < inner[b].index by {
            assert(owners[g].leaves[a].end < owners[g].leaves[b].end);
        }
    }
    lemma_branch_reaches_root(inner, i);
    lemma_branch_in_order(inner, i, leaf.end);
    assert(leaf.address == owners[g].address);
    assert(outer[g] == owner_node(leaf.address, root_of(inner), g as u64));
    lemma_branch_reaches_root(outer, g);
    lemma_branch_in_order(outer, g, g as u64);
}

/// The place where `address` stands, or would stand, among `owners`, and
/// whether it stands there.
fn find_owner(owners: &Vec<OwnerLeaves>, address: &Address) -> (found: (usize, bool))
    ensures
        found.0 <= owners.len(),
        forall|k: int|
            0 <= k < found.0 ==> be_value((#[trigger] owners[k]).address@) < be_value(address@),
        found.1 ==> found.0 < owners.len() && owners[found.0 as int].address@ == address@,
        !found.1 && found.0 < owners.len() ==> be_value(address@) < be_value(
            owners[found.0 as int].address@,
        ),
{
    let mut g: usize = 0;
    while g < owners.len()
        invariant
            g <= owners.len(),
            forall|k: int|
                0 <= k < g ==> be_value((#[trigger] owners[k]).address@) < be_value(address@),
        decreases owners.len() - g,
    {
        match owners[g].address.order_to(address) {
            Order::Before => {
                g += 1;
            },
            Order::Same => {
                return (g, true);
            },
            Order::After => {
                return (g, false);
            },
        }
    }
    (g, false)
}

/// The place where a leaf that ends at `end` stands, or would stand, among
/// `leaves`, and whether one stands there.
fn find_end(leaves: &Vec<DoubleLayerTreeLeaf>, end: u64) -> (found: (usize, bool))
    ensures
        found.0 <= leaves.len(),
        forall|k: int| 0 <= k < found.0 ==> (#[trigger] leaves[k]).end < end,
        found.1 ==> found.0 < leaves.len() && leaves[found.0 as int].end == end,
        !found.1 && found.0 < leaves.len() ==> end < leaves[found.0 as int].end,
{
    let mut i: usize = 0;
    while i < leaves.len()
        invariant
            i <= leaves.len(),
            forall|k: int| 0 <= k < i ==> (#[trigger] leaves[k]).end < end,
        decreases leaves.len() - i,
    {
        if leaves[i].end == end {
            return (i, true);
        }
        if leaves[i].end > end {
            return (i, false);
        }
        i += 1;
    }
    (i, false)
}

/// Puts `leaf` in its place among `owners`, unless a leaf of the same
/// address with the same end offset is there already.
fn insert_leaf(owners: &mut Vec<OwnerLeaves>, leaf: DoubleLayerTreeLeaf) -> (inserted: bool)
    requires
        owners_wf(owner_views(old(owners)@)),
    ensures
        owners_wf(owner_views(final(owners)@)),
        inserted == !has_key(owner_views(old(owners)@), leaf.address@, leaf.end),
        inserted ==> final(owners).len() <= old(owners).len() + 1 && forall|l: LeafView|
            holds(owner_views(final(owners)@), l) <==> (holds(owner_views(old(owners)@), l) || l
                == leaf@),
        !inserted ==> owner_views(final(owners)@) == owner_views(old(owners)@),
{
    let ghost before = owner_views(owners@);
    let ghost lv = leaf@;
    let (g, found) = find_owner(owners, &leaf.address);
    assert(forall|k: int| 0 <= k < g ==> be_value((#[trigger] before[k]).address) < be_value(lv.address)) by {
        assert forall|k: int| 0 <= k < g implies be_value((#[trigger] before[k]).address) < be_value(lv.address) by {
            assert(before[k].address == owners[k].address@);
        }
    }
    if found {
        let (i, taken) = find_end(&owners[g].leaves, leaf.end);
        let ghost ends = before[g as int].leaves;
        assert(forall|k: int| 0 <= k < i ==> (#[trigger] ends[k]).end < lv.end) by {
            assert forall|k: int| 0 <= k < i implies (#[trigger] ends[k]).end < lv.end by {
                assert(ends[k].end == owners[g as int].leaves[k].end);
            }
        }
        assert(!taken && i < ends.len() ==> lv.end < ends[i as int].end);
        if taken {
            assert(key_at(before, g as int, i as int, lv.address, lv.end));
            return false;
        }
        let mut owner = owners.remove(g);
        owner.leaves.insert(i, leaf);
        owners.insert(g, owner);
        proof {
            let after = owner_views(owners@);
            let grown = OwnerView { address: before[g as int].address, leaves: before[g as int].leaves.insert(i as int, lv) };
            assert(owner@.leaves =~= before[g as int].leaves.insert(i as int, lv));
            assert(after =~= before.update(g as int, grown));
            assert(owner_wf(before[g as int]));
            assert(owner_wf(grown)) by {
                assert forall|a: int, b: int| 0 <= a < b < grown.leaves.len() implies (#[trigger] grown.leaves[a]).end < (#[trigger] grown.leaves[b]).end by {
                    let a0 = if a < i { a } else { a - 1 };
                    let b0 = if b < i { b } else { b - 1 };
                    if a != i && b != i {
                        assert(ends[a0].end < ends[b0].end);
                    } else if b == i {
                        assert(ends[a].end < lv.end);
                    } else {
                        assert(lv.end < ends[i as int].end);
                        assert(ends[i as int].end <= ends[b0].end);
                    }
                }
            }
            assert(owners_wf(after)) by {
                assert forall|q: int| 0 <= q < after.len() implies owner_wf(#[trigger] after[q]) by {
                    if q != g {
                        assert(owner_wf(before[q]));
                    }
                }
                assert forall|q: int, h: int| 0 <= q < h < after.len() implies be_value((#[trigger] after[q]).address) < be_value((#[trigger] after[h]).address) by {
                    assert(be_value(before[q].address) < be_value(before[h].address));
                }
            }
            assert(!has_key(before, lv.address, lv.end)) by {
                if has_key(before, lv.address, lv.end) {
                    let (q, k) = choose|q: int, k: int| key_at(before, q, k, lv.address, lv.end);
                    if q < g {
                        assert(be_value(before[q].address) < be_value(before[g as int].address));
                    } else if q > g {
                        assert(be_value(before[g as int].address) < be_value(before[q].address));
                    } else {
                        if k < i {
                            assert(before[g as int].leaves[k].end < lv.end);
                        } else {
                            assert(before[g as int].leaves[i as int].end <= before[g as int].leaves[k].end);
                        }
                    }
                }
            }
            assert forall|l: LeafView| holds(after, l) <==> (holds(before, l) || l == lv) by {
                if holds(after, l) {
                    let (q, k) = choose|q: int, k: int| leaf_at(after, q, k, l);
                    if q != g {
                        assert(leaf_at(before, q, k, l));
                    } else if k < i {
                        assert(leaf_at(before, q, k, l));
                    } else if k > i {
                        assert(leaf_at(before, q, k - 1, l));
                    }
                }
                if holds(before, l) {
                    let (q, k) = choose|q: int, k: int| leaf_at(before, q, k, l);
                    if q != g {
                        assert(leaf_at(after, q, k, l));
                    } else if k < i {
                        assert(leaf_at(after, q, k, l));
                    } else {
                        assert(leaf_at(after, q, k + 1, l));
                    }
                }
                if l == lv {
                    assert(leaf_at(after, g as int, i as int, l));
                }
            }
        }
        true
    } else {
        let address = leaf.address;
        let mut leaves: Vec<DoubleLayerTreeLeaf> = Vec::new();
        leaves.push(leaf);
        let owner = OwnerLeaves { address, leaves };
        let ghost fresh = owner@;
        owners.insert(g, owner);
        proof {
            let after = owner_views(owners@);
            assert(fresh.leaves =~= seq![lv]);
            assert(after =~= before.insert(g as int, fresh));
            assert(owner_wf(fresh));
            assert(after.len() == owners.len());
            assert(owners_wf(after)) by {
                assert forall|q: int| 0 <= q < after.len() implies owner_wf(#[trigger] after[q]) by {
                    if q < g {
                        assert(owner_wf(before[q]));
                    } else if q > g {
                        assert(owner_wf(before[q - 1]));
                    }
                }
                assert forall|q: int, h: int| 0 <= q < h < after.len() implies be_value((#[trigger] after[q]).address) < be_value((#[trigger] after[h]).address) by {
                    let q0 = if q < g { q } else { q - 1 };
                    let h0 = if h < g { h } else { h - 1 };
                    if q != g && h != g {
                        assert(be_value(before[q0].address) < be_value(before[h0].address));
                    } else if q == g {
                        assert(be_value(lv.address) < be_value(before[g as int].address));
                        if g < h0 {
                            assert(be_value(before[g as int].address) < be_value(before[h0].address));
                        }
                    } else {
                        assert(be_value(before[q].address) < be_value(lv.address));
                    }
                }
            }
            assert(!has_key(before, lv.address, lv.end)) by {
                if has_key(before, lv.address, lv.end) {
                    let (q, k) = choose|q: int, k: int| key_at(before, q, k, lv.address, lv.end);
                    if q > g {
                        assert(be_value(before[g as int].address) < be_value(before[q].address));
                    }
                }
            }
            assert forall|l: LeafView| holds(after, l) <==> (holds(before, l) || l == lv) by {
                if holds(after, l) {
                    let (q, k) = choose|q: int, k: int| leaf_at(after, q, k, l);
                    if q < g {
                        assert(leaf_at(before, q, k, l));
                    } else if q > g {
                        assert(leaf_at(before, q - 1, k, l));
                    }
                }
                if holds(before, l) {
                    let (q, k) = choose|q: int, k: int| leaf_at(before, q, k, l);
                    if q < g {
                        assert(leaf_at(after, q, k, l));
                    } else {
                        assert(leaf_at(after, q + 1, k, l));
                    }
                }
                if l == lv {
                    assert(leaf_at(after, g as int, 0, l));
                }
            }
        }
        true
    }
}

/// The lowest level of the tree over the leaves of one owner.
fn inner_nodes(leaves: &Vec<DoubleLayerTreeLeaf>) -> (nodes: Vec<Node>)
    ensures
        nodes.len() == leaves.len(),
        views(nodes@) == inner_level(leaf_views(leaves@)),
{
    let mut nodes: Vec<Node> = Vec::new();
    let mut k: usize = 0;
    while k < leaves.len()
        invariant
            k <= leaves.len(),
            nodes.len() == k,
            forall|j: int| 0 <= j < k ==> (#[trigger] nodes[j])@ == leaf_node(leaves[j]@),
        decreases leaves.len() - k,
    {
        nodes.push(leaves[k].node());
        k += 1;
    }
    assert(views(nodes@) =~= inner_level(leaf_views(leaves@)));
    nodes
}

/// The lowest level of the outer tree.
fn outer_nodes(owners: &Vec<OwnerLeaves>) -> (nodes: Vec<Node>)
    ensures
        nodes.len() == owners.len(),
        views(nodes@) == outer_level(owner_views(owners@)),
{
    let mut nodes: Vec<Node> = Vec::new();
    let mut g: usize = 0;
    while g < owners.len()
        invariant
            g <= owners.len(),
            nodes.len() == g,
            forall|j: int|
                0 <= j < g ==> (#[trigger] nodes[j])@ == outer_level(owner_views(owners@))[j],
        decreases owners.len() - g,
    {
        let inner_root = compute_root(inner_nodes(&owners[g].leaves));
        nodes.push(compute_owner_node(&owners[g].address, &inner_root, g as u64));
        g += 1;
    }
    assert(views(nodes@) =~= outer_level(owner_views(owners@)));
    nodes
}

/// Whether two leaves have the same address and the same end offset.
pub open spec fn same_key(a: LeafView, b: LeafView) -> bool {
    a.address == b.address && a.end == b.end
}

/// Whether no two leaves of a sequence have the same key.
pub open spec fn distinct_keys(leaves: Seq<LeafView>) -> bool {
    forall|j: int, k: int| 0 <= j < k < leaves.len() ==> !same_key(leaves[j], leaves[k])
}

/// Whether `leaf` stands in `leaves` at place `from` or after it.
pub open spec fn among(leaves: Seq<LeafView>, from: int, leaf: LeafView) -> bool {
    exists|k: int| from <= k < leaves.len() && leaves[k] == leaf
}

/// Whether the numbers of a sequence ascend strictly.
pub open spec fn strictly_ascending(s: Seq<int>) -> bool {
    forall|i: int, j: int| 0 <= i < j < s.len() ==> s[i] < s[j]
}

/// Two strictly ascending sequences with the same members are the same
/// sequence.
pub proof fn lemma_ascending_same_members(a: Seq<int>, b: Seq<int>)
    requires
        strictly_ascending(a),
        strictly_ascending(b),
        forall|x: int| a.contains(x) <==> b.contains(x),
    ensures
        a == b,
    decreases a.len(),
{
    if a.len() == 0 {
        if b.len() > 0 {
            assert(b.contains(b[0]));
            assert(a.contains(b[0]));
        }
        assert(a =~= b);
    } else {
        let x = a[a.len() - 1];
        assert(a.contains(x));
        assert(b.contains(x));
        let y = b[b.len() - 1];
        assert(b.contains(y));
        assert(a.contains(y));
        let ky = choose|k: int| 0 <= k < a.len() && a[k] == y;
        let kx = choose|k: int| 0 <= k < b.len() && b[k] == x;
        assert(y <= x) by {
            if ky < a.len() - 1 {
                assert(a[ky] < a[a.len() - 1]);
            }
        }
        assert(x <= y) by {
            if kx < b.len() - 1 {
                assert(b[kx] < b[b.len() - 1]);
            }
        }
        let a0 = a.drop_last();
        let b0 = b.drop_last();
        assert forall|z: int| a0.contains(z) <==> b0.contains(z) by {
            if a0.contains(z) {
                let k = choose|k: int| 0 <= k < a0.len() && a0[k] == z;
                assert(a[k] == z);
                assert(a[k] < a[a.len() - 1]);
                assert(a.contains(z));
                let m = choose|m: int| 0 <= m < b.len() && b[m] == z;
                assert(b0[m] == z);
            }
            if b0.contains(z) {
                let k = choose|k: int| 0 <= k < b0.len() && b0[k] == z;
                assert(b[k] == z);
                assert(b[k] < b[b.len() - 1]);
                assert(b.contains(z));
                let m = choose|m: int| 0 <= m < a.len() && a[m] == z;
                assert(a0[m] == z);
            }
        }
        lemma_ascending_same_members(a0, b0);
        assert(a =~= a0.push(x));
        assert(b =~= b0.push(y));
    }
}

/// Whether `owners` is a well-formed tree that holds exactly `leaves`.
pub open spec fn is_tree_of(owners: Seq<OwnerView>, leaves: Seq<LeafView>) -> bool {
    owners_wf(owners) && forall|l: LeafView| holds(owners, l) <==> leaves.contains(l)
}

/// The ranks of the owners' addresses.
pub open spec fn owner_ranks(owners: Seq<OwnerView>) -> Seq<int> {
    Seq::new(owners.len(), |g: int| be_value(owners[g].address) as int)
}

/// The end offsets of leaves.
pub open spec fn leaf_ends(leaves: Seq<LeafView>) -> Seq<int> {
    Seq::new(leaves.len(), |i: int| leaves[i].end as int)
}

/// Two well-formed trees that hold the same leaves are the same tree: the
/// leaves alone decide the tree, and with it the commitment.
pub proof fn lemma_tree_is_unique(a: Seq<OwnerView>, b: Seq<OwnerView>)
    requires
        owners_wf(a),
        owners_wf(b),
        forall|l: LeafView| holds(a, l) <==> holds(b, l),
    ensures
        a == b,
{
    let ra = owner_ranks(a);
    let rb = owner_ranks(b);
    assert forall|x: int| ra.contains(x) <==> rb.contains(x) by {
        if ra.contains(x) {
            let g = choose|g: int| 0 <= g < ra.len() && ra[g] == x;
            assert(owner_wf(a[g]));
            assert(leaf_at(a, g, 0, a[g].leaves[0]));
            assert(holds(a, a[g].leaves[0]));
            assert(holds(b, a[g].leaves[0]));
            let (h, i) = choose|h: int, i: int| leaf_at(b, h, i, a[g].leaves[0]);
            assert(owner_wf(b[h]));
            assert(rb[h] == x);
        }
        if rb.contains(x) {
            let g = choose|g: int| 0 <= g < rb.len() && rb[g] == x;
            assert(owner_wf(b[g]));
            assert(leaf_at(b, g, 0, b[g].leaves[0]));
            assert(holds(b, b[g].leaves[0]));
            assert(holds(a, b[g].leaves[0]));
            let (h, i) = choose|h: int, i: int| leaf_at(a, h, i, b[g].leaves[0]);
            assert(owner_wf(a[h]));
            assert(ra[h] == x);
        }
    }
    assert(strictly_ascending(ra)) by {
        assert forall|i: int, j: int| 0 <= i < j < ra.len() implies ra[i] < ra[j] by {
            assert(be_value(a[i].address) < be_value(a[j].address));
        }
    }
    assert(strictly_ascending(rb)) by {
        assert forall|i: int, j: int| 0 <= i < j < rb.len() implies rb[i] < rb[j] by {
            assert(be_value(b[i].address) < be_value(b[j].address));
        }
    }
    lemma_ascending_same_members(ra, rb);
    assert(a.len() == b.len());
    assert forall|g: int| 0 <= g < a.len() implies a[g] == b[g] by {
        assert(ra[g] == rb[g]);
        assert(owner_wf(a[g]));
        assert(owner_wf(b[g]));
        let ea = leaf_ends(a[g].leaves);
        let eb = leaf_ends(b[g].leaves);
        assert forall|x: int| ea.contains(x) <==> eb.contains(x) by {
            if ea.contains(x) {
                let i = choose|i: int| 0 <= i < ea.len() && ea[i] == x;
                let l = a[g].leaves[i];
                assert(leaf_at(a, g, i, l));
                assert(holds(a, l));
                assert(holds(b, l));
                let (h, j) = choose|h: int, j: int| leaf_at(b, h, j, l);
                assert(owner_wf(b[h]));
                assert(rb[h] == ra[g]);
                if h < g {
                    assert(rb[h] < rb[g]);
                } else if h > g {
                    assert(rb[g] < rb[h]);
                }
                assert(eb[j] == x);
            }
            if eb.contains(x) {
                let i = choose|i: int| 0 <= i < eb.len() && eb[i] == x;
                let l = b[g].leaves[i];
                assert(leaf_at(b, g, i, l));
                assert(holds(b, l));
                assert(holds(a, l));
                let (h, j) = choose|h: int, j: int| leaf_at(a, h, j, l);
                assert(owner_wf(a[h]));
                assert(ra[h] == rb[g]);
                if h < g {
                    assert(ra[h] < ra[g]);
                } else if h > g {
                    assert(ra[g] < ra[h]);
                }
                assert(ea[j] == x);
            }
        }
        assert(strictly_ascending(ea)) by {
            assert forall|i: int, j: int| 0 <= i < j < ea.len() implies ea[i] < ea[j] by {
                assert(a[g].leaves[i].end < a[g].leaves[j].end);
            }
        }
        assert(strictly_ascending(eb)) by {
            assert forall|i: int, j: int| 0 <= i < j < eb.len() implies eb[i] < eb[j] by {
                assert(b[g].leaves[i].end < b[g].leaves[j].end);
            }
        }
        lemma_ascending_same_members(ea, eb);
        assert(a[g].leaves.len() == b[g].leaves.len());
        assert forall|i: int| 0 <= i < a[g].leaves.len() implies a[g].leaves[i] == b[g].leaves[i] by {
            let l = a[g].leaves[i];
            assert(leaf_at(a, g, i, l));
            assert(holds(a, l));
            assert(holds(b, l));
            let (h, j) = choose|h: int, j: int| leaf_at(b, h, j, l);
            assert(owner_wf(b[h]));
            assert(rb[h] == ra[g]);
            if h < g {
                assert(rb[h] < rb[g]);
            } else if h > g {
                assert(rb[g] < rb[h]);
            }
            assert(eb[j] == ea[i]);
            assert(ea[i] == eb[i]);
            if j < i {
                assert(eb[j] < eb[i]);
            } else if j > i {
                assert(eb[i] < eb[j]);
            }
        }
        assert(a[g].leaves =~= b[g].leaves);
        assert(a[g].address == a[g].leaves[0].address);
        assert(b[g].address == b[g].leaves[0].address);
    }
    assert(a =~= b);
}

/// The tree that holds exactly `leaves`.
pub open spec fn tree_of(leaves: Seq<LeafView>) -> Seq<OwnerView> {
    choose|owners: Seq<OwnerView>| is_tree_of(owners, leaves)
}

/// The commitment to a set of leaves.
pub open spec fn leaves_commitment(leaves: Seq<LeafView>) -> Seq<u8> {
    commitment(tree_of(leaves))
}

/// The two-layer tree over a set of leaves.
#[derive(Debug)]
pub struct DoubleLayerTree {
    owners: Vec<OwnerLeaves>,
    root: Digest,
}

impl View for DoubleLayerTree {
    type V = Seq<OwnerView>;

    closed spec fn view(&self) -> Seq<OwnerView> {
        owner_views(self.owners@)
    }
}

impl DoubleLayerTree {
    #[verifier::type_invariant]
    spec fn inv(&self) -> bool {
        owners_wf(owner_views(self.owners@)) && self.root@ == commitment(owner_views(self.owners@))
    }

    /// Builds the tree over `leaves`. Fails when two of them have the same
    /// address and the same end offset.
    pub fn generate(leaves: Vec<DoubleLayerTreeLeaf>) -> (made: Result<DoubleLayerTree, Error>)
        ensures
            made is Ok <==> distinct_keys(leaf_views(leaves@)),
            made matches Ok(tree) ==> is_tree_of(tree@, leaf_views(leaves@)) && tree@ == tree_of(
                leaf_views(leaves@),
            ),
            made matches Err(e) ==> e == Error::MalformedLeaf,
    {
        let ghost all = leaf_views(leaves@);
        let mut rest = leaves;
        let mut owners: Vec<OwnerLeaves> = Vec::new();
        assert(owner_views(owners@) =~= Seq::<OwnerView>::empty());
        while rest.len() > 0
            invariant
                all == leaf_views(leaves@),
                rest.len() <= all.len(),
                leaf_views(rest@) == all.take(rest.len() as int),
                owners_wf(owner_views(owners@)),
                forall|l: LeafView|
                    holds(owner_views(owners@), l) <==> among(all, rest.len() as int, l),
                forall|j: int, k: int|
                    rest.len() <= j < k < all.len() ==> !same_key(all[j], all[k]),
            decreases rest.len(),
        {
            let ghost before = owner_views(owners@);
            let ghost shorter = leaf_views(rest@);
            let leaf = rest.pop().unwrap();
            let ghost at = rest.len() as int;
            let ghost lv = leaf@;
            proof {
                assert(lv == shorter[at]);
                assert(lv == all[at]);
                assert(leaf_views(rest@) =~= all.take(at));
            }
            let inserted = insert_leaf(&mut owners, leaf);
            proof {
                assert(inserted == !has_key(before, lv.address, lv.end));
                if !inserted {
                    let (q, k) = choose|q: int, k: int| key_at(before, q, k, lv.address, lv.end);
                    let twin = before[q].leaves[k];
                    assert(owner_wf(before[q]));
                    assert(leaf_at(before, q, k, twin));
                    assert(among(all, at + 1, twin));
                    let j = choose|j: int| at + 1 <= j < all.len() && all[j] == twin;
                    assert(same_key(all[at], all[j]));
                } else {
                    assert forall|l: LeafView|
                        holds(owner_views(owners@), l) <==> among(all, at, l) by {
                        if among(all, at, l) {
                            let j = choose|j: int| at <= j < all.len() && all[j] == l;
                            if j > at {
                                assert(among(all, at + 1, l));
                            }
                        }
                        if among(all, at + 1, l) {
                            let j = choose|j: int| at + 1 <= j < all.len() && all[j] == l;
                            assert(at <= j < all.len() && all[j] == l);
                        }
                    }
                    assert forall|j: int, k: int| at <= j < k < all.len() implies !same_key(
                        all[j],
                        all[k],
                    ) by {
                        if j == at && same_key(all[j], all[k]) {
                            assert(among(all, at + 1, all[k]));
                            let (q, i) = choose|q: int, i: int| leaf_at(before, q, i, all[k]);
                            assert(owner_wf(before[q]));
                            assert(key_at(before, q, i, lv.address, lv.end));
                        }
                    }
                }
            }
            if !inserted {
                return Err(Error::MalformedLeaf);
            }
        }
        let root = compute_root(outer_nodes(&owners)).digest;
        let tree = DoubleLayerTree { owners, root };
        proof {
            assert forall|l: LeafView| holds(tree@, l) <==> all.contains(l) by {
                if all.contains(l) {
                    let j = choose|j: int| 0 <= j < all.len() && all[j] == l;
                    assert(among(all, 0, l));
                }
                if among(all, 0, l) {
                    let j = choose|j: int| 0 <= j < all.len() && all[j] == l;
                    assert(all.contains(l));
                }
            }
            assert(is_tree_of(tree@, all));
            lemma_tree_is_unique(tree@, tree_of(all));
        }
        Ok(tree)
    }

    /// The commitment to the leaves of the tree.
    pub fn get_root(&self) -> (root: Digest)
        ensures
            root@ == commitment(self@),
    {
        proof {
            use_type_invariant(self);
        }
        self.root
    }

    /// The proof that `leaf` is in the tree, if it is.
    pub fn generate_proof(&self, leaf: &DoubleLayerTreeLeaf) -> (made: Option<InclusionProof>)
        ensures
            owners_wf(self@),
            made is Some <==> holds(self@, leaf@),
            made matches Some(proof) ==> verifies(leaf@, proof@, commitment(self@)) && exists|
                g: int,
                i: int,
            | leaf_at(self@, g, i, leaf@) && proof@ == proof_at(self@, g, i),
    {
        proof {
            use_type_invariant(self);
        }
        let ghost owners = self@;
        let ghost lv = leaf@;
        let (g, found) = find_owner(&self.owners, &leaf.address);
        assert(forall|k: int| 0 <= k < g ==> be_value((#[trigger] owners[k]).address) < be_value(lv.address)) by {
            assert forall|k: int| 0 <= k < g implies be_value((#[trigger] owners[k]).address) < be_value(lv.address) by {
                assert(owners[k].address == self.owners[k].address@);
            }
        }
        if !found {
            proof {
                if holds(owners, lv) {
                    let (q, k) = choose|q: int, k: int| leaf_at(owners, q, k, lv);
                    assert(owner_wf(owners[q]));
                    if q > g {
                        assert(be_value(owners[g as int].address) < be_value(owners[q].address));
                    }
                }
            }
            return None;
        }
        let (i, taken) = find_end(&self.owners[g].leaves, leaf.end);
        let ghost ends = owners[g as int].leaves;
        assert(forall|k: int| 0 <= k < i ==> (#[trigger] ends[k]).end < lv.end) by {
            assert forall|k: int| 0 <= k < i implies (#[trigger] ends[k]).end < lv.end by {
                assert(ends[k].end == self.owners[g as int].leaves[k].end);
            }
        }
        assert(!taken && i < ends.len() ==> lv.end < ends[i as int].end);
        let same = taken && bytes_eq(self.owners[g].leaves[i].data.as_slice(), leaf.data.as_slice());
        proof {
            assert(owner_wf(owners[g as int]));
            if same {
                assert(ends[i as int] == lv);
                assert(leaf_at(owners, g as int, i as int, lv));
            } else if holds(owners, lv) {
                let (q, k) = choose|q: int, k: int| leaf_at(owners, q, k, lv);
                assert(owner_wf(owners[q]));
                if q < g {
                    assert(be_value(owners[q].address) < be_value(owners[g as int].address));
                } else if q > g {
                    assert(be_value(owners[g as int].address) < be_value(owners[q].address));
                } else if k < i {
                    assert(ends[k].end < lv.end);
                } else if k > i {
                    assert(ends[i as int].end < ends[k].end);
                }
            }
        }
        if !same {
            return None;
        }
        let inner_siblings = compute_branch(inner_nodes(&self.owners[g].leaves), i);
        let outer_siblings = compute_branch(outer_nodes(&self.owners), g);
        let proof = InclusionProof {
            inner_position: i as u64,
            inner_siblings,
            outer_position: g as u64,
            outer_siblings,
        };
        proof {
            assert(self.owners[g as int].leaves.len() == ends.len());
            lemma_own_proof_verifies(owners, g as int, i as int);
            assert(proof@ == proof_at(owners, g as int, i as int));
        }
        Some(proof)
    }

    /// Whether `proof` shows that `leaf` is committed under `root`.
    pub fn verify(leaf: &DoubleLayerTreeLeaf, proof: &InclusionProof, root: &Digest) -> (ok: bool)
        ensures
            ok == verifies(leaf@, proof@, root@),
            proof_wf(proof@),
            leaf@.address.len() == 20,
    {
        verify_inclusion(leaf, proof, root)
    }

    /// Fails with `VerificationError` unless `proof` shows that `leaf` is
    /// committed under `root`.
    pub fn check(leaf: &DoubleLayerTreeLeaf, proof: &InclusionProof, root: &Digest) -> (done:
        Result<(), Error>)
        ensures
            done is Ok <==> verifies(leaf@, proof@, root@),
            done matches Err(e) ==> e == Error::VerificationError,
    {
        if verify_inclusion(leaf, proof, root) {
            Ok(())
        } else {
            Err(Error::VerificationError)
        }
    }
}

} // verus!
