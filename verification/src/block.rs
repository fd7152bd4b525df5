//! A block: the state updates and transactions of one round, and the tree
//! that commits to the state updates.

use crate::double_layer_tree::{
    commitment, distinct_keys, holds, is_tree_of, leaf_at, leaves_commitment, tree_of, verifies,
    DoubleLayerTree, DoubleLayerTreeLeaf, InclusionProof, LeafView,
};
use crate::error::Error;
use crate::primitives::Digest;
use crate::state_update::{leaf_of, StateUpdate, StateUpdateView};
use crate::transaction::{Transaction, TransactionView};
use vstd::prelude::*;

verus! {

/// The views of a sequence of state updates.
pub open spec fn update_views(updates: Seq<StateUpdate>) -> Seq<StateUpdateView> {
    updates.map_values(|u: StateUpdate| u@)
}

/// The views of a sequence of transactions.
pub open spec fn transaction_views(transactions: Seq<Transaction>) -> Seq<TransactionView> {
    transactions.map_values(|t: Transaction| t@)
}

/// The leaves that commit to the state updates of a block.
pub open spec fn block_leaves(updates: Seq<StateUpdateView>) -> Seq<LeafView> {
    updates.map_values(|u: StateUpdateView| leaf_of(u))
}

/// The root of the block that holds the given state updates.
pub open spec fn block_root(updates: Seq<StateUpdateView>) -> Seq<u8> {
    leaves_commitment(block_leaves(updates))
}

/// Whether state updates can be committed: each range holds a coordinate,
/// and no two updates of one owner end at the same offset.
pub open spec fn committable(updates: Seq<StateUpdateView>) -> bool {
    &&& forall|i: int| 0 <= i < updates.len() ==> (#[trigger] updates[i]).range.valid()
    &&& distinct_keys(block_leaves(updates))
}

/// A block.
#[derive(Debug)]
pub struct PlasmaBlock {
    block_number: u64,
    state_updates: Vec<StateUpdate>,
    transactions: Vec<Transaction>,
    tree: Option<DoubleLayerTree>,
}

/// What a block stands for. The root is there once the block was
/// merkelized.
pub struct BlockView {
    pub block_number: u64,
    pub state_updates: Seq<StateUpdateView>,
    pub transactions: Seq<TransactionView>,
    pub root: Option<Seq<u8>>,
}

impl View for PlasmaBlock {
    type V = BlockView;

    closed spec fn view(&self) -> BlockView {
        BlockView {
            block_number: self.block_number,
            state_updates: update_views(self.state_updates@),
            transactions: transaction_views(self.transactions@),
            root: match self.tree {
                Some(tree) => Some(commitment(tree@)),
                None => None,
            },
        }
    }
}

impl PlasmaBlock {
    #[verifier::type_invariant]
    spec fn inv(&self) -> bool {
        self.tree matches Some(tree) ==> {
            &&& committable(update_views(self.state_updates@))
            &&& is_tree_of(tree@, block_leaves(update_views(self.state_updates@)))
            &&& tree@ == tree_of(block_leaves(update_views(self.state_updates@)))
        }
    }

    /// The block with the given number, state updates and transactions, not
    /// yet merkelized.
    pub fn new(block_number: u64, state_updates: Vec<StateUpdate>, transactions: Vec<Transaction>) -> (block:
        PlasmaBlock)
        ensures
            block@ == (BlockView {
                block_number,
                state_updates: update_views(state_updates@),
                transactions: transaction_views(transactions@),
                root: None,
            }),
    {
        PlasmaBlock { block_number, state_updates, transactions, tree: None }
    }

    pub fn get_block_number(&self) -> (block_number: u64)
        ensures
            block_number == self@.block_number,
    {
        self.block_number
    }

    pub fn get_state_updates(&self) -> (state_updates: &Vec<StateUpdate>)
        ensures
            update_views(state_updates@) == self@.state_updates,
    {
        &self.state_updates
    }

    pub fn get_transactions(&self) -> (transactions: &Vec<Transaction>)
        ensures
            transaction_views(transactions@) == self@.transactions,
    {
        &self.transactions
    }

    /// The root of the block, once it was merkelized. It is the root of the
    /// block's state updates.
    pub fn get_root(&self) -> (root: Option<Digest>)
        ensures
            match root {
                Some(r) => self@.root == Some(r@) && r@ == block_root(self@.state_updates)
                    && committable(self@.state_updates),
                None => self@.root is None,
            },
    {
        proof {
            use_type_invariant(self);
        }
        match &self.tree {
            Some(tree) => Some(tree.get_root()),
            None => None,
        }
    }

    /// The leaves that commit to the state updates, if every range holds a
    /// coordinate.
    fn leaves(&self) -> (leaves: Option<Vec<DoubleLayerTreeLeaf>>)
        ensures
            leaves is Some <==> forall|i: int|
                0 <= i < self@.state_updates.len() ==> (#[trigger] self@.state_updates[i]).range.valid(),
            leaves matches Some(ls) ==> crate::double_layer_tree::leaf_views(ls@) == block_leaves(
                self@.state_updates,
            ),
    {
        let mut leaves: Vec<DoubleLayerTreeLeaf> = Vec::new();
        let mut i: usize = 0;
        while i < self.state_updates.len()
            invariant
                i <= self.state_updates.len(),
                leaves.len() == i,
                forall|k: int| 0 <= k < i ==> (#[trigger] leaves[k])@ == leaf_of(self.state_updates[k]@),
                forall|k: int| 0 <= k < i ==> (#[trigger] self@.state_updates[k]).range.valid(),
            decreases self.state_updates.len() - i,
        {
            let update = &self.state_updates[i];
            if !update.get_range().validate() {
                assert(!self@.state_updates[i as int].range.valid());
                return None;
            }
            leaves.push(update.leaf());
            i += 1;
        }
        assert(crate::double_layer_tree::leaf_views(leaves@) =~= block_leaves(self@.state_updates));
        Some(leaves)
    }

    /// Builds the tree over the state updates and returns its root. A block
    /// that was merkelized returns the same root again. Fails with
    /// `MalformedLeaf`, and leaves the block as it is, where the state
    /// updates cannot be committed.
    pub fn merkelize(&mut self) -> (made: Result<Digest, Error>)
        ensures
            final(self)@.block_number == old(self)@.block_number,
            final(self)@.state_updates == old(self)@.state_updates,
            final(self)@.transactions == old(self)@.transactions,
            made is Ok <==> committable(old(self)@.state_updates),
            made matches Ok(root) ==> root@ == block_root(old(self)@.state_updates) && final(self)@.root == Some(root@),
            made matches Err(e) ==> e == Error::MalformedLeaf && final(self)@ == old(self)@,
    {
        proof {
            use_type_invariant(&*self);
        }
        if let Some(root) = self.get_root() {
            return Ok(root);
        }
        match self.leaves() {
            None => Err(Error::MalformedLeaf),
            Some(leaves) => match DoubleLayerTree::generate(leaves) {
                Err(_) => Err(Error::MalformedLeaf),
                Ok(tree) => {
                    let root = tree.get_root();
                    self.tree = Some(tree);
                    Ok(root)
                },
            },
        }
    }

    /// The proof that the tree of the block holds the leaf of its state
    /// update at place `i`, once the block was merkelized, if there is such
    /// a state update.
    pub fn prove(&self, i: usize) -> (made: Option<InclusionProof>)
        ensures
            made is Some <==> self@.root is Some && i < self@.state_updates.len(),
            made matches Some(proof) ==> verifies(
                leaf_of(self@.state_updates[i as int]),
                proof@,
                block_root(self@.state_updates),
            ),
    {
        proof {
            use_type_invariant(self);
        }
        if i >= self.state_updates.len() {
            return None;
        }
        match &self.tree {
            None => None,
            Some(tree) => {
                let leaf = self.state_updates[i].leaf();
                let made = tree.generate_proof(&leaf);
                proof {
                    let leaves = block_leaves(self@.state_updates);
                    assert(leaves[i as int] == leaf@);
                    assert(leaves.contains(leaf@));
                }
                made
            },
        }
    }
}

} // verus!
