//! The range quantifier: whether a range is accounted for by the state
//! updates that a block committed.

use crate::block_db::{block_numbered, records_in, records_of, stored_views, BlockDb, DbView, StoredRecord};
use crate::block::BlockView;
use crate::double_layer_tree::{verifies, DoubleLayerTree, DoubleLayerTreeLeaf, InclusionProof, LeafView, ProofView};
use crate::error::Error;
use crate::primitives::{copy_bytes, zero_digest, Digest, Range};
use crate::range_store::RangeEntry;
use crate::state_update::{
    leaf_of, DataBlockView, PlasmaDataBlock, RangeAtBlockRecord, StateUpdate, StateUpdateView,
};
use crate::block::update_views;
use vstd::prelude::*;

verus! {

/// The leaf that marks the range of a state update as left out: it ends
/// where the range ends and holds zeros.
pub open spec fn exclusion_leaf(update: StateUpdateView) -> LeafView {
    LeafView {
        address: update.deposit_contract_address,
        end: update.range.end,
        data: zero_digest(),
    }
}

/// Whether the proof of a record shows, under `root`, that the record's
/// range was left out: the record was made for this root, and the proof
/// verifies the leaf that marks the range.
pub open spec fn exclusion_holds(record: StoredRecord, root: Seq<u8>) -> bool {
    record.record.plasma_data_block.root == root && verifies(
        exclusion_leaf(record.record.plasma_data_block.state_update),
        record.record.inclusion_proof,
        root,
    )
}

/// Whether the proof of every record that is marked as left out holds.
pub open spec fn exclusions_hold(records: Seq<StoredRecord>, root: Seq<u8>) -> bool {
    forall|i: int|
        0 <= i < records.len() && !(#[trigger] records[i]).record.plasma_data_block.state_update.is_included
            ==> exclusion_holds(records[i], root)
}

/// The state updates of the records that are marked as included, in their
/// order.
pub open spec fn candidates(records: Seq<StoredRecord>) -> Seq<StateUpdateView>
    decreases records.len(),
{
    if records.len() == 0 {
        Seq::empty()
    } else if records.last().record.plasma_data_block.state_update.is_included {
        candidates(records.drop_last()).push(records.last().record.plasma_data_block.state_update)
    } else {
        candidates(records.drop_last())
    }
}

/// The number of coordinates of `[start, end)` that the records marked as
/// included take, each counted with the range it stands under.
pub open spec fn covered_length(records: Seq<StoredRecord>, start: u64, end: u64) -> nat
    decreases records.len(),
{
    if records.len() == 0 {
        0
    } else if records.last().record.plasma_data_block.state_update.is_included {
        covered_length(records.drop_last(), start, end) + records.last().range.overlap_len(
            start,
            end,
        )
    } else {
        covered_length(records.drop_last(), start, end)
    }
}

/// Whether the records account for all of `[start, end)` under `root`: the
/// included ones take as many coordinates as the range has, and the proof
/// of every one that is marked as left out holds.
pub open spec fn fully_included(records: Seq<StoredRecord>, root: Seq<u8>, start: u64, end: u64) -> bool {
    covered_length(records, start, end) == end - start && exclusions_hold(records, root)
}

/// The records that a saved block keeps pass the check of their
/// exclusions: for them, a range is fully included exactly when the
/// included state updates take all of it.
pub proof fn lemma_saved_records_hold(block: BlockView, records: Seq<StoredRecord>, start: u64, end: u64)
    requires
        records_of(block, records),
    ensures
        exclusions_hold(records_in(records, start, end), block.root->0),
    decreases records.len(),
{
    let found = records_in(records, start, end);
    lemma_records_in_members(records, start, end);
    assert forall|i: int|
        0 <= i < found.len() && !(#[trigger] found[i]).record.plasma_data_block.state_update.is_included implies exclusion_holds(
        found[i],
        block.root->0,
    ) by {
        assert(found.contains(found[i]));
        assert(records.contains(found[i]));
        let k = choose|k: int| 0 <= k < records.len() && records[k] == found[i];
        assert(records[k].record.plasma_data_block.state_update == block.state_updates[k]);
        assert(exclusion_leaf(block.state_updates[k]) == leaf_of(block.state_updates[k]));
    }
}

/// Every record that shares a coordinate with an interval is one of the
/// records.
pub proof fn lemma_records_in_members(records: Seq<StoredRecord>, start: u64, end: u64)
    ensures
        forall|r: StoredRecord|
            records_in(records, start, end).contains(r) ==> records.contains(r) && r.range.intersects(
                start,
                end,
            ),
    decreases records.len(),
{
    let found = records_in(records, start, end);
    if records.len() > 0 {
        let front = records.drop_last();
        let below = records_in(front, start, end);
        lemma_records_in_members(front, start, end);
        assert forall|r: StoredRecord| found.contains(r) implies records.contains(r)
            && r.range.intersects(start, end) by {
            let i = choose|i: int| 0 <= i < found.len() && found[i] == r;
            if i < below.len() {
                assert(below[i] == r);
                assert(below.contains(r));
                assert(front.contains(r));
                let k = choose|k: int| 0 <= k < front.len() && front[k] == r;
                assert(records[k] == r);
            } else {
                assert(records[records.len() - 1] == r);
            }
        }
    }
}

/// What the quantifier found: the state updates that cover part of the
/// range, and whether the range is fully included.
#[derive(Debug)]
pub struct QuantifierResult {
    results: Vec<StateUpdate>,
    all_results_quantified: bool,
}

impl QuantifierResult {
    pub fn new(results: Vec<StateUpdate>, all_results_quantified: bool) -> (result: QuantifierResult)
        ensures
            result.results() == update_views(results@),
            result.all_results_quantified() == all_results_quantified,
    {
        QuantifierResult { results, all_results_quantified }
    }

    /// The state updates found.
    pub closed spec fn results(&self) -> Seq<StateUpdateView> {
        update_views(self.results@)
    }

    /// Whether the range is fully included.
    pub closed spec fn all_results_quantified(&self) -> bool {
        self.all_results_quantified
    }

    pub fn get_results(&self) -> (results: &Vec<StateUpdate>)
        ensures
            update_views(results@) == self.results(),
    {
        &self.results
    }

    pub fn get_all_results_quantified(&self) -> (all: bool)
        ensures
            all == self.all_results_quantified(),
    {
        self.all_results_quantified
    }
}

/// The quantifier over the ranges of a block.
#[derive(Debug, PartialEq, Eq, Structural)]
pub struct BlockRangeQuantifier {}

impl Default for BlockRangeQuantifier {
    fn default() -> (quantifier: BlockRangeQuantifier)
        ensures
            quantifier == (BlockRangeQuantifier {  }),
    {
        BlockRangeQuantifier {  }
    }
}

impl BlockRangeQuantifier {
    /// Whether `inclusion_proof` shows, under the root of the data block,
    /// that the block's tree holds the leaf that marks the range of the data
    /// block as left out.
    pub fn verify_exclusion(plasma_data_block: &PlasmaDataBlock, inclusion_proof: &InclusionProof) -> (ok:
        bool)
        ensures
            ok == verifies(
                exclusion_leaf(plasma_data_block@.state_update),
                inclusion_proof@,
                plasma_data_block@.root,
            ),
    {
        let leaf = DoubleLayerTreeLeaf {
            address: plasma_data_block.get_deposit_contract_address(),
            end: plasma_data_block.get_updated_range().get_end(),
            data: copy_bytes(Digest::zero().as_bytes()),
        };
        DoubleLayerTree::verify(&leaf, inclusion_proof, plasma_data_block.get_root())
    }

    /// What the records say of `range`, under `root`: the state updates of
    /// the records marked as included, and whether the range is fully
    /// included.
    pub fn quantify(records: &[RangeEntry<RangeAtBlockRecord>], root: &Digest, range: Range) -> (result:
        QuantifierResult)
        ensures
            result.results() == candidates(stored_views(records@)),
            result.all_results_quantified() == fully_included(
                stored_views(records@),
                root@,
                range.start,
                range.end,
            ),
    {
        let ghost all = stored_views(records@);
        let mut covered: u128 = 0;
        let mut exclusions_ok = true;
        let mut results: Vec<StateUpdate> = Vec::new();
        let mut i: usize = 0;
        while i < records.len()
            invariant
                i <= records.len(),
                all == stored_views(records@),
                covered == covered_length(all.take(i as int), range.start, range.end),
                covered <= i * 0xffff_ffff_ffff_ffff,
                exclusions_ok == exclusions_hold(all.take(i as int), root@),
                update_views(results@) == candidates(all.take(i as int)),
            decreases records.len() - i,
        {
            let entry = &records[i];
            let record = &entry.value;
            let ghost seen = all.take(i as int);
            let ghost next = all.take(i + 1);
            let ghost held = update_views(results@);
            proof {
                assert(next.drop_last() =~= seen);
                assert(next.last() == all[i as int]);
                assert(all[i as int].record == record@);
                assert(all[i as int].range == (Range { start: entry.start, end: entry.end }));
            }
            if record.plasma_data_block.get_is_included() {
                let stored = Range::new(entry.start, entry.end);
                match stored.get_intersection(range.get_start(), range.get_end()) {
                    Some(part) => {
                        covered = covered + (part.get_end() - part.get_start()) as u128;
                    },
                    None => {},
                }
                results.push(record.plasma_data_block.get_state_update().duplicate());
                proof {
                    assert(update_views(results@) =~= held.push(
                        record@.plasma_data_block.state_update,
                    ));
                    assert(exclusions_hold(next, root@) == exclusions_hold(seen, root@)) by {
                        if exclusions_hold(seen, root@) {
                            assert forall|j: int|
                                0 <= j < next.len() && !(#[trigger] next[j]).record.plasma_data_block.state_update.is_included implies exclusion_holds(
                                next[j],
                                root@,
                            ) by {
                                assert(next[j] == seen[j]);
                            }
                        } else {
                            let j = choose|j: int|
                                0 <= j < seen.len() && !(#[trigger] seen[j]).record.plasma_data_block.state_update.is_included
                                    && !exclusion_holds(seen[j], root@);
                            assert(next[j] == seen[j]);
                        }
                    }
                }
            } else {
                let holds = record.plasma_data_block.get_root().same(root)
                    && BlockRangeQuantifier::verify_exclusion(
                    &record.plasma_data_block,
                    &record.inclusion_proof,
                );
                proof {
                    assert(holds == exclusion_holds(next[i as int], root@));
                    assert(exclusions_hold(next, root@) == (exclusions_hold(seen, root@) && holds)) by {
                        if exclusions_hold(seen, root@) && holds {
                            assert forall|j: int|
                                0 <= j < next.len() && !(#[trigger] next[j]).record.plasma_data_block.state_update.is_included implies exclusion_holds(
                                next[j],
                                root@,
                            ) by {
                                if j < i {
                                    assert(next[j] == seen[j]);
                                }
                            }
                        } else if !holds {
                            assert(!exclusion_holds(next[i as int], root@));
                        } else {
                            let j = choose|j: int|
                                0 <= j < seen.len() && !(#[trigger] seen[j]).record.plasma_data_block.state_update.is_included
                                    && !exclusion_holds(seen[j], root@);
                            assert(next[j] == seen[j]);
                        }
                    }
                }
                if !holds {
                    exclusions_ok = false;
                }
            }
            i += 1;
        }
        assert(all.take(records@.len() as int) =~= all);
        let full = range.get_end() >= range.get_start() && covered == (range.get_end()
            - range.get_start()) as u128;
        QuantifierResult::new(results, full && exclusions_ok)
    }

    /// What the block `block_number` says of `range`: the state updates
    /// that it committed over part of the range, and whether the range is
    /// fully included. Fails with `QuantifierInconclusive` where no block
    /// was saved under the number, or the saved block has no root.
    pub fn get_all_quantified(db: &BlockDb, block_number: u64, range: Range) -> (found: Result<
        QuantifierResult,
        Error,
    >)
        ensures
            match found {
                Ok(result) => {
                    &&& block_numbered(db@.blocks, block_number) matches Some(block)
                    &&& block.root matches Some(root)
                    &&& result.results() == candidates(
                        records_in(db@.records[block_number], range.start, range.end),
                    )
                    &&& result.all_results_quantified() == fully_included(
                        records_in(db@.records[block_number], range.start, range.end),
                        root,
                        range.start,
                        range.end,
                    )
                },
                Err(e) => e == Error::QuantifierInconclusive && !(block_numbered(
                    db@.blocks,
                    block_number,
                ) matches Some(block) && block.root is Some),
            },
    {
        let root = match db.get_block(block_number) {
            Err(_) => {
                return Err(Error::QuantifierInconclusive);
            },
            Ok(block) => match block.get_root() {
                None => {
                    return Err(Error::QuantifierInconclusive);
                },
                Some(root) => root,
            },
        };
        let records = db.get_records(block_number, range.get_start(), range.get_end());
        Ok(BlockRangeQuantifier::quantify(records, &root, range))
    }
}

} // verus!
