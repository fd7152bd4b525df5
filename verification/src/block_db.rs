//! What the operator keeps: the pending state updates and transactions, the
//! blocks that were committed, and the records of their ranges.

use crate::block::{block_root, transaction_views, update_views, BlockView, PlasmaBlock};
use crate::double_layer_tree::verifies;
use crate::error::Error;
use crate::primitives::{be_bytes, lemma_be_injective, push_be_bytes, Range};
use crate::range_store::{
    disjoint_ascending, drained, entry_start, intersecting, lemma_drained_all, without_start,
    IntervalStore, RangeEntry, ScopedStore,
};
use crate::state_update::{
    leaf_of, DataBlockView, PlasmaDataBlock, RangeAtBlockRecord, RecordView, StateUpdate,
    StateUpdateView,
};
use crate::transaction::{Transaction, TransactionView};
use vstd::prelude::*;

verus! {

/// The name of the bucket of pending state updates: `queued_state_updates`.
pub open spec fn state_update_queue_name() -> Seq<u8> {
    seq![
        0x71u8, 0x75u8, 0x65u8, 0x75u8, 0x65u8, 0x64u8, 0x5fu8, 0x73u8, 0x74u8, 0x61u8, 0x74u8,
        0x65u8, 0x5fu8, 0x75u8, 0x70u8, 0x64u8, 0x61u8, 0x74u8, 0x65u8, 0x73u8,
    ]
}

/// The name of the bucket of pending transactions: `queued_txs`.
pub open spec fn transaction_queue_name() -> Seq<u8> {
    seq![0x71u8, 0x75u8, 0x65u8, 0x75u8, 0x65u8, 0x64u8, 0x5fu8, 0x74u8, 0x78u8, 0x73u8]
}

/// The name of the bucket of committed ranges: `range_at_block`.
pub open spec fn range_at_block_name() -> Seq<u8> {
    seq![
        0x72u8, 0x61u8, 0x6eu8, 0x67u8, 0x65u8, 0x5fu8, 0x61u8, 0x74u8, 0x5fu8, 0x62u8, 0x6cu8,
        0x6fu8, 0x63u8, 0x6bu8,
    ]
}

/// The path of the bucket that holds the ranges of the block `number`.
pub open spec fn block_path(number: u64) -> Seq<Seq<u8>> {
    seq![range_at_block_name(), be_bytes(number)]
}

/// The bucket of pending state updates.
pub fn state_update_queue() -> (scope: ScopedStore)
    ensures
        scope@ == seq![state_update_queue_name()],
{
    let name: Vec<u8> = vec![
        0x71u8, 0x75u8, 0x65u8, 0x75u8, 0x65u8, 0x64u8, 0x5fu8, 0x73u8, 0x74u8, 0x61u8, 0x74u8, 0x65u8, 0x5fu8, 0x75u8, 0x70u8,
        0x64u8, 0x61u8, 0x74u8, 0x65u8, 0x73u8,
    ];
    assert(name@ =~= state_update_queue_name());
    let scope = ScopedStore::root().bucket(name.as_slice());
    assert(scope@ =~= seq![state_update_queue_name()]);
    scope
}

/// The bucket of pending transactions.
pub fn transaction_queue() -> (scope: ScopedStore)
    ensures
        scope@ == seq![transaction_queue_name()],
{
    let name: Vec<u8> = vec![0x71u8, 0x75u8, 0x65u8, 0x75u8, 0x65u8, 0x64u8, 0x5fu8, 0x74u8, 0x78u8, 0x73u8];
    assert(name@ =~= transaction_queue_name());
    let scope = ScopedStore::root().bucket(name.as_slice());
    assert(scope@ =~= seq![transaction_queue_name()]);
    scope
}

/// The bucket that holds the ranges of the block `number`.
pub fn block_bucket(number: u64) -> (scope: ScopedStore)
    ensures
        scope@ == block_path(number),
{
    let name: Vec<u8> = vec![
        0x72u8, 0x61u8, 0x6eu8, 0x67u8, 0x65u8, 0x5fu8, 0x61u8, 0x74u8, 0x5fu8, 0x62u8, 0x6cu8, 0x6fu8, 0x63u8, 0x6bu8,
    ];
    assert(name@ =~= range_at_block_name());
    let mut digits: Vec<u8> = Vec::new();
    push_be_bytes(&mut digits, number);
    assert(digits@ =~= be_bytes(number));
    let scope = ScopedStore::root().bucket(name.as_slice()).bucket(digits.as_slice());
    assert(scope@ =~= block_path(number));
    scope
}

/// The buckets of two blocks are different buckets.
pub proof fn lemma_block_paths_differ(a: u64, b: u64)
    requires
        a != b,
    ensures
        block_path(a) != block_path(b),
{
    if block_path(a) == block_path(b) {
        assert(block_path(a)[1] == block_path(b)[1]);
        lemma_be_injective(a, b);
    }
}

/// A record as the store keeps it: under the range of its state update.
pub struct StoredRecord {
    pub range: Range,
    pub record: RecordView,
}

/// What the database holds.
pub struct DbView {
    /// The pending state updates, in the order of their ranges.
    pub pending_state_updates: Seq<StateUpdateView>,
    /// The pending transactions, in the order of their ranges.
    pub pending_txs: Seq<TransactionView>,
    /// The blocks that were saved, in the order in which they were.
    pub blocks: Seq<BlockView>,
    /// The records of each block, in the order of their ranges.
    pub records: Map<u64, Seq<StoredRecord>>,
}

/// Whether every range holds a coordinate and each ends before the next
/// starts.
pub open spec fn ascending_ranges(ranges: Seq<Range>) -> bool {
    &&& forall|i: int| 0 <= i < ranges.len() ==> (#[trigger] ranges[i]).valid()
    &&& forall|i: int, j: int|
        0 <= i < j < ranges.len() ==> (#[trigger] ranges[i]).end <= (#[trigger] ranges[j]).start
}

/// The ranges of state updates.
pub open spec fn update_ranges(updates: Seq<StateUpdateView>) -> Seq<Range> {
    updates.map_values(|u: StateUpdateView| u.range)
}

/// The ranges of transactions.
pub open spec fn transaction_ranges(transactions: Seq<TransactionView>) -> Seq<Range> {
    transactions.map_values(|t: TransactionView| t.range)
}

/// Whether `records` are the records of `block`: one for each state update,
/// in their order, each under the update's range, with the block's root and
/// number and a proof that the root commits to the update.
pub open spec fn records_of(block: BlockView, records: Seq<StoredRecord>) -> bool {
    &&& block.root is Some
    &&& records.len() == block.state_updates.len()
    &&& forall|i: int|
        0 <= i < records.len() ==> {
            &&& (#[trigger] records[i]).range == block.state_updates[i].range
            &&& records[i].record.plasma_data_block == (DataBlockView {
                state_update: block.state_updates[i],
                root: block.root->0,
                block_number: block.block_number,
            })
            &&& verifies(
                leaf_of(block.state_updates[i]),
                records[i].record.inclusion_proof,
                block.root->0,
            )
        }
}

/// Whether `block` can be saved: it was merkelized, its state updates do
/// not overlap and stand in the order of their ranges, and nothing was
/// saved under its number.
pub open spec fn savable(db: DbView, block: BlockView) -> bool {
    &&& block.root is Some
    &&& ascending_ranges(update_ranges(block.state_updates))
    &&& db.records[block.block_number].len() == 0
    &&& forall|k: int| 0 <= k < db.blocks.len() ==> (#[trigger] db.blocks[k]).block_number != block.block_number
}

/// The views of stored records.
pub open spec fn stored_views(entries: Seq<RangeEntry<RangeAtBlockRecord>>) -> Seq<StoredRecord> {
    entries.map_values(
        |e: RangeEntry<RangeAtBlockRecord>|
            StoredRecord { range: Range { start: e.start, end: e.end }, record: e.value@ },
    )
}

/// The views of the values of queued state updates.
pub open spec fn queued_update_views(entries: Seq<RangeEntry<StateUpdate>>) -> Seq<StateUpdateView> {
    entries.map_values(|e: RangeEntry<StateUpdate>| e.value@)
}

/// The views of the values of queued transactions.
pub open spec fn queued_transaction_views(entries: Seq<RangeEntry<Transaction>>) -> Seq<
    TransactionView,
> {
    entries.map_values(|e: RangeEntry<Transaction>| e.value@)
}

/// The views of blocks.
pub open spec fn block_views(blocks: Seq<PlasmaBlock>) -> Seq<BlockView> {
    blocks.map_values(|b: PlasmaBlock| b@)
}

/// Where the range of a state update starts.
pub open spec fn update_start() -> spec_fn(StateUpdateView) -> u64 {
    |u: StateUpdateView| u.range.start
}

/// Where the range of a transaction starts.
pub open spec fn transaction_start() -> spec_fn(TransactionView) -> u64 {
    |t: TransactionView| t.range.start
}

/// The starts of the ranges of state updates.
pub open spec fn update_starts(updates: Seq<StateUpdateView>) -> Seq<u64> {
    updates.map_values(update_start())
}

/// The starts of the ranges of transactions.
pub open spec fn transaction_starts(transactions: Seq<TransactionView>) -> Seq<u64> {
    transactions.map_values(transaction_start())
}

/// The pending state updates that are left when those of `taken` leave.
pub open spec fn remaining_updates(pending: Seq<StateUpdateView>, taken: Seq<StateUpdateView>) -> Seq<
    StateUpdateView,
> {
    drained(pending, update_start(), update_starts(taken))
}

/// The pending transactions that are left when those of `taken` leave.
pub open spec fn remaining_transactions(
    pending: Seq<TransactionView>,
    taken: Seq<TransactionView>,
) -> Seq<TransactionView> {
    drained(pending, transaction_start(), transaction_starts(taken))
}

/// The records that share a coordinate with `[start, end)`, in their order.
pub open spec fn records_in(records: Seq<StoredRecord>, start: u64, end: u64) -> Seq<StoredRecord>
    decreases records.len(),
{
    if records.len() == 0 {
        Seq::empty()
    } else if records.last().range.intersects(start, end) {
        records_in(records.drop_last(), start, end).push(records.last())
    } else {
        records_in(records.drop_last(), start, end)
    }
}

/// The views of the entries that intersect an interval are the records
/// that share a coordinate with it.
pub proof fn lemma_records_in(entries: Seq<RangeEntry<RangeAtBlockRecord>>, start: u64, end: u64)
    ensures
        stored_views(intersecting(entries, start, end)) == records_in(
            stored_views(entries),
            start,
            end,
        ),
    decreases entries.len(),
{
    if entries.len() > 0 {
        lemma_records_in(entries.drop_last(), start, end);
        assert(stored_views(entries).drop_last() =~= stored_views(entries.drop_last()));
        let below = intersecting(entries.drop_last(), start, end);
        if entries.last().hits(start, end) {
            assert(stored_views(below.push(entries.last())) =~= stored_views(below).push(
                stored_views(entries).last(),
            ));
        }
    } else {
        assert(stored_views(intersecting(entries, start, end)) =~= Seq::empty());
    }
}

/// The first of the blocks that has the given number, if one has.
pub open spec fn block_numbered(blocks: Seq<BlockView>, number: u64) -> Option<BlockView>
    decreases blocks.len(),
{
    if blocks.len() == 0 {
        None
    } else if blocks[0].block_number == number {
        Some(blocks[0])
    } else {
        block_numbered(blocks.drop_first(), number)
    }
}

/// The database of the operator.
#[derive(Debug)]
pub struct BlockDb {
    state_updates: IntervalStore<StateUpdate>,
    transactions: IntervalStore<Transaction>,
    records: IntervalStore<RangeAtBlockRecord>,
    blocks: Vec<PlasmaBlock>,
}

impl View for BlockDb {
    type V = DbView;

    closed spec fn view(&self) -> DbView {
        DbView {
            pending_state_updates: queued_update_views(self.queued_updates()),
            pending_txs: queued_transaction_views(self.queued_transactions()),
            blocks: block_views(self.blocks@),
            records: Map::new(
                |n: u64| true,
                |n: u64| stored_views(self.records.contents(block_path(n))),
            ),
        }
    }
}

impl BlockDb {
    spec fn queued_updates(&self) -> Seq<RangeEntry<StateUpdate>> {
        self.state_updates.contents(seq![state_update_queue_name()])
    }

    spec fn queued_transactions(&self) -> Seq<RangeEntry<Transaction>> {
        self.transactions.contents(seq![transaction_queue_name()])
    }

    #[verifier::type_invariant]
    spec fn inv(&self) -> bool {
        &&& forall|i: int|
            0 <= i < self.queued_updates().len() ==> {
                let e = #[trigger] self.queued_updates()[i];
                e.value@.range == (Range { start: e.start, end: e.end })
            }
        &&& forall|i: int|
            0 <= i < self.queued_transactions().len() ==> {
                let e = #[trigger] self.queued_transactions()[i];
                e.value@.range == (Range { start: e.start, end: e.end })
            }
    }

    /// The database that holds nothing.
    pub fn new() -> (db: BlockDb)
        ensures
            db@.pending_state_updates.len() == 0,
            db@.pending_txs.len() == 0,
            db@.blocks.len() == 0,
            forall|n: u64| (#[trigger] db@.records[n]).len() == 0,
    {
        BlockDb {
            state_updates: IntervalStore::new(),
            transactions: IntervalStore::new(),
            records: IntervalStore::new(),
            blocks: Vec::new(),
        }
    }

    /// Takes the store of pending state updates out of the database, which
    /// is left with an empty one.
    fn take_state_updates(&mut self) -> (store: IntervalStore<StateUpdate>)
        ensures
            store == old(self).state_updates,
            final(self).transactions == old(self).transactions,
            final(self).records == old(self).records,
            final(self).blocks == old(self).blocks,
    {
        proof {
            use_type_invariant(&*self);
        }
        let mut store: IntervalStore<StateUpdate> = IntervalStore::new();
        assert(store.contents(seq![state_update_queue_name()]).len() == 0);
        assert(self.inv());
        proof {
            let after = BlockDb {
                state_updates: store,
                transactions: self.transactions,
                records: self.records,
                blocks: self.blocks,
            };
            assert(after.queued_updates().len() == 0);
            assert(after.queued_transactions() == self.queued_transactions());
            assert(after.inv());
        }
        core::mem::swap(&mut self.state_updates, &mut store);
        store
    }

    /// Puts a copy of `update` among the pending state updates, under its
    /// range. Fails with `StorageError`, and leaves the database as it is,
    /// where the range holds no coordinate or shares one with a pending
    /// state update.
    pub fn enqueue_state_update(&mut self, update: &StateUpdate) -> (done: Result<(), Error>)
        ensures
            ascending_ranges(update_ranges(final(self)@.pending_state_updates)),
            done is Ok <==> update@.range.valid() && forall|k: int|
                0 <= k < old(self)@.pending_state_updates.len() ==> !(#[trigger] old(self)@.pending_state_updates[k]).range.intersects(
                    update@.range.start,
                    update@.range.end,
                ),
            final(self)@ == (DbView {
                pending_state_updates: final(self)@.pending_state_updates,
                ..old(self)@
            }),
            done is Ok ==> exists|k: int|
                0 <= k <= old(self)@.pending_state_updates.len() && final(self)@.pending_state_updates == #[trigger] old(self)@.pending_state_updates.insert(
                    k,
                    update@,
                ),
            done matches Err(e) ==> e == Error::StorageError && final(self)@ == old(self)@,
    {
        proof {
            use_type_invariant(&*self);
        }
        let ghost before = *self;
        let range = update.get_range();
        let scope = state_update_queue();
        let copy = update.duplicate();
        let ghost entry = RangeEntry { start: range.start, end: range.end, value: copy };
        let mut store = self.take_state_updates();
        let done = store.put(&scope, range.get_start(), range.get_end(), copy);
        proof {
            let old_entries = before.queued_updates();
            let new_entries = store.contents(seq![state_update_queue_name()]);
            assert forall|i: int| 0 <= i < new_entries.len() implies {
                let e = #[trigger] new_entries[i];
                e.value@.range == (Range { start: e.start, end: e.end })
            } by {
                if done is Ok {
                    let k = choose|k: int|
                        0 <= k <= old_entries.len() && new_entries == old_entries.insert(k, entry);
                    if i < k {
                        assert(new_entries[i] == old_entries[i]);
                    } else if i > k {
                        assert(new_entries[i] == old_entries[i - 1]);
                    }
                } else {
                    assert(new_entries[i] == old_entries[i]);
                }
            }
        }
        proof {
            let after = BlockDb {
                state_updates: store,
                transactions: self.transactions,
                records: self.records,
                blocks: self.blocks,
            };
            assert(after.queued_transactions() == before.queued_transactions());
            assert(after.inv());
        }
        self.state_updates = store;
        proof {
            let old_entries = before.queued_updates();
            let new_entries = self.queued_updates();
            assert forall|k: int| 0 <= k < old_entries.len() implies (#[trigger] old_entries[k]).hits(
                range.start,
                range.end,
            ) == before@.pending_state_updates[k].range.intersects(range.start, range.end) by {}
            if done is Ok {
                let k = choose|k: int|
                    0 <= k <= old_entries.len() && new_entries == old_entries.insert(k, entry);
                assert(queued_update_views(new_entries) =~= queued_update_views(
                    old_entries,
                ).insert(k, update@));
                assert(self@.records =~= before@.records);
                assert(self@.pending_state_updates == before@.pending_state_updates.insert(
                    k,
                    update@,
                ));
            } else {
                assert(self@.records =~= before@.records);
            }
            lemma_update_ranges_ascending(new_entries);
        }
        done
    }

    /// Copies of the pending state updates, in the order of their ranges.
    pub fn get_pending_state_updates(&self) -> (updates: Vec<StateUpdate>)
        ensures
            update_views(updates@) == self@.pending_state_updates,
            ascending_ranges(update_ranges(self@.pending_state_updates)),
    {
        proof {
            use_type_invariant(self);
        }
        let entries = self.state_updates.all(&state_update_queue());
        let mut updates: Vec<StateUpdate> = Vec::new();
        let mut i: usize = 0;
        while i < entries.len()
            invariant
                i <= entries.len(),
                updates.len() == i,
                forall|k: int| 0 <= k < i ==> (#[trigger] updates[k])@ == entries[k].value@,
            decreases entries.len() - i,
        {
            updates.push(entries[i].value.duplicate());
            i += 1;
        }
        proof {
            assert(update_views(updates@) =~= self@.pending_state_updates);
            lemma_update_ranges_ascending(self.queued_updates());
        }
        updates
    }

    /// Takes the store of pending transactions out of the database, which
    /// is left with an empty one.
    fn take_transactions(&mut self) -> (store: IntervalStore<Transaction>)
        ensures
            store == old(self).transactions,
            final(self).state_updates == old(self).state_updates,
            final(self).records == old(self).records,
            final(self).blocks == old(self).blocks,
    {
        proof {
            use_type_invariant(&*self);
        }
        let mut store: IntervalStore<Transaction> = IntervalStore::new();
        assert(store.contents(seq![transaction_queue_name()]).len() == 0);
        assert(self.inv());
        proof {
            let after = BlockDb {
                state_updates: self.state_updates,
                transactions: store,
                records: self.records,
                blocks: self.blocks,
            };
            assert(after.queued_transactions().len() == 0);
            assert(after.queued_updates() == self.queued_updates());
            assert(after.inv());
        }
        core::mem::swap(&mut self.transactions, &mut store);
        store
    }

    /// Puts a copy of `transaction` among the pending transactions, under its
    /// range. Fails with `StorageError`, and leaves the database as it is,
    /// where the range holds no coordinate or shares one with a pending
    /// transaction.
    pub fn enqueue_tx(&mut self, transaction: &Transaction) -> (done: Result<(), Error>)
        ensures
            ascending_ranges(transaction_ranges(final(self)@.pending_txs)),
            done is Ok <==> transaction@.range.valid() && forall|k: int|
                0 <= k < old(self)@.pending_txs.len() ==> !(#[trigger] old(self)@.pending_txs[k]).range.intersects(
                    transaction@.range.start,
                    transaction@.range.end,
                ),
            final(self)@ == (DbView {
                pending_txs: final(self)@.pending_txs,
                ..old(self)@
            }),
            done is Ok ==> exists|k: int|
                0 <= k <= old(self)@.pending_txs.len() && final(self)@.pending_txs == #[trigger] old(self)@.pending_txs.insert(
                    k,
                    transaction@,
                ),
            done matches Err(e) ==> e == Error::StorageError && final(self)@ == old(self)@,
    {
        proof {
            use_type_invariant(&*self);
        }
        let ghost before = *self;
        let range = transaction.get_range();
        let scope = transaction_queue();
        let copy = transaction.duplicate();
        let ghost entry = RangeEntry { start: range.start, end: range.end, value: copy };
        let mut store = self.take_transactions();
        let done = store.put(&scope, range.get_start(), range.get_end(), copy);
        proof {
            let old_entries = before.queued_transactions();
            let new_entries = store.contents(seq![transaction_queue_name()]);
            assert forall|i: int| 0 <= i < new_entries.len() implies {
                let e = #[trigger] new_entries[i];
                e.value@.range == (Range { start: e.start, end: e.end })
            } by {
                if done is Ok {
                    let k = choose|k: int|
                        0 <= k <= old_entries.len() && new_entries == old_entries.insert(k, entry);
                    if i < k {
                        assert(new_entries[i] == old_entries[i]);
                    } else if i > k {
                        assert(new_entries[i] == old_entries[i - 1]);
                    }
                } else {
                    assert(new_entries[i] == old_entries[i]);
                }
            }
        }
        proof {
            let after = BlockDb {
                state_updates: self.state_updates,
                transactions: store,
                records: self.records,
                blocks: self.blocks,
            };
            assert(after.queued_updates() == before.queued_updates());
            assert(after.inv());
        }
        self.transactions = store;
        proof {
            let old_entries = before.queued_transactions();
            let new_entries = self.queued_transactions();
            assert forall|k: int| 0 <= k < old_entries.len() implies (#[trigger] old_entries[k]).hits(
                range.start,
                range.end,
            ) == before@.pending_txs[k].range.intersects(range.start, range.end) by {}
            if done is Ok {
                let k = choose|k: int|
                    0 <= k <= old_entries.len() && new_entries == old_entries.insert(k, entry);
                assert(queued_transaction_views(new_entries) =~= queued_transaction_views(
                    old_entries,
                ).insert(k, transaction@));
                assert(self@.records =~= before@.records);
                assert(self@.pending_txs == before@.pending_txs.insert(
                    k,
                    transaction@,
                ));
            } else {
                assert(self@.records =~= before@.records);
            }
            lemma_transaction_ranges_ascending(new_entries);
        }
        done
    }

    /// Copies of the pending transactions, in the order of their ranges.
    pub fn get_pending_txs(&self) -> (transactions: Vec<Transaction>)
        ensures
            transaction_views(transactions@) == self@.pending_txs,
            ascending_ranges(transaction_ranges(self@.pending_txs)),
    {
        proof {
            use_type_invariant(self);
        }
        let entries = self.transactions.all(&transaction_queue());
        let mut transactions: Vec<Transaction> = Vec::new();
        let mut i: usize = 0;
        while i < entries.len()
            invariant
                i <= entries.len(),
                transactions.len() == i,
                forall|k: int| 0 <= k < i ==> (#[trigger] transactions[k])@ == entries[k].value@,
            decreases entries.len() - i,
        {
            transactions.push(entries[i].value.duplicate());
            i += 1;
        }
        proof {
            assert(transaction_views(transactions@) =~= self@.pending_txs);
            lemma_transaction_ranges_ascending(self.queued_transactions());
        }
        transactions
    }

    /// Takes out of the pending state updates those whose ranges start
    /// where one of `taken` does.
    pub fn remove_pending_state_updates(&mut self, taken: &Vec<StateUpdate>)
        ensures
            final(self)@ == (DbView {
                pending_state_updates: remaining_updates(
                    old(self)@.pending_state_updates,
                    update_views(taken@),
                ),
                ..old(self)@
            }),
            ascending_ranges(update_ranges(final(self)@.pending_state_updates)),
    {
        proof {
            use_type_invariant(&*self);
        }
        let ghost before = *self;
        let mut starts: Vec<u64> = Vec::new();
        let mut i: usize = 0;
        while i < taken.len()
            invariant
                i <= taken.len(),
                starts.len() == i,
                forall|k: int| 0 <= k < i ==> (#[trigger] starts[k]) == taken[k]@.range.start,
            decreases taken.len() - i,
        {
            starts.push(taken[i].get_range().get_start());
            i += 1;
        }
        assert(starts@ =~= update_starts(update_views(taken@)));
        let mut store = self.take_state_updates();
        store.remove_starts(&state_update_queue(), &starts);
        proof {
            assert(updates_keyed(before.queued_updates()));
            lemma_drained_updates(before.queued_updates(), starts@);
            let after = BlockDb {
                state_updates: store,
                transactions: self.transactions,
                records: self.records,
                blocks: self.blocks,
            };
            assert(after.queued_transactions() == before.queued_transactions());
            assert(after.inv());
        }
        self.state_updates = store;
        proof {
            assert(self@.records =~= before@.records);
            lemma_update_ranges_ascending(self.queued_updates());
        }
    }

    /// Takes out of the pending transactions those whose ranges start
    /// where one of `taken` does.
    pub fn remove_pending_txs(&mut self, taken: &Vec<Transaction>)
        ensures
            final(self)@ == (DbView {
                pending_txs: remaining_transactions(
                    old(self)@.pending_txs,
                    transaction_views(taken@),
                ),
                ..old(self)@
            }),
            ascending_ranges(transaction_ranges(final(self)@.pending_txs)),
    {
        proof {
            use_type_invariant(&*self);
        }
        let ghost before = *self;
        let mut starts: Vec<u64> = Vec::new();
        let mut i: usize = 0;
        while i < taken.len()
            invariant
                i <= taken.len(),
                starts.len() == i,
                forall|k: int| 0 <= k < i ==> (#[trigger] starts[k]) == taken[k]@.range.start,
            decreases taken.len() - i,
        {
            starts.push(taken[i].get_range().get_start());
            i += 1;
        }
        assert(starts@ =~= transaction_starts(transaction_views(taken@)));
        let mut store = self.take_transactions();
        store.remove_starts(&transaction_queue(), &starts);
        proof {
            assert(transactions_keyed(before.queued_transactions()));
            lemma_drained_transactions(before.queued_transactions(), starts@);
            let after = BlockDb {
                state_updates: self.state_updates,
                transactions: store,
                records: self.records,
                blocks: self.blocks,
            };
            assert(after.queued_updates() == before.queued_updates());
            assert(after.inv());
        }
        self.transactions = store;
        proof {
            assert(self@.records =~= before@.records);
            lemma_transaction_ranges_ascending(self.queued_transactions());
        }
    }

    /// Takes the store of records out of the database, which is left with
    /// an empty one.
    fn take_records(&mut self) -> (store: IntervalStore<RangeAtBlockRecord>)
        ensures
            store == old(self).records,
            final(self).state_updates == old(self).state_updates,
            final(self).transactions == old(self).transactions,
            final(self).blocks == old(self).blocks,
    {
        proof {
            use_type_invariant(&*self);
        }
        let mut store: IntervalStore<RangeAtBlockRecord> = IntervalStore::new();
        proof {
            let after = BlockDb {
                state_updates: self.state_updates,
                transactions: self.transactions,
                records: store,
                blocks: self.blocks,
            };
            assert(after.queued_updates() == self.queued_updates());
            assert(after.queued_transactions() == self.queued_transactions());
            assert(after.inv());
        }
        core::mem::swap(&mut self.records, &mut store);
        store
    }

    /// Puts the store of records back.
    fn put_records(&mut self, store: IntervalStore<RangeAtBlockRecord>)
        ensures
            final(self).records == store,
            final(self).state_updates == old(self).state_updates,
            final(self).transactions == old(self).transactions,
            final(self).blocks == old(self).blocks,
    {
        proof {
            use_type_invariant(&*self);
            let after = BlockDb {
                state_updates: self.state_updates,
                transactions: self.transactions,
                records: store,
                blocks: self.blocks,
            };
            assert(after.queued_updates() == self.queued_updates());
            assert(after.queued_transactions() == self.queued_transactions());
            assert(after.inv());
        }
        self.records = store;
    }

    /// Adds a block to the saved blocks.
    fn push_block(&mut self, block: PlasmaBlock)
        ensures
            final(self).blocks@ == old(self).blocks@.push(block),
            final(self).state_updates == old(self).state_updates,
            final(self).transactions == old(self).transactions,
            final(self).records == old(self).records,
    {
        proof {
            use_type_invariant(&*self);
        }
        let mut blocks: Vec<PlasmaBlock> = Vec::new();
        proof {
            let after = BlockDb {
                state_updates: self.state_updates,
                transactions: self.transactions,
                records: self.records,
                blocks: blocks,
            };
            assert(after.queued_updates() == self.queued_updates());
            assert(after.queued_transactions() == self.queued_transactions());
            assert(after.inv());
        }
        core::mem::swap(&mut self.blocks, &mut blocks);
        blocks.push(block);
        proof {
            let after = BlockDb {
                state_updates: self.state_updates,
                transactions: self.transactions,
                records: self.records,
                blocks: blocks,
            };
            assert(after.queued_updates() == self.queued_updates());
            assert(after.queued_transactions() == self.queued_transactions());
            assert(after.inv());
        }
        self.blocks = blocks;
    }

    /// Whether the ranges of state updates hold a coordinate each and each
    /// ends before the next starts.
    fn ranges_ascend(updates: &Vec<StateUpdate>) -> (ok: bool)
        ensures
            ok == ascending_ranges(update_ranges(update_views(updates@))),
    {
        let ghost ranges = update_ranges(update_views(updates@));
        let mut i: usize = 0;
        while i < updates.len()
            invariant
                i <= updates.len(),
                ranges == update_ranges(update_views(updates@)),
                ascending_ranges(ranges.take(i as int)),
            decreases updates.len() - i,
        {
            let range = updates[i].get_range();
            assert(ranges[i as int] == range);
            if !range.validate() {
                return false;
            }
            if i > 0 {
                let last = updates[i - 1].get_range();
                assert(ranges[i - 1] == last);
                if last.get_end() > range.get_start() {
                    return false;
                }
            }
            proof {
                let longer = ranges.take(i + 1);
                let shorter = ranges.take(i as int);
                assert forall|a: int, b: int| 0 <= a < b < longer.len() implies (
                #[trigger] longer[a]).end <= (#[trigger] longer[b]).start by {
                    if b < i {
                        assert(shorter[a].end <= shorter[b].start);
                    } else if a < i - 1 {
                        assert(shorter[a].end <= shorter[i - 1].start);
                        assert(shorter[i - 1].valid());
                    }
                }
                assert forall|a: int| 0 <= a < longer.len() implies (#[trigger] longer[a]).valid() by {
                    if a < i {
                        assert(shorter[a].valid());
                    }
                }
            }
            i += 1;
        }
        assert(ranges.take(updates.len() as int) =~= ranges);
        true
    }

    /// Saves a block and the records of its ranges. Fails with
    /// `StorageError`, and leaves the database as it is, unless the block was
    /// merkelized, its state updates do not overlap and stand in the order
    /// of their ranges, and nothing was saved under its number.
    pub fn save_block(&mut self, block: PlasmaBlock) -> (done: Result<(), Error>)
        ensures
            done is Ok <==> savable(old(self)@, block@),
            done is Ok ==> {
                &&& final(self)@.pending_state_updates == old(self)@.pending_state_updates
                &&& final(self)@.pending_txs == old(self)@.pending_txs
                &&& final(self)@.blocks == old(self)@.blocks.push(block@)
                &&& records_of(block@, final(self)@.records[block@.block_number])
                &&& forall|m: u64|
                    m != block@.block_number ==> (#[trigger] final(self)@.records[m]) == old(self)@.records[m]
            },
            done matches Err(e) ==> e == Error::StorageError && final(self)@ == old(self)@,
    {
        let ghost before = *self;
        let number = block.get_block_number();
        let root = match block.get_root() {
            Some(root) => root,
            None => {
                return Err(Error::StorageError);
            },
        };
        let mut k: usize = 0;
        while k < self.blocks.len()
            invariant
                *self == before,
                k <= self.blocks.len(),
                number == block@.block_number,
                forall|j: int| 0 <= j < k ==> (#[trigger] before@.blocks[j]).block_number != number,
            decreases self.blocks.len() - k,
        {
            if self.blocks[k].get_block_number() == number {
                assert(before@.blocks[k as int].block_number == number);
                return Err(Error::StorageError);
            }
            k += 1;
        }
        let scope = block_bucket(number);
        if self.records.all(&scope).len() != 0 {
            return Err(Error::StorageError);
        }
        if !BlockDb::ranges_ascend(block.get_state_updates()) {
            return Err(Error::StorageError);
        }
        assert(savable(before@, block@));
        let ghost updates = block@.state_updates;
        let ghost path = block_path(number);
        let mut store = self.take_records();
        let n = block.get_state_updates().len();
        let mut i: usize = 0;
        while i < n
            invariant
                i <= n,
                n == updates.len(),
                updates == block@.state_updates,
                block@.root == Some(root@),
                root@ == block_root(updates),
                number == block@.block_number,
                ascending_ranges(update_ranges(updates)),
                scope@ == path,
                path == block_path(number),
                forall|p: Seq<Seq<u8>>| p != path ==> store.contents(p) == before.records.contents(p),
                store.contents(path).len() == i,
                forall|j: int|
                    0 <= j < i ==> {
                        let e = #[trigger] store.contents(path)[j];
                        &&& e.start == updates[j].range.start
                        &&& e.end == updates[j].range.end
                        &&& e.value@.plasma_data_block == (DataBlockView {
                            state_update: updates[j],
                            root: root@,
                            block_number: number,
                        })
                        &&& verifies(leaf_of(updates[j]), e.value@.inclusion_proof, root@)
                    },
            decreases n - i,
        {
            let update = &block.get_state_updates()[i];
            assert(update@ == updates[i as int]);
            let range = update.get_range();
            let ghost ranges = update_ranges(updates);
            assert(ranges[i as int] == range);
            let ghost entries = store.contents(path);
            match block.prove(i) {
                None => {
                    return Err(Error::StorageError);
                },
                Some(proof) => {
                    let record = RangeAtBlockRecord::new(
                        PlasmaDataBlock::new(update.duplicate(), root, number),
                        proof,
                    );
                    let ghost entry = RangeEntry { start: range.start, end: range.end, value: record };
                    proof {
                        assert forall|j: int| 0 <= j < entries.len() implies !(#[trigger] entries[j]).hits(
                            range.start,
                            range.end,
                        ) by {
                            assert(ranges[j].end <= ranges[i as int].start);
                        }
                    }
                    let put = store.put(&scope, range.get_start(), range.get_end(), record);
                    proof {
                        let grown = store.contents(path);
                        let at = choose|at: int|
                            0 <= at <= entries.len() && grown == entries.insert(at, entry);
                        if at < i {
                            assert(grown[at] == entry);
                            assert(grown[at + 1] == entries[at]);
                            assert(grown[at].end <= grown[at + 1].start);
                            assert(ranges[at].end <= ranges[i as int].start);
                            assert(ranges[at].valid());
                        }
                        assert(grown =~= entries.push(entry));
                    }
                    match put {
                        Ok(_) => {},
                        Err(_) => {
                            return Err(Error::StorageError);
                        },
                    }
                },
            }
            i += 1;
        }
        self.put_records(store);
        self.push_block(block);
        proof {
            let recs = self@.records[number];
            assert(recs == stored_views(self.records.contents(path)));
            assert(records_of(block@, recs));
            assert forall|m: u64| m != number implies (#[trigger] self@.records[m])
                == before@.records[m] by {
                lemma_block_paths_differ(m, number);
            }
            assert(self@.blocks =~= before@.blocks.push(block@));
        }
        Ok(())
    }

    /// The saved block with the given number. Fails with `NotFound` where
    /// none was saved under it.
    pub fn get_block(&self, number: u64) -> (found: Result<&PlasmaBlock, Error>)
        ensures
            match found {
                Ok(block) => block_numbered(self@.blocks, number) == Some(block@)
                    && block@.block_number == number && self@.blocks.contains(block@),
                Err(e) => e == Error::NotFound && block_numbered(self@.blocks, number) is None
                    && forall|k: int|
                    0 <= k < self@.blocks.len() ==> (#[trigger] self@.blocks[k]).block_number
                        != number,
            },
    {
        let ghost blocks = self@.blocks;
        let mut k: usize = 0;
        assert(blocks.skip(0) =~= blocks);
        while k < self.blocks.len()
            invariant
                k <= self.blocks.len(),
                blocks == self@.blocks,
                blocks.len() == self.blocks.len(),
                block_numbered(blocks, number) == block_numbered(blocks.skip(k as int), number),
                forall|j: int| 0 <= j < k ==> (#[trigger] blocks[j]).block_number != number,
            decreases self.blocks.len() - k,
        {
            assert(blocks.skip(k as int)[0] == blocks[k as int]);
            assert(blocks.skip(k as int).drop_first() =~= blocks.skip(k + 1));
            assert(blocks[k as int] == self.blocks[k as int]@);
            if self.blocks[k].get_block_number() == number {
                return Ok(&self.blocks[k]);
            }
            k += 1;
        }
        Err(Error::NotFound)
    }

    /// The records of the block `number` that share a coordinate with
    /// `[start, end)`, in the order of their ranges.
    pub fn get_records(&self, number: u64, start: u64, end: u64) -> (found: &[RangeEntry<
        RangeAtBlockRecord,
    >])
        ensures
            stored_views(found@) == records_in(self@.records[number], start, end),
    {
        let found = self.records.get(&block_bucket(number), start, end);
        proof {
            lemma_records_in(self.records.contents(block_path(number)), start, end);
        }
        found
    }
}

/// The ranges of queued state updates that stand under their own ranges in
/// a store ascend.
proof fn lemma_update_ranges_ascending(entries: Seq<RangeEntry<StateUpdate>>)
    requires
        disjoint_ascending(entries),
        forall|i: int|
            0 <= i < entries.len() ==> {
                let e = #[trigger] entries[i];
                e.value@.range == (Range { start: e.start, end: e.end })
            },
    ensures
        ascending_ranges(update_ranges(queued_update_views(entries))),
{
    let ranges = update_ranges(queued_update_views(entries));
    assert forall|i: int| 0 <= i < ranges.len() implies (#[trigger] ranges[i]).valid() by {
        assert(entries[i].start < entries[i].end);
    }
    assert forall|i: int, j: int| 0 <= i < j < ranges.len() implies (#[trigger] ranges[i]).end <= (
    #[trigger] ranges[j]).start by {
        assert(entries[i].end <= entries[j].start);
    }
}

/// The ranges of queued transactions that stand under their own ranges in
/// a store ascend.
proof fn lemma_transaction_ranges_ascending(entries: Seq<RangeEntry<Transaction>>)
    requires
        disjoint_ascending(entries),
        forall|i: int|
            0 <= i < entries.len() ==> {
                let e = #[trigger] entries[i];
                e.value@.range == (Range { start: e.start, end: e.end })
            },
    ensures
        ascending_ranges(transaction_ranges(queued_transaction_views(entries))),
{
    let ranges = transaction_ranges(queued_transaction_views(entries));
    assert forall|i: int| 0 <= i < ranges.len() implies (#[trigger] ranges[i]).valid() by {
        assert(entries[i].start < entries[i].end);
    }
    assert forall|i: int, j: int| 0 <= i < j < ranges.len() implies (#[trigger] ranges[i]).end <= (
    #[trigger] ranges[j]).start by {
        assert(entries[i].end <= entries[j].start);
    }
}


/// Whether each queued state update stands under its own range.
spec fn updates_keyed(entries: Seq<RangeEntry<StateUpdate>>) -> bool {
    forall|i: int|
        0 <= i < entries.len() ==> {
            let e = #[trigger] entries[i];
            e.value@.range == (Range { start: e.start, end: e.end })
        }
}

/// Taking entries out and looking at the state updates that are left gives
/// what taking the state updates out gives.
proof fn lemma_drained_updates(entries: Seq<RangeEntry<StateUpdate>>, starts: Seq<u64>)
    requires
        disjoint_ascending(entries),
        updates_keyed(entries),
    ensures
        disjoint_ascending(drained(entries, entry_start(), starts)),
        updates_keyed(drained(entries, entry_start(), starts)),
        queued_update_views(drained(entries, entry_start(), starts)) == drained(
            queued_update_views(entries),
            update_start(),
            starts,
        ),
    decreases starts.len(),
{
    if starts.len() > 0 {
        lemma_drained_updates(entries, starts.drop_last());
        let d = drained(entries, entry_start(), starts.drop_last());
        let v = queued_update_views(d);
        let s = starts.last();
        if exists|k: int| 0 <= k < d.len() && entry_start::<StateUpdate>()(#[trigger] d[k]) == s {
            let k = choose|k: int|
                0 <= k < d.len() && entry_start::<StateUpdate>()(#[trigger] d[k]) == s;
            assert(update_start()(v[k]) == s);
            let c = choose|c: int| 0 <= c < v.len() && update_start()(#[trigger] v[c]) == s;
            assert(d[c].start == s);
            if c < k {
                assert(d[c].end <= d[k].start);
            } else if c > k {
                assert(d[k].end <= d[c].start);
            }
            let r = d.remove(k);
            assert(queued_update_views(r) =~= v.remove(k));
            assert forall|i: int| 0 <= i < r.len() implies {
                let e = #[trigger] r[i];
                e.value@.range == (Range { start: e.start, end: e.end })
            } by {
                let i0 = if i < k { i } else { i + 1 };
                assert(r[i] == d[i0]);
            }
            assert(disjoint_ascending(r)) by {
                assert forall|i: int| 0 <= i < r.len() implies (#[trigger] r[i]).start < r[i].end by {
                    let i0 = if i < k { i } else { i + 1 };
                    assert(r[i] == d[i0]);
                }
                assert forall|i: int, j: int| 0 <= i < j < r.len() implies (#[trigger] r[i]).end <= (
                #[trigger] r[j]).start by {
                    let i0 = if i < k { i } else { i + 1 };
                    let j0 = if j < k { j } else { j + 1 };
                    assert(d[i0].end <= d[j0].start);
                }
            }
        } else {
            assert forall|c: int| 0 <= c < v.len() implies update_start()(#[trigger] v[c]) != s by {
                assert(entry_start::<StateUpdate>()(d[c]) != s);
            }
        }
    }
}

/// Whether each queued transaction stands under its own range.
spec fn transactions_keyed(entries: Seq<RangeEntry<Transaction>>) -> bool {
    forall|i: int|
        0 <= i < entries.len() ==> {
            let e = #[trigger] entries[i];
            e.value@.range == (Range { start: e.start, end: e.end })
        }
}

/// Taking entries out and looking at the transactions that are left gives
/// what taking the transactions out gives.
proof fn lemma_drained_transactions(entries: Seq<RangeEntry<Transaction>>, starts: Seq<u64>)
    requires
        disjoint_ascending(entries),
        transactions_keyed(entries),
    ensures
        disjoint_ascending(drained(entries, entry_start(), starts)),
        transactions_keyed(drained(entries, entry_start(), starts)),
        queued_transaction_views(drained(entries, entry_start(), starts)) == drained(
            queued_transaction_views(entries),
            transaction_start(),
            starts,
        ),
    decreases starts.len(),
{
    if starts.len() > 0 {
        lemma_drained_transactions(entries, starts.drop_last());
        let d = drained(entries, entry_start(), starts.drop_last());
        let v = queued_transaction_views(d);
        let s = starts.last();
        if exists|k: int| 0 <= k < d.len() && entry_start::<Transaction>()(#[trigger] d[k]) == s {
            let k = choose|k: int|
                0 <= k < d.len() && entry_start::<Transaction>()(#[trigger] d[k]) == s;
            assert(transaction_start()(v[k]) == s);
            let c = choose|c: int| 0 <= c < v.len() && transaction_start()(#[trigger] v[c]) == s;
            assert(d[c].start == s);
            if c < k {
                assert(d[c].end <= d[k].start);
            } else if c > k {
                assert(d[k].end <= d[c].start);
            }
            let r = d.remove(k);
            assert(queued_transaction_views(r) =~= v.remove(k));
            assert forall|i: int| 0 <= i < r.len() implies {
                let e = #[trigger] r[i];
                e.value@.range == (Range { start: e.start, end: e.end })
            } by {
                let i0 = if i < k { i } else { i + 1 };
                assert(r[i] == d[i0]);
            }
            assert(disjoint_ascending(r)) by {
                assert forall|i: int| 0 <= i < r.len() implies (#[trigger] r[i]).start < r[i].end by {
                    let i0 = if i < k { i } else { i + 1 };
                    assert(r[i] == d[i0]);
                }
                assert forall|i: int, j: int| 0 <= i < j < r.len() implies (#[trigger] r[i]).end <= (
                #[trigger] r[j]).start by {
                    let i0 = if i < k { i } else { i + 1 };
                    let j0 = if j < k { j } else { j + 1 };
                    assert(d[i0].end <= d[j0].start);
                }
            }
        } else {
            assert forall|c: int| 0 <= c < v.len() implies transaction_start()(#[trigger] v[c]) != s by {
                assert(entry_start::<Transaction>()(d[c]) != s);
            }
        }
    }
}

/// When every pending state update leaves, none is left.
pub proof fn lemma_remaining_updates_of_all(pending: Seq<StateUpdateView>)
    requires
        ascending_ranges(update_ranges(pending)),
    ensures
        remaining_updates(pending, pending).len() == 0,
{
    let ranges = update_ranges(pending);
    assert forall|i: int, j: int| 0 <= i < j < pending.len() implies update_start()(pending[i])
        < update_start()(pending[j]) by {
        assert(ranges[i].valid());
        assert(ranges[i].end <= ranges[j].start);
    }
    lemma_drained_all(pending, update_start(), pending.len() as int);
    assert(update_starts(pending).take(pending.len() as int) =~= update_starts(pending));
}

/// When every pending transaction leaves, none is left.
pub proof fn lemma_remaining_transactions_of_all(pending: Seq<TransactionView>)
    requires
        ascending_ranges(transaction_ranges(pending)),
    ensures
        remaining_transactions(pending, pending).len() == 0,
{
    let ranges = transaction_ranges(pending);
    assert forall|i: int, j: int| 0 <= i < j < pending.len() implies transaction_start()(
        pending[i],
    ) < transaction_start()(pending[j]) by {
        assert(ranges[i].valid());
        assert(ranges[i].end <= ranges[j].start);
    }
    lemma_drained_all(pending, transaction_start(), pending.len() as int);
    assert(transaction_starts(pending).take(pending.len() as int) =~= transaction_starts(pending));
}

} // verus!
