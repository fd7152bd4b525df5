//! The block manager: it queues state updates and transactions, makes the
//! next block of them, and finalizes the block once the chain has taken its
//! root.
//!
//! The manager accumulates until `submit_next_block` takes a snapshot of the
//! queue and hands out the commitment to send. It is then committing until
//! `complete_submission` is told how the chain answered. What is enqueued
//! while it is committing stays in the queue for the next block.

use crate::block::{block_root, committable, transaction_views, update_views, BlockView, PlasmaBlock};
use crate::block_db::{
    ascending_ranges, lemma_remaining_transactions_of_all, lemma_remaining_updates_of_all,
    records_of, remaining_transactions, remaining_updates, savable, transaction_ranges,
    update_ranges, BlockDb, DbView,
};
use crate::error::{ChainFailure, Error};
use crate::primitives::{Address, Digest, Range};
use crate::state_update::{StateUpdate, StateUpdateView};
use crate::transaction::{Transaction, TransactionView};
use vstd::prelude::*;

verus! {

/// How the chain answered a commitment.
#[derive(Clone, Copy, Debug, PartialEq, Eq, Structural)]
pub enum SubmissionOutcome {
    /// The chain took the root.
    Success,
    /// The contract refused the root.
    Rejected,
    /// The chain holds this root under this number already.
    AlreadySubmitted,
    /// The call did not reach the contract or timed out.
    TransportError,
}

/// What is to be sent to the commitment contract.
#[derive(Clone, Copy, Debug)]
pub struct Commitment {
    pub submitter: Address,
    pub block_number: u64,
    pub root: Digest,
}

/// A state update seen on the chain: the block it was seen in, its owner
/// and its range.
pub struct EventKey {
    pub observed_block: u64,
    pub owner: Seq<u8>,
    pub range: Range,
}

/// What the manager holds.
pub struct ManagerView {
    pub db: DbView,
    /// The number of the last block that was finalized; zero before the
    /// first.
    pub current_block_number: u64,
    /// The block whose commitment is under way.
    pub in_flight: Option<BlockView>,
    /// Whether the contract refused a root and nobody has resumed since.
    pub halted: bool,
    /// The state updates seen on the chain that were enqueued.
    pub seen: Seq<EventKey>,
}

/// The largest number that a block can have.
pub const LAST_BLOCK_NUMBER: u64 = 0xffff_ffff_ffff_fffe;

/// Whether the manager can take a snapshot and hand out a commitment.
pub open spec fn can_submit(m: ManagerView) -> bool {
    &&& !m.halted
    &&& m.in_flight is None
    &&& m.current_block_number < LAST_BLOCK_NUMBER
    &&& committable(m.db.pending_state_updates)
}

/// Why the manager cannot hand out a commitment.
pub open spec fn submit_error(m: ManagerView) -> Error {
    if m.halted {
        Error::ChainSubmissionError(ChainFailure::Rejected)
    } else if m.in_flight is Some {
        Error::SubmissionInFlight
    } else if m.current_block_number >= LAST_BLOCK_NUMBER {
        Error::StorageError
    } else {
        Error::MalformedLeaf
    }
}

/// The block that a snapshot makes: the next number, and everything that
/// is pending.
pub open spec fn snapshot(m: ManagerView) -> BlockView {
    BlockView {
        block_number: (m.current_block_number + 1) as u64,
        state_updates: m.db.pending_state_updates,
        transactions: m.db.pending_txs,
        root: Some(block_root(m.db.pending_state_updates)),
    }
}

/// The manager after a snapshot: committing, with nothing else changed.
pub open spec fn submitted(m: ManagerView) -> ManagerView {
    ManagerView { in_flight: Some(snapshot(m)), ..m }
}

/// Whether `after` is the manager `m` with its block in flight finalized:
/// the block is saved with its records, what it took has left the queues,
/// and its number is the current one.
pub open spec fn finalized(m: ManagerView, after: ManagerView) -> bool {
    &&& m.in_flight is Some
    &&& after.in_flight is None
    &&& after.halted == m.halted
    &&& after.seen == m.seen
    &&& after.current_block_number == m.in_flight->0.block_number
    &&& after.db.pending_state_updates == remaining_updates(
        m.db.pending_state_updates,
        m.in_flight->0.state_updates,
    )
    &&& after.db.pending_txs == remaining_transactions(
        m.db.pending_txs,
        m.in_flight->0.transactions,
    )
    &&& after.db.blocks == m.db.blocks.push(m.in_flight->0)
    &&& records_of(m.in_flight->0, after.db.records[m.in_flight->0.block_number])
    &&& forall|n: u64|
        n != m.in_flight->0.block_number ==> (#[trigger] after.db.records[n]) == m.db.records[n]
}

/// The manager after a commitment that failed: accumulating again, with
/// the queues and the block number as they were; halted where the contract
/// refused the root.
pub open spec fn abandoned(m: ManagerView, refused: bool) -> ManagerView {
    ManagerView { in_flight: None, halted: m.halted || refused, ..m }
}

/// The block manager.
#[derive(Debug)]
pub struct BlockManager {
    db: BlockDb,
    commitment_contract_address: Address,
    aggregator_address: Address,
    current_block_number: u64,
    in_flight: Option<PlasmaBlock>,
    halted: bool,
    seen: Vec<(u64, Address, Range)>,
}

/// The keys of the state updates seen on the chain.
pub open spec fn event_keys(seen: Seq<(u64, Address, Range)>) -> Seq<EventKey> {
    seen.map_values(
        |k: (u64, Address, Range)| EventKey { observed_block: k.0, owner: k.1@, range: k.2 },
    )
}

impl View for BlockManager {
    type V = ManagerView;

    closed spec fn view(&self) -> ManagerView {
        ManagerView {
            db: self.db@,
            current_block_number: self.current_block_number,
            in_flight: match self.in_flight {
                Some(block) => Some(block@),
                None => None,
            },
            halted: self.halted,
            seen: event_keys(self.seen@),
        }
    }
}

/// What holds of the manager at all times: the block in flight has the next
/// number and can be saved, and nothing was saved under a later number.
pub open spec fn manager_inv(m: ManagerView) -> bool {
    &&& m.current_block_number <= LAST_BLOCK_NUMBER
    &&& m.in_flight matches Some(block) ==> block.block_number == m.current_block_number + 1
        && block.block_number <= LAST_BLOCK_NUMBER && savable(m.db, block) && block.root == Some(
        block_root(block.state_updates),
    )
    &&& forall|k: int|
        0 <= k < m.db.blocks.len() ==> (#[trigger] m.db.blocks[k]).block_number
            <= m.current_block_number
    &&& forall|n: u64| n > m.current_block_number ==> (#[trigger] m.db.records[n]).len() == 0
}

impl BlockManager {
    #[verifier::type_invariant]
    spec fn inv(&self) -> bool {
        manager_inv(self@)
    }

    /// The address of the contract that takes the roots.
    pub closed spec fn contract(&self) -> Seq<u8> {
        self.commitment_contract_address@
    }

    /// The address that submits the roots.
    pub closed spec fn aggregator(&self) -> Seq<u8> {
        self.aggregator_address@
    }

    /// A manager that has finalized no block and holds nothing.
    pub fn new(aggregator_address: Address, commitment_contract_address: Address) -> (manager:
        BlockManager)
        ensures
            manager_inv(manager@),
            manager@.current_block_number == 0,
            manager@.in_flight is None,
            !manager@.halted,
            manager@.seen.len() == 0,
            manager@.db.pending_state_updates.len() == 0,
            manager@.db.pending_txs.len() == 0,
            manager@.db.blocks.len() == 0,
            manager.aggregator() == aggregator_address@,
            manager.contract() == commitment_contract_address@,
    {
        let db = BlockDb::new();
        let manager = BlockManager {
            db,
            aggregator_address,
            commitment_contract_address,
            current_block_number: 0,
            in_flight: None,
            halted: false,
            seen: Vec::new(),
        };
        manager
    }

    /// The address of the contract that takes the roots.
    pub fn get_commitment_contract_address(&self) -> (address: Address)
        ensures
            address@ == self.contract(),
    {
        self.commitment_contract_address
    }

    /// The address that submits the roots.
    pub fn get_aggregator_address(&self) -> (address: Address)
        ensures
            address@ == self.aggregator(),
    {
        self.aggregator_address
    }

    pub fn get_current_block_number(&self) -> (number: u64)
        ensures
            number == self@.current_block_number,
    {
        self.current_block_number
    }

    /// The number that the next block will have.
    pub fn get_next_block_number(&self) -> (number: u64)
        ensures
            manager_inv(self@),
            number == self@.current_block_number + 1,
    {
        proof {
            use_type_invariant(self);
        }
        self.current_block_number + 1
    }

    /// Whether the contract refused a root and nobody has resumed since.
    pub fn is_halted(&self) -> (halted: bool)
        ensures
            halted == self@.halted,
    {
        self.halted
    }

    /// Copies of the pending state updates, in the order of their ranges.
    pub fn get_queued_state_updates(&self) -> (updates: Vec<StateUpdate>)
        ensures
            update_views(updates@) == self@.db.pending_state_updates,
            ascending_ranges(update_ranges(self@.db.pending_state_updates)),
    {
        self.db.get_pending_state_updates()
    }

    /// Copies of the pending transactions, in the order of their ranges.
    pub fn get_queued_txs(&self) -> (transactions: Vec<Transaction>)
        ensures
            transaction_views(transactions@) == self@.db.pending_txs,
            ascending_ranges(transaction_ranges(self@.db.pending_txs)),
    {
        self.db.get_pending_txs()
    }

    /// The finalized block with the given number. Fails with `NotFound`
    /// where none was finalized under it.
    pub fn get_block_range(&self, block_number: u64) -> (found: Result<&PlasmaBlock, Error>)
        ensures
            match found {
                Ok(block) => block@.block_number == block_number && self@.db.blocks.contains(
                    block@,
                ),
                Err(e) => e == Error::NotFound && forall|k: int|
                    0 <= k < self@.db.blocks.len() ==> (#[trigger] self@.db.blocks[k]).block_number
                        != block_number,
            },
    {
        self.db.get_block(block_number)
    }

    /// The database of the manager.
    pub fn get_db(&self) -> (db: &BlockDb)
        ensures
            db@ == self@.db,
    {
        &self.db
    }

    /// Takes the database out of the manager, which is left with an empty
    /// one.
    fn take_db(&mut self) -> (db: BlockDb)
        ensures
            db == old(self).db,
            final(self).db@.blocks.len() == 0,
            forall|n: u64| (#[trigger] final(self).db@.records[n]).len() == 0,
            final(self).commitment_contract_address == old(self).commitment_contract_address,
            final(self).aggregator_address == old(self).aggregator_address,
            final(self).current_block_number == old(self).current_block_number,
            final(self).in_flight == old(self).in_flight,
            final(self).halted == old(self).halted,
            final(self).seen == old(self).seen,
    {
        proof {
            use_type_invariant(&*self);
        }
        let mut db = BlockDb::new();
        proof {
            let after = BlockManager {
                db,
                commitment_contract_address: self.commitment_contract_address,
                aggregator_address: self.aggregator_address,
                current_block_number: self.current_block_number,
                in_flight: self.in_flight,
                halted: self.halted,
                seen: self.seen,
            };
            assert(manager_inv(after@));
        }
        core::mem::swap(&mut self.db, &mut db);
        db
    }

    /// Puts a database into the manager.
    fn put_db(&mut self, db: BlockDb)
        requires
            manager_inv(ManagerView { db: db@, ..old(self)@ }),
        ensures
            final(self)@ == (ManagerView { db: db@, ..old(self)@ }),
            final(self).commitment_contract_address == old(self).commitment_contract_address,
            final(self).aggregator_address == old(self).aggregator_address,
    {
        proof {
            let after = BlockManager {
                db,
                commitment_contract_address: self.commitment_contract_address,
                aggregator_address: self.aggregator_address,
                current_block_number: self.current_block_number,
                in_flight: self.in_flight,
                halted: self.halted,
                seen: self.seen,
            };
            assert(after@ == (ManagerView { db: db@, ..self@ }));
        }
        self.db = db;
    }

    /// Takes the block in flight out of the manager.
    fn take_in_flight(&mut self) -> (block: Option<PlasmaBlock>)
        ensures
            block == old(self).in_flight,
            final(self)@ == (ManagerView { in_flight: None, ..old(self)@ }),
            final(self).commitment_contract_address == old(self).commitment_contract_address,
            final(self).aggregator_address == old(self).aggregator_address,
    {
        proof {
            use_type_invariant(&*self);
        }
        let mut block: Option<PlasmaBlock> = None;
        proof {
            let after = BlockManager {
                db: self.db,
                commitment_contract_address: self.commitment_contract_address,
                aggregator_address: self.aggregator_address,
                current_block_number: self.current_block_number,
                in_flight: block,
                halted: self.halted,
                seen: self.seen,
            };
            assert(after@ == (ManagerView { in_flight: None, ..self@ }));
            assert(manager_inv(after@));
        }
        core::mem::swap(&mut self.in_flight, &mut block);
        block
    }

    /// Puts a copy of `update` into the queue of state updates. Fails with
    /// `StorageError`, and leaves the manager as it is, where the range holds
    /// no coordinate or shares one with a pending state update.
    pub fn enqueue_state_update(&mut self, update: &StateUpdate) -> (done: Result<(), Error>)
        ensures
            manager_inv(final(self)@),
            final(self).aggregator() == old(self).aggregator(),
            final(self).contract() == old(self).contract(),
            ascending_ranges(update_ranges(final(self)@.db.pending_state_updates)),
            final(self)@ == (ManagerView {
                db: DbView {
                    pending_state_updates: final(self)@.db.pending_state_updates,
                    ..old(self)@.db
                },
                ..old(self)@
            }),
            done is Ok <==> update@.range.valid() && forall|k: int|
                0 <= k < old(self)@.db.pending_state_updates.len() ==> !(#[trigger] old(self)@.db.pending_state_updates[k]).range.intersects(
                    update@.range.start,
                    update@.range.end,
                ),
            done is Ok ==> exists|k: int|
                0 <= k <= old(self)@.db.pending_state_updates.len() && final(self)@.db.pending_state_updates == #[trigger] old(self)@.db.pending_state_updates.insert(
                    k,
                    update@,
                ),
            done matches Err(e) ==> e == Error::StorageError && final(self)@ == old(self)@,
    {
        proof {
            use_type_invariant(&*self);
        }
        let mut db = self.take_db();
        let done = db.enqueue_state_update(update);
        self.put_db(db);
        done
    }

    /// Puts a copy of `transaction` into the queue of transactions. Fails
    /// with `StorageError`, and leaves the manager as it is, where the range
    /// holds no coordinate or shares one with a pending transaction.
    pub fn enqueue_tx(&mut self, transaction: &Transaction) -> (done: Result<(), Error>)
        ensures
            manager_inv(final(self)@),
            final(self).aggregator() == old(self).aggregator(),
            final(self).contract() == old(self).contract(),
            ascending_ranges(transaction_ranges(final(self)@.db.pending_txs)),
            final(self)@ == (ManagerView {
                db: DbView { pending_txs: final(self)@.db.pending_txs, ..old(self)@.db },
                ..old(self)@
            }),
            done is Ok <==> transaction@.range.valid() && forall|k: int|
                0 <= k < old(self)@.db.pending_txs.len() ==> !(#[trigger] old(self)@.db.pending_txs[k]).range.intersects(
                    transaction@.range.start,
                    transaction@.range.end,
                ),
            done is Ok ==> exists|k: int|
                0 <= k <= old(self)@.db.pending_txs.len() && final(self)@.db.pending_txs
                    == #[trigger] old(self)@.db.pending_txs.insert(k, transaction@),
            done matches Err(e) ==> e == Error::StorageError && final(self)@ == old(self)@,
    {
        proof {
            use_type_invariant(&*self);
        }
        let mut db = self.take_db();
        let done = db.enqueue_tx(transaction);
        self.put_db(db);
        done
    }

    /// Takes a snapshot of the queues, makes the next block of it, and
    /// returns what is to be sent to the commitment contract. The queues stay
    /// as they are. Fails, and leaves the manager as it is, where it is
    /// halted, where a commitment is under way, where the block numbers are
    /// used up, or where the pending state updates cannot be committed.
    pub fn submit_next_block(&mut self) -> (made: Result<Commitment, Error>)
        ensures
            manager_inv(old(self)@),
            manager_inv(final(self)@),
            made is Ok <==> can_submit(old(self)@),
            made matches Ok(commitment) ==> {
                &&& final(self)@ == submitted(old(self)@)
                &&& commitment.submitter@ == old(self).aggregator()
                &&& commitment.block_number == old(self)@.current_block_number + 1
                &&& commitment.root@ == block_root(old(self)@.db.pending_state_updates)
            },
            made matches Err(e) ==> e == submit_error(old(self)@) && final(self)@ == old(self)@,
            final(self).aggregator() == old(self).aggregator(),
            final(self).contract() == old(self).contract(),
    {
        proof {
            use_type_invariant(&*self);
        }
        if self.halted {
            return Err(Error::ChainSubmissionError(ChainFailure::Rejected));
        }
        if self.in_flight.is_some() {
            return Err(Error::SubmissionInFlight);
        }
        if self.current_block_number >= LAST_BLOCK_NUMBER {
            return Err(Error::StorageError);
        }
        let number = self.current_block_number + 1;
        let mut block = PlasmaBlock::new(
            number,
            self.db.get_pending_state_updates(),
            self.db.get_pending_txs(),
        );
        match block.merkelize() {
            Err(_) => Err(Error::MalformedLeaf),
            Ok(root) => {
                let commitment = Commitment {
                    submitter: self.aggregator_address,
                    block_number: number,
                    root,
                };
                let mut slot = Some(block);
                proof {
                    let after = BlockManager {
                        db: self.db,
                        commitment_contract_address: self.commitment_contract_address,
                        aggregator_address: self.aggregator_address,
                        current_block_number: self.current_block_number,
                        in_flight: slot,
                        halted: self.halted,
                        seen: self.seen,
                    };
                    assert(block@ == snapshot(self@));
                    assert(after@ == submitted(self@));
                    assert(savable(self@.db, block@));
                    assert(manager_inv(after@));
                }
                core::mem::swap(&mut self.in_flight, &mut slot);
                Ok(commitment)
            },
        }
    }

    /// Tells the manager how the chain answered the commitment that is
    /// under way. Where the chain took the root, or holds it already, the
    /// block is finalized: it is saved with the records of its ranges, what
    /// it took leaves the queues, and its number becomes the current one.
    /// Where the commitment failed, the queues and the block number stay as
    /// they were; a refusal by the contract halts the manager. Fails with
    /// `NoSubmission` where no commitment is under way.
    pub fn complete_submission(&mut self, outcome: SubmissionOutcome) -> (done: Result<(), Error>)
        ensures
            manager_inv(old(self)@),
            manager_inv(final(self)@),
            final(self).aggregator() == old(self).aggregator(),
            final(self).contract() == old(self).contract(),
            old(self)@.in_flight is None ==> done == Err::<(), Error>(Error::NoSubmission) && final(self)@ == old(self)@,
            old(self)@.in_flight is Some ==> match outcome {
                SubmissionOutcome::Success | SubmissionOutcome::AlreadySubmitted => done is Ok
                    && finalized(old(self)@, final(self)@),
                SubmissionOutcome::Rejected => done == Err::<(), Error>(
                    Error::ChainSubmissionError(ChainFailure::Rejected),
                ) && final(self)@ == abandoned(old(self)@, true),
                SubmissionOutcome::TransportError => done == Err::<(), Error>(
                    Error::ChainSubmissionError(ChainFailure::Transport),
                ) && final(self)@ == abandoned(old(self)@, false),
            },
    {
        proof {
            use_type_invariant(&*self);
        }
        let ghost before = self@;
        let block = match self.take_in_flight() {
            None => {
                return Err(Error::NoSubmission);
            },
            Some(block) => block,
        };
        match outcome {
            SubmissionOutcome::Rejected => {
                proof {
                    let after = BlockManager {
                        db: self.db,
                        commitment_contract_address: self.commitment_contract_address,
                        aggregator_address: self.aggregator_address,
                        current_block_number: self.current_block_number,
                        in_flight: self.in_flight,
                        halted: true,
                        seen: self.seen,
                    };
                    assert(after@ == abandoned(before, true));
                    assert(manager_inv(after@));
                }
                self.halted = true;
                Err(Error::ChainSubmissionError(ChainFailure::Rejected))
            },
            SubmissionOutcome::TransportError => Err(
                Error::ChainSubmissionError(ChainFailure::Transport),
            ),
            SubmissionOutcome::Success | SubmissionOutcome::AlreadySubmitted => {
                let number = block.get_block_number();
                let ghost taken = block@;
                let mut db = self.take_db();
                db.remove_pending_state_updates(block.get_state_updates());
                db.remove_pending_txs(block.get_transactions());
                assert(savable(db@, taken));
                let saved = db.save_block(block);
                proof {
                    let after = BlockManager {
                        db: self.db,
                        commitment_contract_address: self.commitment_contract_address,
                        aggregator_address: self.aggregator_address,
                        current_block_number: number,
                        in_flight: self.in_flight,
                        halted: self.halted,
                        seen: self.seen,
                    };
                    assert(manager_inv(after@));
                }
                self.current_block_number = number;
                proof {
                    let reached = ManagerView { db: db@, ..self@ };
                    assert forall|k: int| 0 <= k < reached.db.blocks.len() implies (
                    #[trigger] reached.db.blocks[k]).block_number <= number by {
                        if k < before.db.blocks.len() {
                            assert(before.db.blocks[k].block_number <= before.current_block_number);
                        }
                    }
                    assert forall|n: u64| n > number implies (#[trigger] reached.db.records[n]).len()
                        == 0 by {
                        assert(before.db.records[n].len() == 0);
                    }
                }
                self.put_db(db);
                match saved {
                    Ok(_) => Ok(()),
                    Err(e) => Err(e),
                }
            },
        }
    }

    /// Lets a halted manager hand out commitments again.
    pub fn resume(&mut self)
        ensures
            manager_inv(final(self)@),
            final(self)@ == (ManagerView { halted: false, ..old(self)@ }),
            final(self).aggregator() == old(self).aggregator(),
            final(self).contract() == old(self).contract(),
    {
        proof {
            use_type_invariant(&*self);
            let after = BlockManager {
                db: self.db,
                commitment_contract_address: self.commitment_contract_address,
                aggregator_address: self.aggregator_address,
                current_block_number: self.current_block_number,
                in_flight: self.in_flight,
                halted: false,
                seen: self.seen,
            };
            assert(after@ == (ManagerView { halted: false, ..self@ }));
            assert(manager_inv(after@));
        }
        self.halted = false;
    }

    /// Whether a state update with this key was seen on the chain and
    /// enqueued.
    fn was_seen(&self, observed_block: u64, update: &StateUpdate) -> (seen: bool)
        ensures
            seen == self@.seen.contains(
                EventKey {
                    observed_block,
                    owner: update@.deposit_contract_address,
                    range: update@.range,
                },
            ),
    {
        let ghost key = EventKey {
            observed_block,
            owner: update@.deposit_contract_address,
            range: update@.range,
        };
        let owner = update.get_deposit_contract_address();
        let range = update.get_range();
        let mut i: usize = 0;
        while i < self.seen.len()
            invariant
                i <= self.seen.len(),
                owner@ == key.owner,
                range == key.range,
                key == (EventKey {
                    observed_block,
                    owner: update@.deposit_contract_address,
                    range: update@.range,
                }),
                forall|k: int| 0 <= k < i ==> (#[trigger] self@.seen[k]) != key,
            decreases self.seen.len() - i,
        {
            let entry = &self.seen[i];
            if entry.0 == observed_block && entry.1.same(&owner) && entry.2 == range {
                assert(self.seen[i as int].1@ == key.owner);
                assert(self@.seen[i as int] == key);
                assert(self@.seen.contains(key));
                return true;
            }
            i += 1;
        }
        false
    }

    /// Enqueues a state update that was seen on the chain in the block
    /// `observed_block`, unless one of the same block, owner and range was
    /// enqueued before. Returns whether it was enqueued now.
    pub fn enqueue_observed_state_update(&mut self, observed_block: u64, update: &StateUpdate) -> (done:
        Result<bool, Error>)
        ensures
            manager_inv(final(self)@),
            final(self).aggregator() == old(self).aggregator(),
            final(self).contract() == old(self).contract(),
            ({
                let key = EventKey {
                    observed_block,
                    owner: update@.deposit_contract_address,
                    range: update@.range,
                };
                let fits = update@.range.valid() && forall|k: int|
                    0 <= k < old(self)@.db.pending_state_updates.len() ==> !(#[trigger] old(self)@.db.pending_state_updates[k]).range.intersects(
                        update@.range.start,
                        update@.range.end,
                    );
                if old(self)@.seen.contains(key) {
                    done == Ok::<bool, Error>(false) && final(self)@ == old(self)@
                } else if !fits {
                    done == Err::<bool, Error>(Error::StorageError) && final(self)@ == old(self)@
                } else {
                    &&& done == Ok::<bool, Error>(true)
                    &&& final(self)@ == (ManagerView {
                        db: DbView {
                            pending_state_updates: final(self)@.db.pending_state_updates,
                            ..old(self)@.db
                        },
                        seen: old(self)@.seen.push(key),
                        ..old(self)@
                    })
                    &&& exists|k: int|
                        0 <= k <= old(self)@.db.pending_state_updates.len() && final(self)@.db.pending_state_updates == #[trigger] old(self)@.db.pending_state_updates.insert(k, update@)
                }
            }),
    {
        if self.was_seen(observed_block, update) {
            proof {
                use_type_invariant(&*self);
            }
            return Ok(false);
        }
        match self.enqueue_state_update(update) {
            Err(e) => Err(e),
            Ok(_) => {
                let mut seen: Vec<(u64, Address, Range)> = Vec::new();
                proof {
                    use_type_invariant(&*self);
                    let after = BlockManager {
                        db: self.db,
                        commitment_contract_address: self.commitment_contract_address,
                        aggregator_address: self.aggregator_address,
                        current_block_number: self.current_block_number,
                        in_flight: self.in_flight,
                        halted: self.halted,
                        seen,
                    };
                    assert(manager_inv(after@));
                }
                core::mem::swap(&mut self.seen, &mut seen);
                let ghost keys = event_keys(seen@);
                seen.push((observed_block, update.get_deposit_contract_address(), update.get_range()));
                proof {
                    let after = BlockManager {
                        db: self.db,
                        commitment_contract_address: self.commitment_contract_address,
                        aggregator_address: self.aggregator_address,
                        current_block_number: self.current_block_number,
                        in_flight: self.in_flight,
                        halted: self.halted,
                        seen,
                    };
                    assert(event_keys(seen@) =~= keys.push(
                        EventKey {
                            observed_block,
                            owner: update@.deposit_contract_address,
                            range: update@.range,
                        },
                    ));
                    assert(manager_inv(after@));
                }
                self.seen = seen;
                Ok(true)
            },
        }
    }

    /// Moves the number of the last finalized block forward. Refused, with
    /// the manager left as it is, while a commitment is under way and for a
    /// number that is behind the current one or cannot be followed by
    /// another.
    pub fn save_next_block_number(&mut self, block_number: u64) -> (accepted: bool)
        ensures
            manager_inv(final(self)@),
            final(self).aggregator() == old(self).aggregator(),
            final(self).contract() == old(self).contract(),
            accepted == (old(self)@.in_flight is None && old(self)@.current_block_number
                <= block_number <= LAST_BLOCK_NUMBER),
            accepted ==> final(self)@ == (ManagerView {
                current_block_number: block_number,
                ..old(self)@
            }),
            !accepted ==> final(self)@ == old(self)@,
    {
        proof {
            use_type_invariant(&*self);
        }
        if self.in_flight.is_some() || block_number < self.current_block_number || block_number
            > LAST_BLOCK_NUMBER {
            return false;
        }
        proof {
            let after = BlockManager {
                db: self.db,
                commitment_contract_address: self.commitment_contract_address,
                aggregator_address: self.aggregator_address,
                current_block_number: block_number,
                in_flight: self.in_flight,
                halted: self.halted,
                seen: self.seen,
            };
            assert forall|k: int| 0 <= k < after@.db.blocks.len() implies (
            #[trigger] after@.db.blocks[k]).block_number <= block_number by {
                assert(self@.db.blocks[k].block_number <= self@.current_block_number);
            }
            assert(manager_inv(after@));
        }
        self.current_block_number = block_number;
        true
    }
}

/// Whether `after` is the queue `before` with `update` put into it.
pub open spec fn enqueued(
    before: Seq<StateUpdateView>,
    update: StateUpdateView,
    after: Seq<StateUpdateView>,
) -> bool {
    exists|k: int| 0 <= k <= before.len() && after == #[trigger] before.insert(k, update)
}

/// A queue that state updates were put into one after the other holds
/// each of them, holds what it held before, and has grown by their number.
pub proof fn lemma_enqueued_all_are_pending(
    queues: Seq<Seq<StateUpdateView>>,
    updates: Seq<StateUpdateView>,
)
    requires
        queues.len() == updates.len() + 1,
        forall|i: int|
            0 <= i < updates.len() ==> enqueued(#[trigger] queues[i], updates[i], queues[i + 1]),
    ensures
        queues.last().len() == queues[0].len() + updates.len(),
        forall|i: int| 0 <= i < updates.len() ==> queues.last().contains(#[trigger] updates[i]),
        forall|u: StateUpdateView| queues[0].contains(u) ==> queues.last().contains(u),
    decreases updates.len(),
{
    if updates.len() > 0 {
        let n = updates.len() as int;
        let shorter = queues.drop_last();
        assert forall|i: int| 0 <= i < n - 1 implies enqueued(
            #[trigger] shorter[i],
            updates.drop_last()[i],
            shorter[i + 1],
        ) by {
            assert(enqueued(queues[i], updates[i], queues[i + 1]));
        }
        lemma_enqueued_all_are_pending(shorter, updates.drop_last());
        let before = queues[n - 1];
        let after = queues[n];
        assert(shorter.last() == before);
        assert(enqueued(before, updates[n - 1], after));
        let k = choose|k: int|
            0 <= k <= before.len() && after == #[trigger] before.insert(k, updates[n - 1]);
        assert forall|u: StateUpdateView| before.contains(u) implies after.contains(u) by {
            let j = choose|j: int| 0 <= j < before.len() && before[j] == u;
            if j < k {
                assert(after[j] == u);
            } else {
                assert(after[j + 1] == u);
            }
        }
        assert(after[k] == updates[n - 1]);
        assert forall|i: int| 0 <= i < updates.len() implies queues.last().contains(
            #[trigger] updates[i],
        ) by {
            if i < n - 1 {
                assert(updates.drop_last()[i] == updates[i]);
                assert(before.contains(updates[i]));
            }
        }
        assert forall|u: StateUpdateView| queues[0].contains(u) implies queues.last().contains(
            u,
        ) by {
            assert(shorter[0] == queues[0]);
            assert(before.contains(u));
        }
    }
}

/// A commitment that the chain takes moves everything that was pending
/// into the new block, leaves the queues empty, and raises the block number
/// by one.
pub proof fn lemma_pipeline_moves_all(m: ManagerView, after: ManagerView)
    requires
        manager_inv(m),
        can_submit(m),
        ascending_ranges(update_ranges(m.db.pending_state_updates)),
        ascending_ranges(transaction_ranges(m.db.pending_txs)),
        finalized(submitted(m), after),
    ensures
        after.db.blocks.len() == m.db.blocks.len() + 1,
        after.db.blocks.last().state_updates == m.db.pending_state_updates,
        after.db.blocks.last().transactions == m.db.pending_txs,
        after.db.blocks.last().block_number == m.current_block_number + 1,
        after.db.pending_state_updates.len() == 0,
        after.db.pending_txs.len() == 0,
        after.current_block_number == m.current_block_number + 1,
{
    lemma_remaining_updates_of_all(m.db.pending_state_updates);
    lemma_remaining_transactions_of_all(m.db.pending_txs);
}

/// A commitment that fails leaves the queues, the saved blocks and the
/// block number as they were before the snapshot was taken, and the same
/// block number is tried again.
pub proof fn lemma_failure_changes_nothing(m: ManagerView, refused: bool)
    requires
        can_submit(m),
    ensures
        abandoned(submitted(m), refused).db == m.db,
        abandoned(submitted(m), refused).current_block_number == m.current_block_number,
        abandoned(submitted(m), refused).in_flight is None,
        !refused ==> abandoned(submitted(m), refused) == m && can_submit(
            abandoned(submitted(m), refused),
        ) && snapshot(abandoned(submitted(m), refused)) == snapshot(m),
{
}

} // verus!
