use plasma_operator::block::PlasmaBlock;
use plasma_operator::block_manager::{BlockManager, SubmissionOutcome};
use plasma_operator::error::{ChainFailure, Error};
use plasma_operator::primitives::{Address, Range};
use plasma_operator::state_update::StateUpdate;
use plasma_operator::transaction::{Metadata, Transaction};

fn update(owner: u8, start: u64, end: u64) -> StateUpdate {
    StateUpdate::new(Address::new([owner; 20]), Range::new(start, end), vec![owner, 1, 2], true)
}

fn transaction(start: u64, end: u64) -> Transaction {
    Transaction::new(
        Address::new([8u8; 20]),
        Range::new(start, end),
        vec![1],
        vec![2],
        Metadata::default(),
    )
}

fn manager() -> BlockManager {
    BlockManager::new(Address::new([0xaau8; 20]), Address::new([0xccu8; 20]))
}

fn queued_ranges(manager: &BlockManager) -> Vec<Range> {
    manager.get_queued_state_updates().iter().map(|u| u.get_range()).collect()
}

#[test]
fn a_commitment_that_is_taken_moves_everything_into_the_block() {
    let mut manager = manager();
    assert_eq!(manager.get_current_block_number(), 0);
    assert_eq!(manager.get_next_block_number(), 1);
    assert_eq!(manager.get_aggregator_address().bytes, [0xaau8; 20]);
    assert_eq!(manager.get_commitment_contract_address().bytes, [0xccu8; 20]);
    for i in 0..5u64 {
        assert_eq!(manager.enqueue_state_update(&update(1, i * 10, i * 10 + 10)), Ok(()));
    }
    assert_eq!(manager.enqueue_tx(&transaction(0, 5)), Ok(()));
    assert_eq!(manager.get_queued_state_updates().len(), 5);
    let commitment = manager.submit_next_block().unwrap();
    assert_eq!(commitment.block_number, 1);
    assert_eq!(commitment.submitter.bytes, [0xaau8; 20]);
    assert_eq!(manager.get_queued_state_updates().len(), 5);
    assert_eq!(manager.get_current_block_number(), 0);
    assert_eq!(manager.complete_submission(SubmissionOutcome::Success), Ok(()));
    assert_eq!(manager.get_current_block_number(), 1);
    assert_eq!(manager.get_queued_state_updates().len(), 0);
    assert_eq!(manager.get_queued_txs().len(), 0);
    let block = manager.get_block_range(1).unwrap();
    assert_eq!(block.get_block_number(), 1);
    assert_eq!(block.get_state_updates().len(), 5);
    assert_eq!(block.get_transactions().len(), 1);
    assert_eq!(block.get_root().unwrap().bytes, commitment.root.bytes);
    assert_eq!(manager.get_block_range(2).err(), Some(Error::NotFound));
    assert_eq!(manager.get_block_range(0).err(), Some(Error::NotFound));
}

#[test]
fn a_commitment_that_fails_changes_nothing_and_is_tried_again_under_the_same_number() {
    let mut manager = manager();
    assert_eq!(manager.enqueue_state_update(&update(1, 0, 10)), Ok(()));
    assert_eq!(manager.enqueue_state_update(&update(2, 10, 20)), Ok(()));
    let first = manager.submit_next_block().unwrap();
    assert_eq!(
        manager.complete_submission(SubmissionOutcome::TransportError),
        Err(Error::ChainSubmissionError(ChainFailure::Transport))
    );
    assert_eq!(manager.get_current_block_number(), 0);
    assert_eq!(queued_ranges(&manager), vec![Range::new(0, 10), Range::new(10, 20)]);
    assert_eq!(manager.get_block_range(1).err(), Some(Error::NotFound));
    let second = manager.submit_next_block().unwrap();
    assert_eq!(second.block_number, first.block_number);
    assert_eq!(second.root.bytes, first.root.bytes);
    assert_eq!(manager.complete_submission(SubmissionOutcome::AlreadySubmitted), Ok(()));
    assert_eq!(manager.get_current_block_number(), 1);
    assert_eq!(manager.get_queued_state_updates().len(), 0);
}

#[test]
fn a_refusal_halts_the_manager_until_it_is_resumed() {
    let mut manager = manager();
    assert_eq!(manager.enqueue_state_update(&update(1, 0, 10)), Ok(()));
    manager.submit_next_block().unwrap();
    assert_eq!(
        manager.complete_submission(SubmissionOutcome::Rejected),
        Err(Error::ChainSubmissionError(ChainFailure::Rejected))
    );
    assert!(manager.is_halted());
    assert_eq!(manager.get_current_block_number(), 0);
    assert_eq!(manager.get_queued_state_updates().len(), 1);
    assert_eq!(
        manager.submit_next_block().err(),
        Some(Error::ChainSubmissionError(ChainFailure::Rejected))
    );
    manager.resume();
    assert!(!manager.is_halted());
    assert_eq!(manager.submit_next_block().unwrap().block_number, 1);
}

#[test]
fn what_is_enqueued_while_committing_stays_for_the_next_block() {
    let mut manager = manager();
    assert_eq!(manager.enqueue_state_update(&update(1, 0, 10)), Ok(()));
    assert_eq!(manager.enqueue_tx(&transaction(0, 10)), Ok(()));
    manager.submit_next_block().unwrap();
    assert_eq!(manager.submit_next_block().err(), Some(Error::SubmissionInFlight));
    assert_eq!(manager.enqueue_state_update(&update(1, 20, 30)), Ok(()));
    assert_eq!(manager.enqueue_tx(&transaction(20, 30)), Ok(()));
    assert_eq!(manager.enqueue_state_update(&update(1, 5, 25)), Err(Error::StorageError));
    assert_eq!(manager.complete_submission(SubmissionOutcome::Success), Ok(()));
    assert_eq!(manager.get_block_range(1).unwrap().get_state_updates().len(), 1);
    assert_eq!(queued_ranges(&manager), vec![Range::new(20, 30)]);
    assert_eq!(manager.get_queued_txs().len(), 1);
    assert_eq!(manager.submit_next_block().unwrap().block_number, 2);
    assert_eq!(manager.complete_submission(SubmissionOutcome::Success), Ok(()));
    assert_eq!(manager.get_current_block_number(), 2);
    assert_eq!(manager.get_queued_state_updates().len(), 0);
    assert_eq!(manager.get_block_range(2).unwrap().get_state_updates()[0].get_range(), Range::new(20, 30));
}

#[test]
fn an_answer_without_a_commitment_is_refused() {
    let mut manager = manager();
    assert_eq!(manager.complete_submission(SubmissionOutcome::Success), Err(Error::NoSubmission));
    assert_eq!(manager.get_current_block_number(), 0);
}

#[test]
fn an_empty_queue_makes_an_empty_block() {
    let mut manager = manager();
    let commitment = manager.submit_next_block().unwrap();
    assert_eq!(commitment.root.bytes, [0u8; 32]);
    assert_eq!(manager.complete_submission(SubmissionOutcome::Success), Ok(()));
    assert_eq!(manager.get_current_block_number(), 1);
}

#[test]
fn enqueue_refuses_ranges_that_overlap_or_are_empty() {
    let mut manager = manager();
    assert_eq!(manager.enqueue_state_update(&update(1, 10, 20)), Ok(()));
    assert_eq!(manager.enqueue_state_update(&update(2, 19, 30)), Err(Error::StorageError));
    assert_eq!(manager.enqueue_state_update(&update(1, 5, 5)), Err(Error::StorageError));
    assert_eq!(manager.enqueue_state_update(&update(2, 0, 10)), Ok(()));
    assert_eq!(queued_ranges(&manager), vec![Range::new(0, 10), Range::new(10, 20)]);
}

#[test]
fn state_updates_seen_twice_on_the_chain_are_enqueued_once() {
    let mut manager = manager();
    assert_eq!(manager.enqueue_observed_state_update(7, &update(1, 0, 10)), Ok(true));
    assert_eq!(manager.enqueue_observed_state_update(7, &update(1, 0, 10)), Ok(false));
    assert_eq!(manager.get_queued_state_updates().len(), 1);
    manager.submit_next_block().unwrap();
    assert_eq!(manager.complete_submission(SubmissionOutcome::Success), Ok(()));
    assert_eq!(manager.enqueue_observed_state_update(7, &update(1, 0, 10)), Ok(false));
    assert_eq!(manager.get_queued_state_updates().len(), 0);
    assert_eq!(manager.enqueue_observed_state_update(8, &update(1, 0, 10)), Ok(true));
    assert_eq!(manager.enqueue_observed_state_update(8, &update(2, 0, 10)), Err(Error::StorageError));
    assert_eq!(manager.enqueue_observed_state_update(8, &update(2, 10, 20)), Ok(true));
}

#[test]
fn the_block_number_only_moves_forward() {
    let mut manager = manager();
    assert!(manager.save_next_block_number(5));
    assert_eq!(manager.get_current_block_number(), 5);
    assert!(!manager.save_next_block_number(4));
    assert!(!manager.save_next_block_number(u64::MAX));
    assert_eq!(manager.submit_next_block().unwrap().block_number, 6);
    assert!(!manager.save_next_block_number(9));
    assert_eq!(manager.get_current_block_number(), 5);
}

#[test]
fn merkelize_is_idempotent() {
    let mut block = PlasmaBlock::new(3, vec![update(1, 0, 10), update(2, 0, 10)], vec![]);
    assert!(block.get_root().is_none());
    assert!(block.prove(0).is_none());
    let root = block.merkelize().unwrap();
    assert_eq!(block.merkelize().unwrap().bytes, root.bytes);
    assert_eq!(block.get_root().unwrap().bytes, root.bytes);
    let mut same = PlasmaBlock::new(4, vec![update(2, 0, 10), update(1, 0, 10)], vec![]);
    assert_eq!(same.merkelize().unwrap().bytes, root.bytes);
}

#[test]
fn merkelize_refuses_state_updates_that_make_no_leaf() {
    let mut empty_range = PlasmaBlock::new(1, vec![update(1, 10, 10)], vec![]);
    assert_eq!(empty_range.merkelize().err(), Some(Error::MalformedLeaf));
    assert!(empty_range.get_root().is_none());
    let mut same_end = PlasmaBlock::new(1, vec![update(1, 0, 10), update(1, 5, 10)], vec![]);
    assert_eq!(same_end.merkelize().err(), Some(Error::MalformedLeaf));
}

#[test]
fn errors_that_may_be_retried() {
    assert!(Error::ChainSubmissionError(ChainFailure::Transport).is_retryable());
    assert!(Error::StorageError.is_retryable());
    assert!(!Error::ChainSubmissionError(ChainFailure::Rejected).is_retryable());
    assert!(!Error::EncodingError.is_retryable());
}
