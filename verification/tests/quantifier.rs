use plasma_operator::block::PlasmaBlock;
use plasma_operator::block_db::BlockDb;
use plasma_operator::block_manager::{BlockManager, SubmissionOutcome};
use plasma_operator::error::Error;
use plasma_operator::primitives::{Address, Digest, Range};
use plasma_operator::quantifier::BlockRangeQuantifier;
use plasma_operator::range_store::RangeEntry;
use plasma_operator::state_update::{PlasmaDataBlock, RangeAtBlockRecord, StateUpdate};

fn update(start: u64, end: u64, included: bool) -> StateUpdate {
    StateUpdate::new(Address::new([1u8; 20]), Range::new(start, end), vec![1, 2, 3], included)
}

fn committed(number: u64, updates: Vec<StateUpdate>) -> BlockDb {
    let mut db = BlockDb::new();
    let mut block = PlasmaBlock::new(number, updates, vec![]);
    block.merkelize().unwrap();
    assert_eq!(db.save_block(block), Ok(()));
    db
}

fn found_ranges(db: &BlockDb, number: u64, range: Range) -> (Vec<Range>, bool) {
    let result = BlockRangeQuantifier::get_all_quantified(db, number, range).unwrap();
    (
        result.get_results().iter().map(|u| u.get_range()).collect(),
        result.get_all_results_quantified(),
    )
}

#[test]
fn a_range_that_is_covered_is_fully_included() {
    let db = committed(3, vec![update(0, 50, true), update(50, 100, true)]);
    assert_eq!(
        found_ranges(&db, 3, Range::new(10, 90)),
        (vec![Range::new(0, 50), Range::new(50, 100)], true)
    );
    assert_eq!(found_ranges(&db, 3, Range::new(0, 100)).1, true);
    assert_eq!(found_ranges(&db, 3, Range::new(10, 20)), (vec![Range::new(0, 50)], true));
    assert_eq!(found_ranges(&db, 3, Range::new(0, 101)).1, false);
}

#[test]
fn a_range_with_a_gap_is_not_fully_included() {
    let db = committed(3, vec![update(0, 40, true), update(60, 100, true)]);
    assert_eq!(
        found_ranges(&db, 3, Range::new(0, 100)),
        (vec![Range::new(0, 40), Range::new(60, 100)], false)
    );
    assert_eq!(found_ranges(&db, 3, Range::new(40, 60)), (vec![], false));
    assert_eq!(found_ranges(&db, 3, Range::new(60, 70)), (vec![Range::new(60, 100)], true));
}

#[test]
fn a_range_that_is_marked_as_left_out_is_not_returned() {
    let db = committed(3, vec![update(0, 40, true), update(40, 60, false), update(60, 100, true)]);
    assert_eq!(
        found_ranges(&db, 3, Range::new(0, 100)),
        (vec![Range::new(0, 40), Range::new(60, 100)], false)
    );
    assert_eq!(found_ranges(&db, 3, Range::new(0, 40)), (vec![Range::new(0, 40)], true));
}

#[test]
fn a_block_that_was_not_saved_is_inconclusive() {
    let db = committed(3, vec![update(0, 50, true)]);
    assert_eq!(
        BlockRangeQuantifier::get_all_quantified(&db, 4, Range::new(0, 10)).err(),
        Some(Error::QuantifierInconclusive)
    );
    assert_eq!(
        BlockRangeQuantifier::get_all_quantified(&BlockDb::new(), 3, Range::new(0, 10)).err(),
        Some(Error::QuantifierInconclusive)
    );
    assert_eq!(db.get_block(4).err(), Some(Error::NotFound));
}

fn records_of(block: &PlasmaBlock, number: u64) -> Vec<RangeEntry<RangeAtBlockRecord>> {
    let root = block.get_root().unwrap();
    block
        .get_state_updates()
        .iter()
        .enumerate()
        .map(|(i, u)| RangeEntry {
            start: u.get_range().get_start(),
            end: u.get_range().get_end(),
            value: RangeAtBlockRecord::new(
                PlasmaDataBlock::new(u.duplicate(), root, number),
                block.prove(i).unwrap(),
            ),
        })
        .collect()
}

#[test]
fn a_tampered_exclusion_proof_is_caught() {
    let mut block = PlasmaBlock::new(3, vec![update(0, 100, true), update(100, 200, false)], vec![]);
    let root = block.merkelize().unwrap();
    let honest = records_of(&block, 3);
    let result = BlockRangeQuantifier::quantify(&honest, &root, Range::new(0, 100));
    assert!(result.get_all_results_quantified());
    assert_eq!(result.get_results().len(), 1);
    assert!(BlockRangeQuantifier::verify_exclusion(
        &honest[1].value.plasma_data_block,
        &honest[1].value.inclusion_proof
    ));
    assert!(!BlockRangeQuantifier::verify_exclusion(
        &honest[0].value.plasma_data_block,
        &honest[0].value.inclusion_proof
    ));

    let mut tampered = records_of(&block, 3);
    tampered[1].value.inclusion_proof.inner_siblings[0].digest.bytes[5] ^= 0x80;
    let result = BlockRangeQuantifier::quantify(&tampered, &root, Range::new(0, 100));
    assert!(!result.get_all_results_quantified());
    assert_eq!(result.get_results().len(), 1);
    assert_eq!(result.get_results()[0].get_range(), Range::new(0, 100));

    let mut foreign = records_of(&block, 3);
    let other_root = Digest::new([9u8; 32]);
    foreign[1].value.plasma_data_block =
        PlasmaDataBlock::new(update(100, 200, false), other_root, 3);
    let result = BlockRangeQuantifier::quantify(&foreign, &root, Range::new(0, 100));
    assert!(!result.get_all_results_quantified());
}

#[test]
fn the_records_of_a_finalized_block_answer_the_quantifier() {
    let mut manager = BlockManager::new(Address::new([0xaau8; 20]), Address::new([0xccu8; 20]));
    assert_eq!(manager.enqueue_state_update(&update(0, 50, true)), Ok(()));
    assert_eq!(manager.enqueue_state_update(&update(50, 100, true)), Ok(()));
    manager.submit_next_block().unwrap();
    assert_eq!(manager.complete_submission(SubmissionOutcome::Success), Ok(()));
    assert_eq!(
        found_ranges(manager.get_db(), 1, Range::new(10, 90)),
        (vec![Range::new(0, 50), Range::new(50, 100)], true)
    );
    let records = manager.get_db().get_records(1, 0, 100);
    assert_eq!(records.len(), 2);
    assert_eq!(records[0].value.plasma_data_block.get_block_number(), 1);
    assert_eq!(records[0].value.plasma_data_block.get_updated_range(), Range::new(0, 50));
    assert!(records[0].value.plasma_data_block.get_is_included());
}

#[test]
fn a_block_is_saved_once_and_only_with_ranges_apart() {
    let mut db = committed(3, vec![update(0, 50, true)]);
    let mut again = PlasmaBlock::new(3, vec![update(60, 70, true)], vec![]);
    again.merkelize().unwrap();
    assert_eq!(db.save_block(again), Err(Error::StorageError));
    let raw = PlasmaBlock::new(4, vec![update(60, 70, true)], vec![]);
    assert_eq!(db.save_block(raw), Err(Error::StorageError));
    let other = StateUpdate::new(Address::new([2u8; 20]), Range::new(5, 20), vec![], true);
    let mut overlapping = PlasmaBlock::new(5, vec![update(0, 10, true), other], vec![]);
    overlapping.merkelize().unwrap();
    assert_eq!(db.save_block(overlapping), Err(Error::StorageError));
    assert_eq!(db.get_records(5, 0, 100).len(), 0);
    assert_eq!(db.get_block(3).unwrap().get_block_number(), 3);
}

#[test]
fn a_range_without_a_coordinate_finds_nothing() {
    let db = committed(3, vec![update(0, 50, true), update(50, 100, true)]);
    assert_eq!(found_ranges(&db, 3, Range::new(20, 20)), (vec![], true));
    assert_eq!(found_ranges(&db, 3, Range::new(30, 20)), (vec![], false));
}

#[test]
fn a_block_proves_only_the_state_updates_it_has() {
    let mut block = PlasmaBlock::new(3, vec![update(0, 50, true)], vec![]);
    block.merkelize().unwrap();
    assert!(block.prove(0).is_some());
    assert!(block.prove(1).is_none());
    assert_eq!(BlockRangeQuantifier::default(), BlockRangeQuantifier {});
}
