use plasma_operator::abi::{encode, value_of, word_of, AbiToken, ParamKind};
use plasma_operator::error::Error;
use plasma_operator::event_watcher::{
    collect_entities, decode_params, filter_logs, from_block, last_logged_after, pair_params,
    Event, EventParam, Log,
};
use plasma_operator::primitives::{Address, Digest};

fn log(block_number: Option<u64>, data: Vec<u8>) -> Log {
    Log { block_number, data }
}

fn event() -> Event {
    Event {
        signature: Digest::new([4u8; 32]),
        inputs: vec![
            EventParam { name: "owner".to_string(), kind: ParamKind::Address, indexed: false },
            EventParam { name: "amount".to_string(), kind: ParamKind::Uint(256), indexed: false },
        ],
    }
}

fn data(owner: u8, amount: u64) -> Vec<u8> {
    encode(&vec![AbiToken::Address(Address::new([owner; 20])), AbiToken::Uint(word_of(amount))])
        .unwrap()
}

#[test]
fn logs_are_kept_when_they_are_newer_than_the_last_block_seen() {
    let logs = vec![log(Some(3), vec![1]), log(None, vec![2]), log(Some(5), vec![3]), log(Some(4), vec![4])];
    let kept = filter_logs(Some(3), &logs);
    assert_eq!(kept.iter().map(|l| l.block_number).collect::<Vec<_>>(), vec![Some(5), Some(4)]);
    assert_eq!(kept[0].data, vec![3]);
    assert_eq!(filter_logs(None, &logs).len(), 4);
    assert_eq!(filter_logs(Some(5), &logs).len(), 0);
    assert_eq!(from_block(None), 0);
    assert_eq!(from_block(Some(9)), 9);
}

#[test]
fn the_last_block_seen_is_that_of_the_last_log() {
    assert_eq!(last_logged_after(Some(2), &vec![]), Some(2));
    assert_eq!(last_logged_after(None, &vec![]), None);
    assert_eq!(last_logged_after(Some(2), &vec![log(Some(7), vec![]), log(Some(5), vec![])]), Some(5));
    assert_eq!(last_logged_after(Some(2), &vec![log(Some(7), vec![]), log(None, vec![])]), Some(2));
}

#[test]
fn the_data_of_a_log_decodes_into_the_parameters_of_the_event() {
    let params = decode_params(&event(), &log(Some(1), data(6, 1000))).unwrap();
    assert_eq!(params.len(), 2);
    assert_eq!(params[0].event_param.name, "owner");
    assert_eq!(params[1].event_param.name, "amount");
    match (&params[0].token, &params[1].token) {
        (AbiToken::Address(owner), AbiToken::Uint(amount)) => {
            assert_eq!(owner.bytes, [6u8; 20]);
            assert_eq!(value_of(amount), Some(1000));
        }
        _ => panic!("an address and an integer"),
    }
    assert_eq!(decode_params(&event(), &log(Some(1), vec![0; 10])).err(), Some(Error::EncodingError));
}

#[test]
fn parameters_and_tokens_pair_up_only_when_they_are_as_many() {
    let inputs = event().inputs;
    let short = vec![AbiToken::Uint(word_of(1))];
    assert_eq!(pair_params(&inputs, short).err(), Some(Error::EncodingError));
    let paired = pair_params(
        &inputs,
        vec![AbiToken::Address(Address::zero()), AbiToken::Uint(word_of(1))],
    )
    .unwrap();
    assert_eq!(paired.len(), 2);
    assert!(matches!(paired[0].token, AbiToken::Address(_)));
    assert!(matches!(paired[1].token, AbiToken::Uint(_)));
}

#[test]
fn a_poll_makes_an_entity_of_every_newer_log() {
    let logs = vec![log(Some(3), data(1, 1)), log(Some(4), data(2, 2)), log(Some(6), data(3, 3))];
    let (entities, last) = collect_entities(&event(), Some(3), &logs).unwrap();
    assert_eq!(entities.len(), 2);
    assert_eq!(last, Some(6));
    assert_eq!(entities[0].log.block_number, Some(4));
    assert_eq!(entities[1].log.block_number, Some(6));
    assert_eq!(entities[0].event_signature.bytes, [4u8; 32]);
    assert_eq!(entities[1].params.len(), 2);
    let (none, last) = collect_entities(&event(), Some(6), &logs).unwrap();
    assert_eq!(none.len(), 0);
    assert_eq!(last, Some(6));
    let bad = vec![log(Some(9), vec![1, 2, 3])];
    assert_eq!(collect_entities(&event(), Some(3), &bad).err(), Some(Error::EncodingError));
}
