use plasma_operator::abi::{decode, encode, value_of, word_of, AbiToken, ParamKind};
use plasma_operator::error::Error;
use plasma_operator::primitives::{Address, Range};
use plasma_operator::state_update::StateUpdate;
use plasma_operator::transaction::{
    range_from_tuple, range_to_tuple, Metadata, Transaction, TransactionParams,
};

fn sample_transaction() -> Transaction {
    Transaction::new(
        Address::zero(),
        Range::new(0, 100),
        b"parameters".to_vec(),
        b"signature".to_vec(),
        Metadata::default(),
    )
}

#[test]
fn test_abi_encode() {
    let transaction = sample_transaction();
    let encoded = transaction.to_abi().unwrap();
    let decoded: Transaction = Transaction::from_abi(&encoded).unwrap();
    assert_eq!(decoded.get_range().get_start(), transaction.get_range().get_start());
}

#[test]
fn transaction_round_trip_keeps_every_field() {
    let from = Address::new([7u8; 20]);
    let to = Address::new([9u8; 20]);
    let transaction = Transaction::new(
        Address::new([0xabu8; 20]),
        Range::new(5, u64::MAX),
        vec![1, 2, 3],
        vec![0xff; 65],
        Metadata::new(from, to),
    );
    let decoded = Transaction::from_abi(&transaction.to_abi().unwrap()).unwrap();
    assert_eq!(decoded.get_plasma_contract_address().bytes, [0xabu8; 20]);
    assert_eq!(decoded.get_range(), Range::new(5, u64::MAX));
    assert_eq!(decoded.get_parameters(), &vec![1u8, 2, 3]);
    assert_eq!(decoded.get_signature(), &vec![0xffu8; 65]);
    assert_eq!(decoded.get_metadata().from.bytes, [7u8; 20]);
    assert_eq!(decoded.get_metadata().to.bytes, [9u8; 20]);
}

#[test]
fn transaction_tuple_has_the_wire_order() {
    let tuple = sample_transaction().to_tuple();
    assert_eq!(tuple.len(), 5);
    assert!(matches!(tuple[0], AbiToken::Address(_)));
    match &tuple[1] {
        AbiToken::Tuple(range) => {
            assert_eq!(range.len(), 2);
            match (&range[0], &range[1]) {
                (AbiToken::Uint(start), AbiToken::Uint(end)) => {
                    assert_eq!(value_of(start), Some(0));
                    assert_eq!(value_of(end), Some(100));
                }
                _ => panic!("the range is two integers"),
            }
        }
        _ => panic!("the second field is the range"),
    }
    match (&tuple[2], &tuple[3]) {
        (AbiToken::Bytes(parameters), AbiToken::Bytes(signature)) => {
            assert_eq!(parameters, &b"parameters".to_vec());
            assert_eq!(signature, &b"signature".to_vec());
        }
        _ => panic!("parameters and signature are byte strings"),
    }
    assert!(matches!(tuple[4], AbiToken::Bytes(_)));
}

#[test]
fn tuple_without_signature_is_refused() {
    let mut tuple = sample_transaction().to_tuple();
    tuple.remove(3);
    assert_eq!(Transaction::from_tuple(&tuple).err(), Some(Error::EncodingError));
    let params = TransactionParams::new(Address::zero(), Range::new(0, 100), vec![1]);
    let short = params.to_abi().unwrap();
    assert_eq!(Transaction::from_abi(&short).err(), Some(Error::EncodingError));
}

#[test]
fn tuple_with_a_field_of_the_wrong_type_is_refused() {
    let mut tuple = sample_transaction().to_tuple();
    tuple[2] = AbiToken::Uint(word_of(1));
    assert_eq!(Transaction::from_tuple(&tuple).err(), Some(Error::EncodingError));
    let mut tuple = sample_transaction().to_tuple();
    tuple[4] = AbiToken::Bytes(vec![1, 2, 3]);
    assert_eq!(Transaction::from_tuple(&tuple).err(), Some(Error::EncodingError));
    let mut tuple = sample_transaction().to_tuple();
    tuple[1] = AbiToken::Tuple(vec![AbiToken::Uint(word_of(1))]);
    assert_eq!(Transaction::from_tuple(&tuple).err(), Some(Error::EncodingError));
}

#[test]
fn params_round_trip() {
    let params = TransactionParams::new(Address::new([3u8; 20]), Range::new(10, 20), vec![9; 40]);
    let decoded = TransactionParams::from_abi(&params.to_abi().unwrap()).unwrap();
    assert_eq!(decoded.get_plasma_contract_address().bytes, [3u8; 20]);
    assert_eq!(decoded.get_range(), Range::new(10, 20));
    assert_eq!(decoded.get_parameters(), &vec![9u8; 40]);
    let back = TransactionParams::from_tuple(&params.to_tuple()).unwrap();
    assert_eq!(back.get_range(), Range::new(10, 20));
}

#[test]
fn body_of_a_transaction_is_its_params() {
    let transaction = sample_transaction();
    let params =
        TransactionParams::new(Address::zero(), Range::new(0, 100), b"parameters".to_vec());
    assert_eq!(transaction.to_body_abi().unwrap(), params.to_abi().unwrap());
    let signed = Transaction::from_params(params, b"signature".to_vec(), Metadata::default());
    assert_eq!(signed.to_abi().unwrap(), transaction.to_abi().unwrap());
}

#[test]
fn state_update_round_trip() {
    for included in [true, false] {
        let update =
            StateUpdate::new(Address::new([5u8; 20]), Range::new(1, 2), vec![4, 4], included);
        let decoded = StateUpdate::from_abi(&update.to_abi().unwrap()).unwrap();
        assert_eq!(decoded.get_deposit_contract_address().bytes, [5u8; 20]);
        assert_eq!(decoded.get_range(), Range::new(1, 2));
        assert_eq!(decoded.get_state_object(), &vec![4u8, 4]);
        assert_eq!(decoded.get_is_included(), included);
    }
}

#[test]
fn state_update_flag_must_be_zero_or_one() {
    let update = StateUpdate::new(Address::zero(), Range::new(1, 2), vec![], true);
    let mut tuple = update.to_tuple();
    tuple[3] = AbiToken::Uint(word_of(2));
    assert_eq!(StateUpdate::from_tuple(&tuple).err(), Some(Error::EncodingError));
}

#[test]
fn range_tuple_round_trip_and_refusals() {
    let range = Range::new(0, u64::MAX);
    assert_eq!(range_from_tuple(&range_to_tuple(&range)), Ok(range));
    let mut big = [0u8; 32];
    big[23] = 1;
    let too_big = vec![AbiToken::Uint(big), AbiToken::Uint(word_of(1))];
    assert_eq!(range_from_tuple(&too_big), Err(Error::EncodingError));
    assert_eq!(range_from_tuple(&Vec::new()), Err(Error::EncodingError));
}

#[test]
fn word_of_an_integer() {
    let word = word_of(0x0102030405060708);
    assert_eq!(&word[..24], &[0u8; 24]);
    assert_eq!(&word[24..], &[1, 2, 3, 4, 5, 6, 7, 8]);
    assert_eq!(value_of(&word), Some(0x0102030405060708));
    assert_eq!(value_of(&word_of(u64::MAX)), Some(u64::MAX));
}

#[test]
fn encoding_of_an_address_is_padded_on_the_left() {
    let encoded = encode(&vec![AbiToken::Address(Address::new([0x11u8; 20]))]).unwrap();
    let mut expected = vec![0u8; 12];
    expected.extend_from_slice(&[0x11u8; 20]);
    assert_eq!(encoded, expected);
}

#[test]
fn encoding_of_bytes_has_offset_length_and_padding() {
    let encoded = encode(&vec![AbiToken::Bytes(vec![0x12, 0x34])]).unwrap();
    assert_eq!(encoded.len(), 96);
    assert_eq!(encoded[31], 0x20);
    assert_eq!(encoded[63], 2);
    assert_eq!(&encoded[64..66], &[0x12, 0x34]);
    assert!(encoded[66..].iter().all(|b| *b == 0));
}

#[test]
fn decoding_reads_the_given_types() {
    let tokens = vec![
        AbiToken::Uint(word_of(7)),
        AbiToken::Tuple(vec![AbiToken::Address(Address::new([2u8; 20])), AbiToken::Bytes(vec![1])]),
    ];
    let encoded = encode(&tokens).unwrap();
    let kinds = vec![
        ParamKind::Uint(64),
        ParamKind::Tuple(vec![ParamKind::Address, ParamKind::Bytes]),
    ];
    let decoded = decode(&kinds, &encoded).unwrap();
    assert_eq!(decoded.len(), 2);
    match (&decoded[0], &decoded[1]) {
        (AbiToken::Uint(word), AbiToken::Tuple(inner)) => {
            assert_eq!(value_of(word), Some(7));
            match (&inner[0], &inner[1]) {
                (AbiToken::Address(address), AbiToken::Bytes(bytes)) => {
                    assert_eq!(address.bytes, [2u8; 20]);
                    assert_eq!(bytes, &vec![1u8]);
                }
                _ => panic!("the tuple holds an address and bytes"),
            }
        }
        _ => panic!("an integer and a tuple"),
    }
    assert_eq!(decode(&kinds, &encoded[..40]).err(), Some(Error::EncodingError));
    assert_eq!(decode(&vec![ParamKind::Address], &[]).err(), Some(Error::EncodingError));
}

#[test]
fn metadata_round_trip() {
    let metadata = Metadata::new(Address::new([1u8; 20]), Address::new([2u8; 20]));
    let encoded = metadata.to_abi();
    assert_eq!(encoded.len(), 64);
    let decoded = Metadata::from_abi(&encoded).unwrap();
    assert_eq!(decoded.from.bytes, [1u8; 20]);
    assert_eq!(decoded.to.bytes, [2u8; 20]);
    assert_eq!(Metadata::from_abi(&encoded[..63]).err(), Some(Error::EncodingError));
    assert_eq!(Metadata::default().from.bytes, [0u8; 20]);
}

#[test]
fn method_id_is_the_first_byte_of_the_digest() {
    assert_eq!(Transaction::create_method_id(b""), 0xa7);
    assert_eq!(Transaction::create_method_id(b"abc"), 0x3a);
}
