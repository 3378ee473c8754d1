use txgraph::ident::{NodeId, OutPoint, TxId};
use txgraph::index::KeyIndex;
use txgraph::source::TransactionRecord;

#[test]
fn empty_index_finds_nothing() {
    let index = KeyIndex::new();
    assert_eq!(index.last(0), None);
    assert_eq!(index.last(17), None);
}

#[test]
fn index_links_positions_of_one_key() {
    let mut index = KeyIndex::new();
    for key in [5u64, 9, 5, 5, 9, 1] {
        index.push(key);
    }
    assert_eq!(index.last(5), Some(3));
    assert_eq!(index.last(9), Some(4));
    assert_eq!(index.last(1), Some(5));
    assert_eq!(index.last(2), None);
    assert_eq!(index.before(3), Some(2));
    assert_eq!(index.before(2), Some(0));
    assert_eq!(index.before(0), None);
    assert_eq!(index.before(4), Some(1));
    assert_eq!(index.before(1), None);
    assert_eq!(index.before(5), None);
}

#[test]
fn key_of_a_transaction_identifier_is_its_first_eight_bytes() {
    let mut bytes = [0u8; 32];
    for (i, b) in bytes.iter_mut().enumerate() {
        *b = (i + 1) as u8;
    }
    assert_eq!(TxId::new(bytes).hash_key(), 0x0807_0605_0403_0201);
    assert_eq!(TxId::new([0u8; 32]).hash_key(), 0);
    assert_eq!(TxId::new([0xff; 32]).hash_key(), u64::MAX);
    let mut late = [0u8; 32];
    late[8] = 1;
    assert_eq!(TxId::new(late).hash_key(), 0);
    let mut first = [0u8; 32];
    first[0] = 1;
    assert_eq!(TxId::new(first).hash_key(), 1);
    let mut second = [0u8; 32];
    second[1] = 1;
    assert_eq!(TxId::new(second).hash_key(), 256);
}

#[test]
fn key_of_an_integer_is_itself() {
    assert_eq!(0u64.hash_key(), 0);
    assert_eq!(123_456u64.hash_key(), 123_456);
    assert_eq!(u64::MAX.hash_key(), u64::MAX);
}

#[test]
fn all_zero_identifier_is_recognised() {
    assert!(TxId::new([0u8; 32]).is_all_zero());
    let mut bytes = [0u8; 32];
    bytes[31] = 1;
    assert!(!TxId::new(bytes).is_all_zero());
    let mut bytes = [0u8; 32];
    bytes[0] = 1;
    assert!(!TxId::new(bytes).is_all_zero());
}

#[test]
fn null_reference_spends_nothing() {
    let zero = TxId::new([0u8; 32]);
    let one = TxId::new([1u8; 32]);
    assert_eq!(OutPoint::spent(zero, u32::MAX), None);
    assert_eq!(OutPoint::spent(zero, 0), Some(OutPoint { txid: zero, index: 0 }));
    assert_eq!(OutPoint::spent(zero, u32::MAX - 1), Some(OutPoint { txid: zero, index: u32::MAX - 1 }));
    assert_eq!(OutPoint::spent(one, u32::MAX), Some(OutPoint { txid: one, index: u32::MAX }));
    assert_eq!(OutPoint::spent(one, 3), Some(OutPoint { txid: one, index: 3 }));
}

#[test]
fn record_from_references_marks_inputs_without_funder() {
    let zero = TxId::new([0u8; 32]);
    let one = TxId::new([1u8; 32]);
    let two = TxId::new([2u8; 32]);
    let coinbase = TransactionRecord::from_references(one, &vec![(zero, u32::MAX)], 2);
    assert_eq!(coinbase.id, one);
    assert_eq!(coinbase.inputs, vec![None]);
    assert_eq!(coinbase.output_count, 2);
    let spend = TransactionRecord::from_references(two, &vec![(one, 0), (zero, u32::MAX), (one, 1)], 0);
    assert_eq!(spend.id, two);
    assert_eq!(
        spend.inputs,
        vec![Some(OutPoint { txid: one, index: 0 }), None, Some(OutPoint { txid: one, index: 1 })]
    );
    assert_eq!(spend.output_count, 0);
    let bare = TransactionRecord::from_references(two, &vec![], 1);
    assert_eq!(bare.inputs, Vec::<Option<OutPoint>>::new());
}
