use bitcoin::blockdata::constants::genesis_block;
use bitcoin::Network;

use txgraph::builder::build;
use txgraph::ident::{OutPoint, TxId};
use txgraph::source::{MemoryChain, TransactionRecord};

fn tx_id(txid: &bitcoin::Txid) -> TxId {
    TxId::new(bitcoin::hashes::Hash::to_byte_array(*txid))
}

fn record(tx: &bitcoin::Transaction) -> TransactionRecord {
    let references: Vec<(TxId, u32)> = tx
        .input
        .iter()
        .map(|input| (tx_id(&input.previous_output.txid), input.previous_output.vout))
        .collect();
    TransactionRecord::from_references(tx_id(&tx.compute_txid()), &references, tx.output.len())
}

fn spending(previous: Vec<bitcoin::OutPoint>) -> bitcoin::Transaction {
    let mut tx = genesis_block(Network::Bitcoin).txdata[0].clone();
    let template = tx.input[0].clone();
    tx.input = previous
        .into_iter()
        .map(|previous_output| {
            let mut input = template.clone();
            input.previous_output = previous_output;
            input
        })
        .collect();
    tx
}

#[test]
fn null_reference_is_the_null_out_point() {
    let null = bitcoin::OutPoint::null();
    assert!(null.is_null());
    assert_eq!(OutPoint::spent(tx_id(&null.txid), null.vout), None);
    let low = bitcoin::OutPoint { txid: null.txid, vout: 0 };
    assert!(!low.is_null());
    assert_eq!(
        OutPoint::spent(tx_id(&low.txid), low.vout),
        Some(OutPoint { txid: TxId::new([0u8; 32]), index: 0 })
    );
    let coinbase_id = genesis_block(Network::Bitcoin).txdata[0].compute_txid();
    let high = bitcoin::OutPoint { txid: coinbase_id, vout: u32::MAX };
    assert!(!high.is_null());
    assert_eq!(
        OutPoint::spent(tx_id(&high.txid), high.vout),
        Some(OutPoint { txid: tx_id(&coinbase_id), index: u32::MAX })
    );
}

#[test]
fn genesis_coinbase_is_a_lone_node() {
    let block = genesis_block(Network::Bitcoin);
    assert_eq!(block.txdata.len(), 1);
    assert!(block.txdata[0].is_coinbase());
    let txs: Vec<TransactionRecord> = block.txdata.iter().map(record).collect();
    assert_eq!(txs[0].inputs, vec![None]);
    assert_eq!(txs[0].output_count, 1);
    let bytes = txs[0].id.to_bytes();
    assert_eq!(bytes[0], 0x3b);
    assert_eq!(bytes[1], 0xa3);
    assert_eq!(bytes[31], 0x4a);
    let mut chain = MemoryChain::new(0);
    chain.record_block(0, txs);
    let g = build(&chain, 0, 0).unwrap();
    assert_eq!(g.node_count(), 1);
    assert_eq!(g.edge_count(), 0);
    assert!(g.has_node(&tx_id(&block.txdata[0].compute_txid())));
}

#[test]
fn spend_of_the_genesis_coinbase_is_an_edge() {
    let block = genesis_block(Network::Bitcoin);
    let coinbase = block.txdata[0].clone();
    let coinbase_id = coinbase.compute_txid();
    let spender = spending(vec![
        bitcoin::OutPoint { txid: coinbase_id, vout: 0 },
        bitcoin::OutPoint { txid: coinbase_id, vout: 0 },
    ]);
    let spender_id = spender.compute_txid();
    assert_ne!(coinbase_id, spender_id);
    let mut chain = MemoryChain::new(1);
    chain.record_block(0, vec![record(&coinbase)]);
    chain.record_block(1, vec![record(&spender)]);
    let g = build(&chain, 0, 1).unwrap();
    assert_eq!(g.node_count(), 2);
    assert_eq!(g.edge_count(), 1);
    assert!(g.has_edge(&tx_id(&coinbase_id), &tx_id(&spender_id)));
    assert_eq!(g.predecessors(&tx_id(&spender_id)), vec![tx_id(&coinbase_id)]);
    assert_eq!(g.predecessors(&tx_id(&coinbase_id)), Vec::<TxId>::new());
}
