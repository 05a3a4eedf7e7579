use bitcoin_gcs::builder::{build_basic_filter, Block, Transaction, TxIn, TxOut};
use bitcoin_gcs::Filter;

fn library_block(block: &bitcoin::Block) -> Block {
    let mut txdata = Vec::new();
    for tx in block.txdata.iter() {
        let mut input = Vec::new();
        for txin in tx.input.iter() {
            input.push(TxIn {
                prev_txid: *txin.previous_output.txid.as_ref(),
                prev_index: txin.previous_output.vout,
            });
        }
        let mut output = Vec::new();
        for txout in tx.output.iter() {
            output.push(TxOut { script_pubkey: txout.script_pubkey.to_bytes() });
        }
        txdata.push(Transaction { txid: *tx.compute_txid().as_ref(), input, output });
    }
    Block { hash: *block.block_hash().as_ref(), txdata }
}

#[test]
fn basic_filter_of_the_testnet_genesis_block() {
    let genesis = bitcoin::blockdata::constants::genesis_block(bitcoin::Network::Testnet);
    let block = library_block(&genesis);
    assert_eq!(
        block.hash,
        [
            0x43, 0x49, 0x7f, 0xd7, 0xf8, 0x26, 0x95, 0x71, 0x08, 0xf4, 0xa3, 0x0f, 0xd9, 0xce,
            0xc3, 0xae, 0xba, 0x79, 0x97, 0x20, 0x84, 0xe9, 0x0e, 0xad, 0x01, 0xea, 0x33, 0x09,
            0x00, 0x00, 0x00, 0x00
        ]
    );
    let key = (0x7195_26f8_d77f_4943u64, 0xaec3_ced9_0fa3_f408u64);
    let filter = build_basic_filter(&block).unwrap();
    assert_eq!(filter.n(), 2);
    assert_eq!(filter.p(), 20);
    let txid = block.txdata[0].txid.to_vec();
    let script = block.txdata[0].output[0].script_pubkey.clone();
    assert_eq!(script.len(), 67);
    assert!(filter.is_member(key, &txid));
    assert!(filter.is_member(key, &script));
    let mut coinbase_input = vec![0u8; 32];
    coinbase_input.extend_from_slice(&[0xFF; 4]);
    assert!(!filter.is_member(key, &coinbase_input));
    let direct = Filter::build(20, key, &vec![txid, script]).unwrap();
    assert_eq!(filter.as_bytes(), direct.as_bytes());
    assert_eq!(filter.as_bytes(), &[0x85, 0xC7, 0xCD, 0xBE, 0x33, 0xA0]);
}
