use bitcoin_gcs::builder::{build_basic_filter, Block, OutPoint, Transaction, TxIn, TxOut};
use bitcoin_gcs::{Builder, Filter, FilterError};

const KEY: (u64, u64) = (0x0706050403020100, 0x0F0E0D0C0B0A0908);

fn identifier(first: u8) -> [u8; 32] {
    let mut bytes = [0u8; 32];
    for i in 0..32 {
        bytes[i] = first.wrapping_add(i as u8);
    }
    bytes
}

#[test]
fn new_builder_has_zero_key() {
    let builder = Builder::new();
    assert_eq!(builder.key(), (0, 0));
}

#[test]
fn new_builder_builds_the_empty_filter() {
    let filter = Builder::new().build().unwrap();
    assert_eq!(filter.n(), 0);
    assert_eq!(filter.p(), 0);
    assert_eq!(filter.as_bytes().len(), 0);
}

#[test]
fn set_key_is_read_back() {
    let mut builder = Builder::new();
    builder.set_key(KEY);
    assert_eq!(builder.key(), KEY);
    builder.set_key((1, 2)).set_key((3, 4));
    assert_eq!(builder.key(), (3, 4));
}

#[test]
fn set_p_refuses_more_than_thirty_two() {
    let mut builder = Builder::new();
    assert_eq!(builder.set_p(33).err(), Some(FilterError::InvalidParameter));
    assert_eq!(builder.set_p(255).err(), Some(FilterError::InvalidParameter));
    assert!(builder.set_p(32).is_ok());
    assert_eq!(builder.set_p(40).err(), Some(FilterError::InvalidParameter));
    builder.add_entry(&[1]);
    let filter = builder.build().unwrap();
    assert_eq!(filter.p(), 32);
}

#[test]
fn builder_builds_what_filter_build_does() {
    let mut builder = Builder::new();
    builder.set_p(20).unwrap().set_key(KEY).reserve(3);
    builder.add_entry(&[0x00]).add_entry(&[0x01]).add_entry(&[0x02]);
    let filter = builder.build().unwrap();
    let direct = Filter::build(20, KEY, &vec![vec![0x00u8], vec![0x01u8], vec![0x02u8]]).unwrap();
    assert_eq!(filter.n(), 3);
    assert_eq!(filter.p(), 20);
    assert_eq!(filter.as_bytes(), direct.as_bytes());
    assert_eq!(
        filter.as_bytes(),
        &[0x92, 0xbe, 0x78, 0x27, 0xdd, 0x93, 0xb7, 0xc5, 0x80]
    );
}

#[test]
fn reserve_changes_nothing() {
    let mut with = Builder::new();
    with.set_p(20).unwrap().set_key(KEY);
    with.add_entry(b"abc").reserve(1000).add_entry(b"def");
    let mut without = Builder::new();
    without.set_p(20).unwrap().set_key(KEY);
    without.add_entry(b"abc").add_entry(b"def");
    assert_eq!(with.key(), without.key());
    let a = with.build().unwrap();
    let b = without.build().unwrap();
    assert_eq!(a.n(), 2);
    assert_eq!(a.as_bytes(), b.as_bytes());
}

#[test]
fn builder_keeps_repeated_items() {
    let mut builder = Builder::new();
    builder.set_p(20).unwrap().set_key(KEY);
    builder.add_entry(&[7]).add_entry(&[7]);
    let filter = builder.build().unwrap();
    assert_eq!(filter.n(), 2);
    assert!(filter.is_member(KEY, &[7]));
}

#[test]
fn derive_key_reads_two_little_endian_halves() {
    let mut builder = Builder::new();
    builder.derive_key(&identifier(0));
    assert_eq!(builder.key(), (0x0706050403020100, 0x0F0E0D0C0B0A0908));
    let mut hash = [0u8; 32];
    hash[0] = 1;
    hash[15] = 0x80;
    hash[16] = 0xFF;
    builder.derive_key(&hash);
    assert_eq!(builder.key(), (1, 0x8000_0000_0000_0000));
}

#[test]
fn add_hash_adds_the_thirty_two_bytes() {
    let hash = identifier(0x40);
    let mut by_hash = Builder::new();
    by_hash.set_p(20).unwrap().set_key(KEY).add_hash(&hash);
    let mut by_entry = Builder::new();
    by_entry.set_p(20).unwrap().set_key(KEY).add_entry(&hash);
    let a = by_hash.build().unwrap();
    let b = by_entry.build().unwrap();
    assert_eq!(a.n(), 1);
    assert_eq!(a.as_bytes(), b.as_bytes());
    assert!(a.is_member(KEY, &hash));
}

#[test]
fn add_outpoint_adds_identifier_and_little_endian_index() {
    let txid = identifier(0x10);
    let mut entry = txid.to_vec();
    entry.extend_from_slice(&[0x04, 0x03, 0x02, 0x01]);
    assert_eq!(entry.len(), 36);
    let mut by_outpoint = Builder::new();
    by_outpoint.set_p(20).unwrap().set_key(KEY);
    by_outpoint.add_outpoint(&OutPoint { txid, index: 0x0102_0304 });
    let mut by_entry = Builder::new();
    by_entry.set_p(20).unwrap().set_key(KEY).add_entry(&entry);
    let a = by_outpoint.build().unwrap();
    let b = by_entry.build().unwrap();
    assert_eq!(a.as_bytes(), b.as_bytes());
    assert!(a.is_member(KEY, &entry));
    let mut big_endian = txid.to_vec();
    big_endian.extend_from_slice(&[0x01, 0x02, 0x03, 0x04]);
    assert!(!a.is_member(KEY, &big_endian));
}

fn sample_block() -> Block {
    let coinbase = Transaction {
        txid: identifier(0x11),
        input: vec![TxIn { prev_txid: [0u8; 32], prev_index: u32::MAX }],
        output: vec![TxOut { script_pubkey: vec![0x51] }],
    };
    let spend = Transaction {
        txid: identifier(0x22),
        input: vec![
            TxIn { prev_txid: identifier(0x33), prev_index: 0 },
            TxIn { prev_txid: identifier(0x44), prev_index: 258 },
        ],
        output: vec![
            TxOut { script_pubkey: vec![0x76, 0xA9, 0x14] },
            TxOut { script_pubkey: Vec::new() },
        ],
    };
    Block { hash: identifier(0x00), txdata: vec![coinbase, spend] }
}

fn sample_entries() -> Vec<Vec<u8>> {
    let mut first = identifier(0x33).to_vec();
    first.extend_from_slice(&[0, 0, 0, 0]);
    let mut second = identifier(0x44).to_vec();
    second.extend_from_slice(&[2, 1, 0, 0]);
    vec![
        identifier(0x11).to_vec(),
        vec![0x51],
        identifier(0x22).to_vec(),
        first,
        second,
        vec![0x76, 0xA9, 0x14],
        Vec::new(),
    ]
}

#[test]
fn basic_filter_holds_ids_spent_outpoints_and_scripts() {
    let filter = build_basic_filter(&sample_block()).unwrap();
    let expected = Filter::build(20, KEY, &sample_entries()).unwrap();
    assert_eq!(filter.n(), 7);
    assert_eq!(filter.p(), 20);
    assert_eq!(filter.as_bytes(), expected.as_bytes());
    for entry in sample_entries().iter() {
        assert!(filter.is_member(KEY, entry));
    }
}

#[test]
fn basic_filter_skips_the_coinbase_input() {
    let filter = build_basic_filter(&sample_block()).unwrap();
    let mut coinbase_outpoint = vec![0u8; 32];
    coinbase_outpoint.extend_from_slice(&[0xFF, 0xFF, 0xFF, 0xFF]);
    assert!(!filter.is_member(KEY, &coinbase_outpoint));
}

#[test]
fn basic_filter_of_a_block_without_transactions_is_empty() {
    let block = Block { hash: identifier(0x00), txdata: Vec::new() };
    let filter = build_basic_filter(&block).unwrap();
    assert_eq!(filter.n(), 0);
    assert_eq!(filter.p(), 20);
    assert_eq!(filter.as_bytes().len(), 0);
}

#[test]
fn basic_filter_of_a_lone_coinbase() {
    let coinbase = Transaction {
        txid: identifier(0x11),
        input: vec![TxIn { prev_txid: [0u8; 32], prev_index: u32::MAX }],
        output: vec![TxOut { script_pubkey: vec![0x51] }],
    };
    let block = Block { hash: identifier(0x00), txdata: vec![coinbase] };
    let filter = build_basic_filter(&block).unwrap();
    let expected = Filter::build(20, KEY, &vec![identifier(0x11).to_vec(), vec![0x51]]).unwrap();
    assert_eq!(filter.n(), 2);
    assert_eq!(filter.as_bytes(), expected.as_bytes());
}
