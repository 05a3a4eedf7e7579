//! Collecting the items of a filter, and the filter of a block.

use crate::error::FilterError;
use crate::DEFAULT_P;
use crate::filter::{built, Filter};
use crate::hash::items_of;
use crate::little_endian::{le_bytes, le_value, read_u64_le, u32_le_bytes};
use vstd::prelude::*;
use vstd::slice::{slice_subrange, slice_to_vec};

verus! {

/// A transaction output named by the transaction's identifier and the
/// output's index.
#[derive(Debug, Clone, Copy)]
pub struct OutPoint {
    pub txid: [u8; 32],
    pub index: u32,
}

/// The key that a 32-byte identifier gives: its first and second eight bytes,
/// each as a little-endian number.
pub open spec fn derived_key(hash: Seq<u8>) -> (u64, u64) {
    (le_value(hash.subrange(0, 8)) as u64, le_value(hash.subrange(8, 16)) as u64)
}

/// The item that stands for an outpoint: the identifier, then the index in
/// four bytes, least significant first.
pub open spec fn outpoint_entry(outpoint: OutPoint) -> Seq<u8> {
    outpoint.txid@ + le_bytes(outpoint.index as nat, 4)
}

/// Collects the items, the key and the exponent of a filter to be built.
#[derive(Debug)]
pub struct Builder {
    p: u8,
    key: (u64, u64),
    data: Vec<Vec<u8>>,
}

/// What a builder holds: the exponent, the key, and the items in the order added.
pub struct BuilderView {
    pub p: u8,
    pub key: (u64, u64),
    pub items: Seq<Seq<u8>>,
}

impl View for Builder {
    type V = BuilderView;

    closed spec fn view(&self) -> BuilderView {
        BuilderView { p: self.p, key: self.key, items: items_of(self.data@) }
    }
}

impl Builder {
    /// A builder with no items, a zero key and exponent 0.
    pub fn new() -> (builder: Builder)
        ensures
            builder@ == (BuilderView { p: 0, key: (0, 0), items: Seq::empty() }),
    {
        let builder = Builder { p: 0, key: (0, 0), data: Vec::new() };
        assert(items_of(builder.data@) == Seq::<Seq<u8>>::empty());
        builder
    }

    /// Sets the key.
    pub fn set_key(&mut self, key: (u64, u64)) -> (builder: &mut Builder)
        ensures
            builder@ == (BuilderView { key, ..old(self)@ }),
            *final(self) == *final(builder),
    {
        self.key = key;
        self
    }

    /// The key.
    pub fn key(&self) -> (key: (u64, u64))
        ensures
            key == self@.key,
    {
        self.key
    }

    /// Sets the false-positive exponent. Fails, and changes nothing, where `p`
    /// is above 32.
    pub fn set_p(&mut self, p: u8) -> (r: Result<&mut Builder, FilterError>)
        ensures
            p > 32 ==> r == Err::<&mut Builder, FilterError>(FilterError::InvalidParameter)
                && *final(self) == *old(self),
            p <= 32 ==> r is Ok && r.unwrap()@ == (BuilderView { p, ..old(self)@ }) && *final(self)
                == *final(r.unwrap()),
    {
        if p > 32 {
            return Err(FilterError::InvalidParameter);
        }
        self.p = p;
        Ok(self)
    }

    /// Makes room for `n` more items. The builder holds what it held.
    pub fn reserve(&mut self, n: usize) -> (builder: &mut Builder)
        ensures
            builder@ == old(self)@,
            *final(self) == *final(builder),
    {
        self.data.reserve(n);
        self
    }

    /// Adds a copy of `data` as the last item.
    pub fn add_entry(&mut self, data: &[u8]) -> (builder: &mut Builder)
        ensures
            builder@ == (BuilderView { items: old(self)@.items.push(data@), ..old(self)@ }),
            *final(self) == *final(builder),
    {
        let ghost before = self.data@;
        self.data.push(slice_to_vec(data));
        assert(items_of(self.data@) == items_of(before).push(data@));
        self
    }

    /// Takes the key from a 32-byte identifier: its first sixteen bytes, as two
    /// little-endian numbers.
    pub fn derive_key(&mut self, hash: &[u8; 32]) -> (builder: &mut Builder)
        ensures
            builder@ == (BuilderView { key: derived_key(hash@), ..old(self)@ }),
            *final(self) == *final(builder),
    {
        let bytes = hash.as_slice();
        let key0 = read_u64_le(slice_subrange(bytes, 0, 8));
        let key1 = read_u64_le(slice_subrange(bytes, 8, 16));
        proof {
            assert(hash@.subrange(0, 8).take(8) == hash@.subrange(0, 8));
            assert(hash@.subrange(8, 16).take(8) == hash@.subrange(8, 16));
        }
        self.key = (key0, key1);
        self
    }

    /// Adds an outpoint as an item of 36 bytes: the transaction identifier,
    /// then the output index in four bytes, least significant first.
    pub fn add_outpoint(&mut self, outpoint: &OutPoint) -> (builder: &mut Builder)
        ensures
            builder@ == (BuilderView {
                items: old(self)@.items.push(outpoint_entry(*outpoint)),
                ..old(self)@
            }),
            *final(self) == *final(builder),
    {
        let index = u32_le_bytes(outpoint.index);
        let mut entry: Vec<u8> = slice_to_vec(outpoint.txid.as_slice());
        entry.extend_from_slice(index.as_slice());
        assert(entry@ == outpoint_entry(*outpoint));
        self.add_entry(entry.as_slice())
    }

    /// Adds a 32-byte identifier as an item, as it is.
    pub fn add_hash(&mut self, hash: &[u8; 32]) -> (builder: &mut Builder)
        ensures
            builder@ == (BuilderView { items: old(self)@.items.push(hash@), ..old(self)@ }),
            *final(self) == *final(builder),
    {
        self.add_entry(hash.as_slice())
    }

    /// Builds the filter of the items added, with the builder's key and
    /// exponent. Fails where there are 2^32 items or more, or the exponent is
    /// above 32.
    pub fn build(self) -> (r: Result<Filter, FilterError>)
        ensures
            self@.p > 32 || self@.items.len() > u32::MAX ==> r == Err::<Filter, FilterError>(
                FilterError::InvalidParameter,
            ),
            self@.p <= 32 && self@.items.len() <= u32::MAX ==> r is Ok && r.unwrap()@ == built(
                self@.p as nat,
                self@.key,
                self@.items,
            ),
    {
        Filter::build(self.p, self.key, &self.data)
    }
}

/// A transaction input: the output that it spends.
#[derive(Debug, Clone, Copy)]
pub struct TxIn {
    pub prev_txid: [u8; 32],
    pub prev_index: u32,
}

/// A transaction output: the script that locks it.
#[derive(Debug)]
pub struct TxOut {
    pub script_pubkey: Vec<u8>,
}

/// A transaction, as far as a filter reads it.
#[derive(Debug)]
pub struct Transaction {
    pub txid: [u8; 32],
    pub input: Vec<TxIn>,
    pub output: Vec<TxOut>,
}

/// A block, as far as a filter reads it. The first transaction is the coinbase.
#[derive(Debug)]
pub struct Block {
    pub hash: [u8; 32],
    pub txdata: Vec<Transaction>,
}

/// The outpoint that an input spends.
pub open spec fn spent(input: TxIn) -> OutPoint {
    OutPoint { txid: input.prev_txid, index: input.prev_index }
}

/// The items that stand for the outpoints spent by `inputs`.
pub open spec fn input_entries(inputs: Seq<TxIn>) -> Seq<Seq<u8>> {
    inputs.map_values(|input: TxIn| outpoint_entry(spent(input)))
}

/// The scripts of `outputs`.
pub open spec fn output_entries(outputs: Seq<TxOut>) -> Seq<Seq<u8>> {
    outputs.map_values(|output: TxOut| output.script_pubkey@)
}

/// The items of one transaction: its identifier, the outpoints that it spends
/// unless it is the coinbase, and the scripts of its outputs.
pub open spec fn transaction_entries(tx: Transaction, coinbase: bool) -> Seq<Seq<u8>> {
    seq![tx.txid@] + (if coinbase {
        Seq::empty()
    } else {
        input_entries(tx.input@)
    }) + output_entries(tx.output@)
}

/// The items of a block's transactions, in the order of the transactions. The
/// first transaction is the coinbase.
pub open spec fn block_entries(txdata: Seq<Transaction>) -> Seq<Seq<u8>>
    decreases txdata.len(),
{
    if txdata.len() == 0 {
        Seq::empty()
    } else {
        block_entries(txdata.drop_last()) + transaction_entries(txdata.last(), txdata.len() == 1)
    }
}

/// The number of items of a block, or `None` where it does not fit a `usize`.
fn count_entries(block: &Block) -> (count: Option<usize>)
    ensures
        count is Some <==> block_entries(block.txdata@).len() <= usize::MAX,
        count is Some ==> count.unwrap() == block_entries(block.txdata@).len(),
{
    let mut n: usize = 0;
    let mut i: usize = 0;
    while i < block.txdata.len()
        invariant
            i <= block.txdata.len(),
            n == block_entries(block.txdata@.take(i as int)).len(),
        decreases block.txdata.len() - i,
    {
        let tx = &block.txdata[i];
        proof {
            let done = block.txdata@.take(i as int);
            assert(block.txdata@.take(i + 1).drop_last() == done);
            lemma_block_entries_grow(block.txdata@, i + 1);
        }
        let inputs: usize = if i != 0 {
            tx.input.len()
        } else {
            0
        };
        let with_id = match n.checked_add(1) {
            None => {
                return None;
            },
            Some(sum) => sum,
        };
        let with_inputs = match with_id.checked_add(inputs) {
            None => {
                return None;
            },
            Some(sum) => sum,
        };
        n = match with_inputs.checked_add(tx.output.len()) {
            None => {
                return None;
            },
            Some(sum) => sum,
        };
        i = i + 1;
    }
    assert(block.txdata@.take(i as int) == block.txdata@);
    Some(n)
}

/// The first transactions of a block give no more items than all of them.
proof fn lemma_block_entries_grow(txdata: Seq<Transaction>, count: int)
    requires
        0 <= count <= txdata.len(),
    ensures
        block_entries(txdata.take(count)).len() <= block_entries(txdata).len(),
    decreases txdata.len(),
{
    if count == txdata.len() {
        assert(txdata.take(count) == txdata);
    } else {
        assert(txdata.drop_last().take(count) == txdata.take(count));
        lemma_block_entries_grow(txdata.drop_last(), count);
    }
}

/// Builds the basic filter of a block: exponent 20, the key taken from the
/// block's identifier, and as items each transaction's identifier, the
/// outpoints that it spends unless it is the coinbase, and its output scripts.
pub fn build_basic_filter(block: &Block) -> (r: Result<Filter, FilterError>)
    ensures
        block_entries(block.txdata@).len() > u32::MAX ==> r == Err::<Filter, FilterError>(
            FilterError::InvalidParameter,
        ),
        block_entries(block.txdata@).len() <= u32::MAX ==> r is Ok && r.unwrap()@ == built(
            20,
            derived_key(block.hash@),
            block_entries(block.txdata@),
        ),
{
    let mut builder = Builder::new();
    match builder.set_p(DEFAULT_P) {
        Err(error) => {
            return Err(error);
        },
        Ok(_) => {},
    }
    builder.derive_key(&block.hash);
    match count_entries(block) {
        None => {},
        Some(n) => {
            builder.reserve(n);
        },
    }
    let ghost key = derived_key(block.hash@);
    let mut i: usize = 0;
    while i < block.txdata.len()
        invariant
            i <= block.txdata.len(),
            builder@ == (BuilderView {
                p: 20,
                key,
                items: block_entries(block.txdata@.take(i as int)),
            }),
        decreases block.txdata.len() - i,
    {
        let tx = &block.txdata[i];
        let ghost done = block_entries(block.txdata@.take(i as int));
        proof {
            assert(block.txdata@.take(i + 1).drop_last() == block.txdata@.take(i as int));
        }
        builder.add_hash(&tx.txid);
        assert(builder@.items =~= done + seq![tx.txid@]);
        if i != 0 {
            let mut j: usize = 0;
            assert(builder@.items =~= done + seq![tx.txid@] + input_entries(tx.input@.take(0)));
            while j < tx.input.len()
                invariant
                    j <= tx.input.len(),
                    builder@ == (BuilderView {
                        p: 20,
                        key,
                        items: done + seq![tx.txid@] + input_entries(tx.input@.take(j as int)),
                    }),
                decreases tx.input.len() - j,
            {
                let outpoint = OutPoint {
                    txid: tx.input[j].prev_txid,
                    index: tx.input[j].prev_index,
                };
                builder.add_outpoint(&outpoint);
                proof {
                    assert(outpoint == spent(tx.input@[j as int]));
                    assert(input_entries(tx.input@.take(j + 1)) == input_entries(
                        tx.input@.take(j as int),
                    ).push(outpoint_entry(outpoint)));
                }
                j = j + 1;
            }
            assert(tx.input@.take(j as int) == tx.input@);
        }
        let ghost head = done + seq![tx.txid@] + (if i == 0 {
            Seq::empty()
        } else {
            input_entries(tx.input@)
        });
        assert(builder@.items =~= head);
        let mut k: usize = 0;
        assert(builder@.items =~= head + output_entries(tx.output@.take(0)));
        while k < tx.output.len()
            invariant
                k <= tx.output.len(),
                builder@ == (BuilderView {
                    p: 20,
                    key,
                    items: head + output_entries(tx.output@.take(k as int)),
                }),
            decreases tx.output.len() - k,
        {
            builder.add_entry(tx.output[k].script_pubkey.as_slice());
            proof {
                assert(output_entries(tx.output@.take(k + 1)) == output_entries(
                    tx.output@.take(k as int),
                ).push(tx.output@[k as int].script_pubkey@));
            }
            k = k + 1;
        }
        proof {
            assert(tx.output@.take(k as int) == tx.output@);
            assert(head + output_entries(tx.output@) == done + transaction_entries(*tx, i == 0));
        }
        i = i + 1;
    }
    assert(block.txdata@.take(i as int) == block.txdata@);
    builder.build()
}

} // verus!
