//! The Golomb-coded set: building it, reading it back, and asking it for members.

use crate::bits::{bits_of, byte_aligned, pack};
use crate::bitstream::{unread_bits, written_bits, BitSink, BitSource};
use crate::error::FilterError;
use crate::golomb::{
    last_or, lemma_rice_stream_push, lemma_rice_values_head, lemma_rice_values_step,
    read_next_value, rice_stream, rice_values, write_value,
};
use crate::hash::{hash_items, hashed_value, hashed_values, items_of, reduce, siphash24};
use crate::sorting::{is_sorted, lemma_sorted_arranges, lemma_sorted_is, sort_values, sorted};
use crate::varint::{compact_size, decode_varint, lemma_compact_size_bound};
use vstd::arithmetic::power2::{lemma2_to64, lemma_pow2_pos, lemma_pow2_strictly_increases, pow2};
use vstd::bits::lemma_u64_shl_is_mul;
use vstd::prelude::*;
use vstd::seq_lib::{to_multiset_contains, to_multiset_len};
use vstd::slice::{slice_subrange, slice_to_vec};

verus! {

/// A Golomb-coded set: the coded numbers of `n` items, with a false-positive
/// rate of `2^-p`.
#[derive(Debug)]
pub struct Filter {
    n: u32,
    p: u8,
    modulus_np: u64,
    data: Vec<u8>,
}

/// What a filter is: its item count, its false-positive exponent and its bytes.
pub struct FilterView {
    pub n: nat,
    pub p: nat,
    pub data: Seq<u8>,
}

/// The numbers of `values` as mathematical integers.
pub open spec fn as_nats(values: Seq<u64>) -> Seq<nat> {
    values.map_values(|v: u64| v as nat)
}

/// The bytes of a filter with exponent `p` that holds `values`: the codes of
/// the values in ascending order, padded with zero bits to a whole byte.
pub open spec fn encoded_data(p: nat, values: Seq<u64>) -> Seq<u8> {
    pack(byte_aligned(rice_stream(as_nats(sorted(values)), 0, p)))
}

/// The filter with exponent `p` that holds `values`.
pub open spec fn encoded(p: nat, values: Seq<u64>) -> FilterView {
    FilterView { n: values.len(), p, data: encoded_data(p, values) }
}

/// The range of the numbers that stand for the items of a filter of `n` items
/// with exponent `p`.
pub open spec fn modulus_of(n: nat, p: nat) -> nat {
    n * pow2(p)
}

/// The filter with exponent `p` built from `items` under `key`.
pub open spec fn built(p: nat, key: (u64, u64), items: Seq<Seq<u8>>) -> FilterView {
    encoded(p, hashed_values(key, items, modulus_of(items.len(), p) as u64))
}

/// What a serialized filter, an item count in compact-size form and then the
/// coded numbers, reads as with exponent `p`.
pub open spec fn parsed(p: nat, framed: Seq<u8>) -> Result<FilterView, FilterError> {
    match compact_size(framed) {
        None => Err(FilterError::ParseFailed),
        Some((count, used)) => if count > u32::MAX {
            Err(FilterError::InvalidLength)
        } else if p > 32 {
            Err(FilterError::InvalidParameter)
        } else {
            Ok(FilterView { n: count as nat, p, data: framed.skip(used as int) })
        },
    }
}

impl FilterView {
    /// The range of the numbers that stand for items: `n * 2^p`.
    pub open spec fn modulus(self) -> nat {
        modulus_of(self.n, self.p)
    }

    /// The numbers coded in the filter's bytes: the first `n`, or as many as
    /// the bytes hold where they end sooner. Bits after them are not read.
    pub open spec fn values(self) -> Seq<nat> {
        rice_values(bits_of(self.data), self.p, self.n, 0)
    }

    /// Whether the number that stands for `item` is among the coded numbers.
    pub open spec fn matches(self, key: (u64, u64), item: Seq<u8>) -> bool {
        self.values().contains(hashed_value(key, item, self.modulus() as u64) as nat)
    }

    /// Whether the number that stands for one of `items` is among the coded numbers.
    pub open spec fn matches_any(self, key: (u64, u64), items: Seq<Seq<u8>>) -> bool {
        exists|i: int| 0 <= i < items.len() && self.matches(key, #[trigger] items[i])
    }
}

impl View for Filter {
    type V = FilterView;

    closed spec fn view(&self) -> FilterView {
        FilterView { n: self.n as nat, p: self.p as nat, data: self.data@ }
    }
}

impl Clone for Filter {
    fn clone(&self) -> (copy: Filter)
        ensures
            copy@ == self@,
    {
        proof {
            use_type_invariant(self);
        }
        Filter { n: self.n, p: self.p, modulus_np: self.modulus_np, data: self.data.clone() }
    }
}

/// Two sequences with the same multiset of numbers have the same members.
proof fn lemma_same_members(given: Seq<u64>, queries: Seq<u64>)
    requires
        given.to_multiset() == queries.to_multiset(),
    ensures
        given.len() == queries.len(),
        forall|v: u64| given.contains(v) <==> queries.contains(v),
{
    to_multiset_len(given);
    to_multiset_len(queries);
    assert forall|v: u64| given.contains(v) <==> queries.contains(v) by {
        to_multiset_contains(given, v);
        to_multiset_contains(queries, v);
    }
}

/// Where a query is coded, one of the given values is.
proof fn lemma_one_matches(coded: Seq<nat>, given: Seq<u64>, queries: Seq<u64>, next: int)
    requires
        0 <= next < queries.len(),
        forall|v: u64| given.contains(v) <==> queries.contains(v),
        coded.contains(queries[next] as nat),
    ensures
        exists|i: int| 0 <= i < given.len() && coded.contains(#[trigger] given[i] as nat),
{
    assert(queries.contains(queries[next]));
    assert(given.contains(queries[next]));
    let i = choose|i: int| 0 <= i < given.len() && given[i] == queries[next];
    assert(coded.contains(given[i] as nat));
}

/// Where no query is coded, none of the given values is.
proof fn lemma_none_matches(coded: Seq<nat>, given: Seq<u64>, queries: Seq<u64>)
    requires
        forall|v: u64| given.contains(v) <==> queries.contains(v),
        forall|i: int| 0 <= i < queries.len() ==> !coded.contains(#[trigger] queries[i] as nat),
    ensures
        !(exists|i: int| 0 <= i < given.len() && coded.contains(#[trigger] given[i] as nat)),
{
    assert forall|i: int| 0 <= i < given.len() implies !coded.contains(
        #[trigger] given[i] as nat,
    ) by {
        assert(given.contains(given[i]));
        assert(queries.contains(given[i]));
        let j = choose|j: int| 0 <= j < queries.len() && queries[j] == given[i];
        assert(!coded.contains(queries[j] as nat));
    }
}

/// Where the queries before `next` are not coded and no coded number is as
/// large as the query at `next`, none of the given values is coded.
proof fn lemma_none_at_or_above(coded: Seq<nat>, given: Seq<u64>, queries: Seq<u64>, next: int)
    requires
        0 <= next < queries.len(),
        is_sorted(queries),
        forall|v: u64| given.contains(v) <==> queries.contains(v),
        forall|i: int| 0 <= i < next ==> !coded.contains(#[trigger] queries[i] as nat),
        forall|x: nat| queries[next] <= x <= u64::MAX ==> !#[trigger] coded.contains(x),
    ensures
        !(exists|i: int| 0 <= i < given.len() && coded.contains(#[trigger] given[i] as nat)),
{
    assert forall|i: int| 0 <= i < queries.len() implies !coded.contains(
        #[trigger] queries[i] as nat,
    ) by {
        if i >= next {
            assert(queries[next] <= queries[i]);
        }
    }
    lemma_none_matches(coded, given, queries);
}

/// `n * 2^p` fits in 64 bits and is what the shift computes.
pub proof fn lemma_modulus_fits(n: u32, p: u8)
    requires
        p <= 32,
    ensures
        modulus_of(n as nat, p as nat) <= u64::MAX,
        (n as u64) << (p as u64) == modulus_of(n as nat, p as nat),
{
    lemma2_to64();
    lemma_pow2_pos(p as nat);
    if p < 32 {
        lemma_pow2_strictly_increases(p as nat, 32);
    }
    assert(n as nat * pow2(p as nat) <= 0xffff_ffff * 0x1_0000_0000) by (nonlinear_arith)
        requires
            n <= 0xffff_ffff,
            pow2(p as nat) <= 0x1_0000_0000,
    ;
    lemma_u64_shl_is_mul(n as u64, p as u64);
}

impl Filter {
    #[verifier::type_invariant]
    spec fn well_formed(self) -> bool {
        &&& self.p <= 32
        &&& self.modulus_np == modulus_of(self.n as nat, self.p as nat)
    }

    /// Builds the filter with exponent `p` that holds `values`, numbers that
    /// stand for items already: puts them in ascending order, keeping equal
    /// ones, and codes the step from each to the next.
    pub fn from_values(p: u8, values: Vec<u64>) -> (r: Result<Filter, FilterError>)
        ensures
            p > 32 || values.len() > u32::MAX ==> r == Err::<Filter, FilterError>(
                FilterError::InvalidParameter,
            ),
            p <= 32 && values.len() <= u32::MAX ==> r is Ok && r.unwrap()@ == encoded(
                p as nat,
                values@,
            ),
    {
        if values.len() > u32::MAX as usize || p > 32 {
            return Err(FilterError::InvalidParameter);
        }
        let n: u32 = values.len() as u32;
        proof {
            lemma_modulus_fits(n, p);
            lemma_sorted_arranges(values@);
        }
        let modulus_np: u64 = (n as u64) << (p as u64);
        if n == 0 {
            let data: Vec<u8> = Vec::new();
            proof {
                assert(as_nats(sorted(values@)) == Seq::<nat>::empty());
                assert(byte_aligned(Seq::<bool>::empty()) == Seq::<bool>::empty());
                assert(pack(Seq::<bool>::empty()) == Seq::<u8>::empty());
            }
            return Ok(Filter { n, p, modulus_np, data });
        }
        let ghost given = values@;
        let mut values = values;
        sort_values(&mut values);
        proof {
            lemma_sorted_is(given, values@);
        }
        let mut sink = BitSink::new();
        let mut last: u64 = 0;
        let mut i: usize = 0;
        while i < values.len()
            invariant
                p <= 32,
                i <= values.len(),
                is_sorted(values@),
                written_bits(sink) == rice_stream(as_nats(values@.take(i as int)), 0, p as nat),
                last == last_or(as_nats(values@.take(i as int)), 0),
            decreases values.len() - i,
        {
            let value = values[i];
            proof {
                let before = as_nats(values@.take(i as int));
                assert(as_nats(values@.take(i + 1)) == before.push(value as nat));
                lemma_rice_stream_push(before, 0, p as nat, value as nat);
                if i > 0 {
                    assert(before.last() == values@[i - 1]);
                }
            }
            write_value(&mut sink, value - last, p);
            last = value;
            i = i + 1;
        }
        assert(values@.take(i as int) == values@);
        sink.byte_align();
        let data = sink.into_bytes();
        Ok(Filter { n, p, modulus_np, data })
    }

    /// Builds the filter with exponent `p` that holds `data` under `key`.
    /// Fails where `p` is above 32 or there are 2^32 items or more.
    pub fn build(p: u8, key: (u64, u64), data: &Vec<Vec<u8>>) -> (r: Result<Filter, FilterError>)
        ensures
            p > 32 || data.len() > u32::MAX ==> r == Err::<Filter, FilterError>(
                FilterError::InvalidParameter,
            ),
            p <= 32 && data.len() <= u32::MAX ==> r is Ok && r.unwrap()@ == built(
                p as nat,
                key,
                items_of(data@),
            ),
            p <= 32 && data.len() == 0 ==> r is Ok && r.unwrap()@.data.len() == 0,
    {
        if data.len() > u32::MAX as usize || p > 32 {
            return Err(FilterError::InvalidParameter);
        }
        let n: u32 = data.len() as u32;
        proof {
            lemma_modulus_fits(n, p);
        }
        let modulus_np: u64 = (n as u64) << (p as u64);
        let values = hash_items(key, data, modulus_np);
        let r = Self::from_values(p, values);
        proof {
            if data.len() == 0 {
                lemma_sorted_arranges(values@);
                assert(as_nats(sorted(values@)) == Seq::<nat>::empty());
                assert(byte_aligned(Seq::<bool>::empty()) == Seq::<bool>::empty());
            }
        }
        r
    }

    /// The filter of `n` items with exponent `p` whose coded numbers are `data`.
    /// The bytes are taken as they are.
    pub fn from_bytes(n: u32, p: u8, data: Vec<u8>) -> (filter: Filter)
        requires
            p <= 32,
        ensures
            filter@ == (FilterView { n: n as nat, p: p as nat, data: data@ }),
    {
        proof {
            lemma_modulus_fits(n, p);
        }
        Filter { n, p, modulus_np: (n as u64) << (p as u64), data }
    }

    /// Reads a serialized filter: an item count in compact-size form, then the
    /// coded numbers, which are taken as they are. Fails with `ParseFailed`
    /// where the count is incomplete or not in its shortest form, with
    /// `InvalidLength` where it is 2^32 or more, and with `InvalidParameter`
    /// where `p` is above 32.
    pub fn from_nbytes(p: u8, data: &[u8]) -> (r: Result<Filter, FilterError>)
        ensures
            match parsed(p as nat, data@) {
                Ok(view) => r is Ok && r.unwrap()@ == view,
                Err(error) => r == Err::<Filter, FilterError>(error),
            },
    {
        proof {
            lemma_compact_size_bound(data@);
        }
        let (count, used) = match decode_varint(data) {
            Err(_) => {
                return Err(FilterError::ParseFailed);
            },
            Ok(pair) => pair,
        };
        if count > u32::MAX as u64 {
            return Err(FilterError::InvalidLength);
        }
        if p > 32 {
            return Err(FilterError::InvalidParameter);
        }
        let body = slice_to_vec(slice_subrange(data, used, data.len()));
        Ok(Filter::from_bytes(count as u32, p, body))
    }

    /// The number of items.
    pub fn n(&self) -> (n: u32)
        ensures
            n == self@.n,
    {
        self.n
    }

    /// The false-positive exponent.
    pub fn p(&self) -> (p: u8)
        ensures
            p == self@.p,
            p <= 32,
    {
        proof {
            use_type_invariant(self);
        }
        self.p
    }

    /// The coded numbers, as stored.
    pub fn as_bytes(&self) -> (bytes: &[u8])
        ensures
            bytes@ == self@.data,
    {
        self.data.as_slice()
    }

    /// Whether the filter holds no item.
    pub fn is_empty(&self) -> (empty: bool)
        ensures
            empty == (self@.n == 0),
    {
        self.n == 0
    }

    /// Whether `target` is among the coded numbers. Reads the numbers in order
    /// and stops at the first that is not below `target`, after `n` numbers, or
    /// where the bytes end.
    pub fn contains_value(&self, target: u64) -> (found: bool)
        ensures
            found == self@.values().contains(target as nat),
    {
        proof {
            use_type_invariant(self);
        }
        let mut source = BitSource::new(self.data.as_slice());
        let mut remaining: u32 = self.n;
        let mut last: u64 = 0;
        while remaining > 0
            invariant
                self.p <= 32,
                self@.values().contains(target as nat) <==> rice_values(
                    unread_bits(source),
                    self.p as nat,
                    remaining as nat,
                    last as nat,
                ).contains(target as nat),
            decreases remaining,
        {
            proof {
                lemma_rice_values_head(
                    unread_bits(source),
                    self.p as nat,
                    remaining as nat,
                    last as nat,
                    target as nat,
                );
            }
            match read_next_value(&mut source, self.p) {
                None => {
                    return false;
                },
                Some(step) => {
                    if step > u64::MAX - last {
                        return false;
                    }
                    let value: u64 = last + step;
                    if value >= target {
                        return value == target;
                    }
                    last = value;
                    remaining = remaining - 1;
                },
            }
        }
        false
    }

    /// Whether `data` is likely a member of the set: whether the number that
    /// stands for it under `key` is among the coded numbers. An item that the
    /// filter was built from is always reported; another one is reported with
    /// a probability of about `2^-p`.
    pub fn is_member(&self, key: (u64, u64), data: &[u8]) -> (found: bool)
        ensures
            found == self@.matches(key, data@),
            self@.n == 0 ==> !found,
    {
        proof {
            use_type_invariant(self);
        }
        if self.n == 0 {
            return false;
        }
        let target = reduce(siphash24(key, data), self.modulus_np);
        self.contains_value(target)
    }

    /// Whether one of `values` is among the coded numbers. Puts the values in
    /// ascending order and walks them and the coded numbers together, moving
    /// on from whichever is smaller, until two are equal or either side ends.
    pub fn contains_any_value(&self, values: Vec<u64>) -> (found: bool)
        ensures
            found == exists|i: int|
                0 <= i < values.len() && self@.values().contains(#[trigger] values[i] as nat),
    {
        proof {
            use_type_invariant(self);
        }
        if values.len() == 0 || self.n == 0 {
            return false;
        }
        let ghost given = values@;
        let ghost coded = self@.values();
        let mut queries = values;
        sort_values(&mut queries);
        proof {
            lemma_same_members(given, queries@);
        }
        let mut source = BitSource::new(self.data.as_slice());
        proof {
            lemma_rice_values_step(unread_bits(source), self.p as nat, self.n as nat, 0);
        }
        let mut current: u64 = match read_next_value(&mut source, self.p) {
            None => {
                proof {
                    lemma_none_at_or_above(coded, given, queries@, 0);
                }
                return false;
            },
            Some(step) => step,
        };
        let mut remaining: u32 = self.n - 1;
        let mut next: usize = 0;
        loop
            invariant
                self.p <= 32,
                given == values@,
                coded == self@.values(),
                is_sorted(queries@),
                forall|v: u64| given.contains(v) <==> queries@.contains(v),
                next < queries.len(),
                coded.contains(current as nat),
                forall|x: nat|
                    #![trigger coded.contains(x)]
                    x > current ==> (coded.contains(x) <==> rice_values(
                        unread_bits(source),
                        self.p as nat,
                        remaining as nat,
                        current as nat,
                    ).contains(x)),
                forall|x: nat|
                    #![trigger coded.contains(x)]
                    coded.contains(x) && x < current ==> x < queries@[next as int],
                forall|i: int| 0 <= i < next ==> !coded.contains(#[trigger] queries@[i] as nat),
            decreases remaining + (queries.len() - next),
        {
            let query = queries[next];
            if current == query {
                proof {
                    lemma_one_matches(coded, given, queries@, next as int);
                }
                return true;
            } else if current > query {
                next = next + 1;
                if next == queries.len() {
                    proof {
                        lemma_none_matches(coded, given, queries@);
                    }
                    return false;
                }
            } else {
                if remaining == 0 {
                    proof {
                        lemma_none_at_or_above(coded, given, queries@, next as int);
                    }
                    return false;
                }
                proof {
                    lemma_rice_values_step(
                        unread_bits(source),
                        self.p as nat,
                        remaining as nat,
                        current as nat,
                    );
                }
                let step = match read_next_value(&mut source, self.p) {
                    None => {
                        proof {
                            lemma_none_at_or_above(coded, given, queries@, next as int);
                        }
                        return false;
                    },
                    Some(step) => step,
                };
                if step > u64::MAX - current {
                    proof {
                        lemma_none_at_or_above(coded, given, queries@, next as int);
                    }
                    return false;
                }
                current = current + step;
                remaining = remaining - 1;
            }
        }
    }

    /// Whether one of `data` is likely a member of the set: whether the number
    /// that stands for one of them under `key` is among the coded numbers.
    pub fn is_member_any(&self, key: (u64, u64), data: &Vec<Vec<u8>>) -> (found: bool)
        ensures
            found == self@.matches_any(key, items_of(data@)),
            self@.n == 0 || data.len() == 0 ==> !found,
    {
        proof {
            use_type_invariant(self);
        }
        if data.len() == 0 || self.n == 0 {
            return false;
        }
        let values = hash_items(key, data, self.modulus_np);
        let found = self.contains_any_value(values);
        proof {
            let items = items_of(data@);
            if found {
                let i = choose|i: int|
                    0 <= i < values.len() && self@.values().contains(#[trigger] values[i] as nat);
                assert(self@.matches(key, items[i]));
            }
            if self@.matches_any(key, items) {
                let i = choose|i: int|
                    0 <= i < items.len() && self@.matches(key, #[trigger] items[i]);
                assert(self@.values().contains(values[i] as nat));
            }
        }
        found
    }
}

} // verus!
