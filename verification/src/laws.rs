//! What holds of filters in general, proved from the definitions.

use crate::bits::{bits_of, byte_aligned, lemma_bits_of_pack, lemma_byte_aligned_len, pack, zeros};
use crate::error::FilterError;
use crate::filter::{
    as_nats, built, encoded, encoded_data, lemma_modulus_fits, modulus_of, parsed, FilterView,
};
use crate::golomb::{
    lemma_rice_roundtrip, lemma_rice_stream_injective, lemma_rice_stream_len,
    lemma_rice_values_ordered, non_decreasing, rice_stream,
};
use crate::hash::{hashed_value, hashed_values, lemma_reduced_range, sip_hash_2_4};
use crate::sorting::{lemma_sorted_arranges, lemma_sorted_of_rearranged, sorted};
use crate::varint::{compact_size_bytes, lemma_compact_size_roundtrip};
use vstd::arithmetic::div_mod::{lemma_div_by_multiple, lemma_div_by_multiple_is_strongly_ordered};
use vstd::arithmetic::power2::{lemma_pow2_pos, pow2};
use vstd::prelude::*;
use vstd::seq_lib::{to_multiset_contains, to_multiset_insert, to_multiset_len, to_multiset_remove};

verus! {

/// Applying a function to each member of two arrangements of one multiset
/// gives two arrangements of one multiset.
pub proof fn lemma_map_of_rearranged<A, B>(a: Seq<A>, b: Seq<A>, f: spec_fn(A) -> B)
    requires
        a.to_multiset() == b.to_multiset(),
    ensures
        a.map_values(f).to_multiset() == b.map_values(f).to_multiset(),
        a.len() == b.len(),
    decreases a.len(),
{
    to_multiset_len(a);
    to_multiset_len(b);
    if a.len() == 0 {
        assert(a.map_values(f) == b.map_values(f));
    } else {
        let last = a.len() - 1;
        let x = a[last];
        assert(a.contains(x));
        to_multiset_contains(a, x);
        to_multiset_contains(b, x);
        let j = choose|j: int| 0 <= j < b.len() && b[j] == x;
        let shorter_a = a.remove(last);
        let shorter_b = b.remove(j);
        to_multiset_remove(a, last);
        to_multiset_remove(b, j);
        lemma_map_of_rearranged(shorter_a, shorter_b, f);
        assert(a.map_values(f) == shorter_a.map_values(f).insert(last, f(x)));
        assert(b.map_values(f) == shorter_b.map_values(f).insert(j, f(x)));
        to_multiset_insert(shorter_a.map_values(f), last, f(x));
        to_multiset_insert(shorter_b.map_values(f), j, f(x));
    }
}

/// The numbers coded in a filter made from `values` are the values in
/// ascending order, each as often as it was given: decoding undoes encoding,
/// and the padding of the last byte is not read as a number.
pub proof fn lemma_encoded_values(p: nat, values: Seq<u64>)
    ensures
        encoded(p, values).values() == as_nats(sorted(values)),
        encoded(p, values).values().len() == values.len(),
{
    lemma_sorted_arranges(values);
    let ordered = as_nats(sorted(values));
    let stream = rice_stream(ordered, 0, p);
    assert(non_decreasing(ordered));
    lemma_byte_aligned_len(stream);
    lemma_bits_of_pack(byte_aligned(stream));
    lemma_rice_roundtrip(ordered, 0, p, zeros(crate::bits::padding(stream.len())));
}

/// The numbers coded in any filter never decrease, and there are at most `n`
/// of them.
pub proof fn lemma_values_ordered(filter: FilterView)
    ensures
        non_decreasing(filter.values()),
        filter.values().len() <= filter.n,
{
    lemma_rice_values_ordered(bits_of(filter.data), filter.p, filter.n, 0);
}

/// The numbers coded in a built filter are the numbers that stand for its
/// items, in ascending order and one for each item, and each lies below the
/// modulus `n * 2^p`.
pub proof fn lemma_built_values(p: nat, key: (u64, u64), items: Seq<Seq<u8>>)
    requires
        p <= 32,
        items.len() < 0x1_0000_0000,
    ensures
        built(p, key, items).values() == as_nats(
            sorted(hashed_values(key, items, modulus_of(items.len(), p) as u64)),
        ),
        built(p, key, items).values().len() == items.len(),
        forall|i: int|
            0 <= i < items.len() ==> #[trigger] built(p, key, items).values()[i] < built(
                p,
                key,
                items,
            ).modulus(),
{
    let n = items.len();
    lemma_modulus_fits(n as u32, p as u8);
    let m = modulus_of(n, p) as u64;
    let values = hashed_values(key, items, m);
    let ordered = sorted(values);
    lemma_encoded_values(p, values);
    lemma_sorted_arranges(values);
    assert forall|i: int| 0 <= i < n implies #[trigger] as_nats(ordered)[i] < modulus_of(n, p) by {
        assert(ordered.contains(ordered[i]));
        to_multiset_contains(ordered, ordered[i]);
        to_multiset_contains(values, ordered[i]);
        let j = choose|j: int| 0 <= j < values.len() && values[j] == ordered[i];
        lemma_reduced_range(sip_hash_2_4(key.0, key.1, items[j]), m);
        lemma_pow2_pos(p);
        assert(modulus_of(n, p) > 0) by (nonlinear_arith)
            requires
                n > 0,
                pow2(p) > 0,
                modulus_of(n, p) == n * pow2(p),
        ;
    }
}

/// No false negatives: a filter built from fewer than 2^32 items reports each
/// of them as a member, whether or not items repeat or their numbers collide.
pub proof fn lemma_no_false_negative(p: nat, key: (u64, u64), items: Seq<Seq<u8>>, i: int)
    requires
        p <= 32,
        items.len() < 0x1_0000_0000,
        0 <= i < items.len(),
    ensures
        built(p, key, items).matches(key, items[i]),
{
    let m = modulus_of(items.len(), p) as u64;
    let values = hashed_values(key, items, m);
    let filter = built(p, key, items);
    lemma_encoded_values(p, values);
    lemma_sorted_arranges(values);
    let target = hashed_value(key, items[i], m);
    assert(values[i] == target);
    assert(values.contains(target));
    to_multiset_contains(values, target);
    to_multiset_contains(sorted(values), target);
    let j = choose|j: int| 0 <= j < sorted(values).len() && sorted(values)[j] == target;
    assert(as_nats(sorted(values))[j] == target as nat);
}

/// Order does not matter: two arrangements of the same items give the same
/// filter, byte for byte.
pub proof fn lemma_build_ignores_order(
    p: nat,
    key: (u64, u64),
    items: Seq<Seq<u8>>,
    rearranged: Seq<Seq<u8>>,
)
    requires
        items.to_multiset() == rearranged.to_multiset(),
    ensures
        built(p, key, items) == built(p, key, rearranged),
{
    let m = modulus_of(items.len(), p) as u64;
    lemma_map_of_rearranged(items, rearranged, |item: Seq<u8>| hashed_value(key, item, m));
    lemma_sorted_of_rearranged(hashed_values(key, items, m), hashed_values(key, rearranged, m));
}

/// Two lists of 64-bit numbers with the same mathematical values are the same list.
proof fn lemma_as_nats_injective(a: Seq<u64>, b: Seq<u64>)
    requires
        as_nats(a) == as_nats(b),
    ensures
        a == b,
{
    assert(a.len() == as_nats(a).len());
    assert(b.len() == as_nats(b).len());
    assert forall|i: int| 0 <= i < a.len() implies a[i] == b[i] by {
        assert(as_nats(a)[i] == a[i] as nat);
        assert(as_nats(b)[i] == b[i] as nat);
    }
}

/// The coded bits are made from the multiset of the numbers that stand for the
/// items: two lists of numbers give the same bits, before padding, exactly
/// when each number occurs as often in one as in the other. So equal numbers
/// are each coded, and leaving one of them out gives other bits.
pub proof fn lemma_stream_keeps_multiplicity(p: nat, a: Seq<u64>, b: Seq<u64>)
    ensures
        rice_stream(as_nats(sorted(a)), 0, p) == rice_stream(as_nats(sorted(b)), 0, p)
            <==> a.to_multiset() == b.to_multiset(),
{
    lemma_sorted_arranges(a);
    lemma_sorted_arranges(b);
    if a.to_multiset() == b.to_multiset() {
        lemma_sorted_of_rearranged(a, b);
    }
    if rice_stream(as_nats(sorted(a)), 0, p) == rice_stream(as_nats(sorted(b)), 0, p) {
        assert(non_decreasing(as_nats(sorted(a))));
        assert(non_decreasing(as_nats(sorted(b))));
        lemma_rice_stream_injective(as_nats(sorted(a)), as_nats(sorted(b)), 0, p);
        lemma_as_nats_injective(sorted(a), sorted(b));
    }
}

/// A filter, which is its item count, its exponent and its bytes, is made from
/// the multiset of the numbers that stand for its items: two lists of numbers
/// give the same filter exactly when each number occurs as often in one as in
/// the other. The bytes alone can agree where the counts differ: a zero step
/// at the end of the bits is not told from padding.
pub proof fn lemma_encoding_keeps_multiplicity(p: nat, a: Seq<u64>, b: Seq<u64>)
    ensures
        encoded(p, a) == encoded(p, b) <==> a.to_multiset() == b.to_multiset(),
{
    lemma_sorted_arranges(a);
    lemma_sorted_arranges(b);
    if a.to_multiset() == b.to_multiset() {
        lemma_sorted_of_rearranged(a, b);
        to_multiset_len(a);
        to_multiset_len(b);
    }
    if encoded(p, a) == encoded(p, b) {
        lemma_encoded_values(p, a);
        lemma_encoded_values(p, b);
        lemma_as_nats_injective(sorted(a), sorted(b));
    }
}

/// A worst case for the size of a filter: where each of the `n` values is
/// below `n * 2^p`, the filter takes fewer than `n * (p + 2) + 8` bits.
pub proof fn lemma_encoded_size(p: nat, values: Seq<u64>)
    requires
        forall|i: int| 0 <= i < values.len() ==> values[i] < modulus_of(values.len(), p),
    ensures
        encoded_data(p, values).len() * 8 < values.len() * (p + 2) + 8,
{
    let n = values.len();
    lemma_sorted_arranges(values);
    let ordered = as_nats(sorted(values));
    let stream = rice_stream(ordered, 0, p);
    assert(non_decreasing(ordered));
    lemma_rice_stream_len(ordered, 0, p);
    lemma_byte_aligned_len(stream);
    if n > 0 {
        let last = sorted(values).last();
        assert(sorted(values).contains(last));
        to_multiset_contains(sorted(values), last);
        to_multiset_contains(values, last);
        let j = choose|j: int| 0 <= j < values.len() && values[j] == last;
        assert(last < modulus_of(n, p));
        assert(ordered.last() == last as nat);
        lemma_pow2_pos(p);
        lemma_div_by_multiple_is_strongly_ordered(
            last as int,
            modulus_of(n, p) as int,
            n as int,
            pow2(p) as int,
        );
        lemma_div_by_multiple(n as int, pow2(p) as int);
        assert(n * (p + 2) == n * (p + 1) + n) by (nonlinear_arith);
    }
}

/// A worst case for the size of a built filter: `n` items with exponent `p`
/// take fewer than `n * (p + 2) + 8` bits. (About `n * (p + 2)` bits is also
/// what a filter takes on average; that is not stated here.)
pub proof fn lemma_built_size(p: nat, key: (u64, u64), items: Seq<Seq<u8>>)
    requires
        p <= 32,
        items.len() < 0x1_0000_0000,
    ensures
        built(p, key, items).data.len() * 8 < items.len() * (p + 2) + 8,
{
    let n = items.len();
    lemma_modulus_fits(n as u32, p as u8);
    let m = modulus_of(n, p) as u64;
    let values = hashed_values(key, items, m);
    assert forall|i: int| 0 <= i < values.len() implies values[i] < modulus_of(values.len(), p) by {
        lemma_reduced_range(sip_hash_2_4(key.0, key.1, items[i]), m);
        lemma_pow2_pos(p);
        assert(modulus_of(n, p) > 0) by (nonlinear_arith)
            requires
                n > 0,
                pow2(p) > 0,
                modulus_of(n, p) == n * pow2(p),
        ;
    }
    lemma_encoded_size(p, values);
}

/// A filter of no items has no bytes when built, and no filter of no items
/// reports a member, whatever its bytes.
pub proof fn lemma_empty(p: nat, key: (u64, u64), filter: FilterView, item: Seq<u8>)
    requires
        filter.n == 0,
    ensures
        built(p, key, Seq::empty()).n == 0,
        built(p, key, Seq::empty()).data == Seq::<u8>::empty(),
        !filter.matches(key, item),
{
    let values = hashed_values(key, Seq::<Seq<u8>>::empty(), modulus_of(0, p) as u64);
    lemma_sorted_arranges(values);
    assert(as_nats(sorted(values)) == Seq::<nat>::empty());
    assert(byte_aligned(Seq::<bool>::empty()) == Seq::<bool>::empty());
    assert(pack(Seq::<bool>::empty()) == Seq::<u8>::empty());
}

/// A serialized filter reads back as the filter: the item count in
/// compact-size form followed by the filter's bytes parses to the same count,
/// exponent and bytes.
pub proof fn lemma_framed_roundtrip(filter: FilterView)
    requires
        filter.n < 0x1_0000_0000,
        filter.p <= 32,
    ensures
        parsed(filter.p, compact_size_bytes(filter.n as u64) + filter.data) == Ok::<
            FilterView,
            FilterError,
        >(filter),
{
    lemma_compact_size_roundtrip(filter.n as u64, filter.data);
}

} // verus!
