//! Keyed hashing of items and reduction of a hash to a bounded range.

use siphasher::sip::SipHasher24;
use std::hash::Hasher;
use vstd::prelude::*;

verus! {

/// The SipHash-2-4 digest of `data` under the 128-bit key `(k0, k1)`.
pub uninterp spec fn sip_hash_2_4(k0: u64, k1: u64, data: Seq<u8>) -> u64;

/// `floor(x * m / 2^64)`: where `x` is spread evenly over the 64-bit numbers,
/// the result is spread evenly over `0 .. m`.
pub open spec fn reduced(x: u64, m: u64) -> u64 {
    ((x as nat * m as nat) / 0x1_0000_0000_0000_0000) as u64
}

/// The number that stands for `item` in a filter with modulus `m` under `key`.
pub open spec fn hashed_value(key: (u64, u64), item: Seq<u8>, m: u64) -> u64 {
    reduced(sip_hash_2_4(key.0, key.1, item), m)
}

/// The numbers that stand for `items`, in the order of the items.
pub open spec fn hashed_values(key: (u64, u64), items: Seq<Seq<u8>>, m: u64) -> Seq<u64> {
    items.map_values(|item: Seq<u8>| hashed_value(key, item, m))
}

/// The byte strings held by `items`.
pub open spec fn items_of(items: Seq<Vec<u8>>) -> Seq<Seq<u8>> {
    items.map_values(|item: Vec<u8>| item@)
}

/// A reduced number lies below the modulus, and is zero where the modulus is.
pub proof fn lemma_reduced_range(x: u64, m: u64)
    ensures
        m > 0 ==> reduced(x, m) < m,
        m == 0 ==> reduced(x, m) == 0,
        reduced(x, m) == (x as nat * m as nat) / 0x1_0000_0000_0000_0000,
{
    let product = x as nat * m as nat;
    assert(product <= 0xffff_ffff_ffff_ffff * m) by (nonlinear_arith)
        requires
            product == x as nat * m as nat,
            x <= 0xffff_ffff_ffff_ffff,
    ;
}

/// Maps `x` into `0 .. n` by a widening multiplication and a shift, without a division.
pub fn reduce(x: u64, n: u64) -> (r: u64)
    ensures
        r == reduced(x, n),
        r == (x as nat * n as nat) / 0x1_0000_0000_0000_0000,
        n > 0 ==> r < n,
        n == 0 ==> r == 0,
{
    proof {
        lemma_reduced_range(x, n);
        assert(x as nat * n as nat <= 0xffff_ffff_ffff_ffff * 0xffff_ffff_ffff_ffff)
            by (nonlinear_arith)
            requires
                x <= 0xffff_ffff_ffff_ffff,
                n <= 0xffff_ffff_ffff_ffff,
        ;
    }
    let wide: u128 = (x as u128) * (n as u128);
    assert(wide >> 64 == wide / 0x1_0000_0000_0000_0000) by (bit_vector);
    (wide >> 64) as u64
}

/// SipHash-2-4 of `data` under `key`, as `siphasher::sip::SipHasher24` computes it
/// from a hasher made with `new_with_keys`, fed `data` in one `write`, and finished.
/// The digest depends on the key and the bytes alone; nothing more is claimed of it.
#[verifier::external_body]
pub fn siphash24(key: (u64, u64), data: &[u8]) -> (digest: u64)
    ensures
        digest == sip_hash_2_4(key.0, key.1, data@),
{
    let mut hasher = SipHasher24::new_with_keys(key.0, key.1);
    hasher.write(data);
    hasher.finish()
}

/// The numbers that stand for `items` under `key` in a filter with modulus
/// `m`, in the order of the items.
pub fn hash_items(key: (u64, u64), items: &Vec<Vec<u8>>, m: u64) -> (values: Vec<u64>)
    ensures
        values@ == hashed_values(key, items_of(items@), m),
{
    let mut values: Vec<u64> = Vec::with_capacity(items.len());
    let mut i: usize = 0;
    while i < items.len()
        invariant
            i <= items.len(),
            values@ == hashed_values(key, items_of(items@).take(i as int), m),
        decreases items.len() - i,
    {
        let digest = siphash24(key, items[i].as_slice());
        values.push(reduce(digest, m));
        proof {
            let all = items_of(items@);
            assert(all.take(i + 1) == all.take(i as int).push(items@[i as int]@));
        }
        i = i + 1;
    }
    assert(items_of(items@).take(i as int) == items_of(items@));
    values
}

} // verus!
