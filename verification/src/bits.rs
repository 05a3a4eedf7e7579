//! Sequences of bits and the numbers and bytes they spell, most significant bit first.

use vstd::arithmetic::power2::{lemma2_to64, lemma_pow2_unfold, pow2};
use vstd::prelude::*;

verus! {

/// The number whose binary digits, most significant first, are `bits`.
pub open spec fn be_value(bits: Seq<bool>) -> nat
    decreases bits.len(),
{
    if bits.len() == 0 {
        0
    } else {
        2 * be_value(bits.drop_last()) + if bits.last() {
            1nat
        } else {
            0nat
        }
    }
}

/// The `width` low binary digits of `value`, most significant first.
pub open spec fn be_bits(value: nat, width: nat) -> Seq<bool>
    decreases width,
{
    if width == 0 {
        Seq::empty()
    } else {
        be_bits(value / 2, (width - 1) as nat).push(value % 2 == 1)
    }
}

/// `count` zero bits.
pub open spec fn zeros(count: nat) -> Seq<bool> {
    Seq::new(count, |i: int| false)
}

/// The bits of a byte string: eight per byte, most significant first.
pub open spec fn bits_of(bytes: Seq<u8>) -> Seq<bool> {
    Seq::new(8 * bytes.len(), |i: int| be_bits(bytes[i / 8] as nat, 8)[i % 8])
}

/// The bytes spelled by each full group of eight bits; a trailing partial group is left out.
pub open spec fn pack(bits: Seq<bool>) -> Seq<u8> {
    Seq::new(bits.len() / 8, |k: int| be_value(bits.subrange(8 * k, 8 * k + 8)) as u8)
}

/// How many zero bits bring a stream of `len` bits to a byte boundary.
pub open spec fn padding(len: nat) -> nat {
    ((8 - len % 8) % 8) as nat
}

/// `bits` followed by the zero bits that complete its last byte.
pub open spec fn byte_aligned(bits: Seq<bool>) -> Seq<bool> {
    bits + zeros(padding(bits.len()))
}

/// A number spelled in `width` digits takes `width` bits.
pub proof fn lemma_be_bits_len(value: nat, width: nat)
    ensures
        be_bits(value, width).len() == width,
    decreases width,
{
    if width > 0 {
        lemma_be_bits_len(value / 2, (width - 1) as nat);
    }
}

/// A number of `bits.len()` digits is below two to that power.
pub proof fn lemma_be_value_bound(bits: Seq<bool>)
    ensures
        be_value(bits) < pow2(bits.len()),
    decreases bits.len(),
{
    if bits.len() == 0 {
        lemma2_to64();
    } else {
        lemma_be_value_bound(bits.drop_last());
        lemma_pow2_unfold(bits.len());
    }
}

/// Spelling a number in `width` digits and reading it back keeps it, if it fits.
pub proof fn lemma_be_value_of_bits(value: nat, width: nat)
    requires
        value < pow2(width),
    ensures
        be_value(be_bits(value, width)) == value,
    decreases width,
{
    if width == 0 {
        lemma2_to64();
    } else {
        lemma_pow2_unfold(width);
        lemma_be_value_of_bits(value / 2, (width - 1) as nat);
        let s = be_bits(value, width);
        assert(s.drop_last() == be_bits(value / 2, (width - 1) as nat));
    }
}

/// Reading digits as a number and spelling it again gives the same digits.
pub proof fn lemma_be_bits_of_value(bits: Seq<bool>)
    ensures
        be_bits(be_value(bits), bits.len()) == bits,
    decreases bits.len(),
{
    if bits.len() > 0 {
        lemma_be_bits_of_value(bits.drop_last());
        let v = be_value(bits);
        assert(v / 2 == be_value(bits.drop_last()));
        assert((v % 2 == 1) == bits.last());
        assert(be_bits(v, bits.len()) == be_bits(v / 2, (bits.len() - 1) as nat).push(v % 2 == 1));
        assert(bits.drop_last().push(bits.last()) == bits);
    }
}

/// Packing whole bytes and unpacking them gives the same bits.
pub proof fn lemma_bits_of_pack(bits: Seq<bool>)
    requires
        bits.len() % 8 == 0,
    ensures
        bits_of(pack(bits)) == bits,
{
    let bytes = pack(bits);
    assert(bits_of(bytes).len() == bits.len());
    assert forall|i: int| 0 <= i < bits.len() implies bits_of(bytes)[i] == bits[i] by {
        let k = i / 8;
        let group = bits.subrange(8 * k, 8 * k + 8);
        lemma_be_value_bound(group);
        lemma2_to64();
        assert(bytes[k] as nat == be_value(group));
        lemma_be_bits_of_value(group);
        assert(group[i % 8] == bits[i]);
    }
}

/// A padded stream ends on a byte boundary and is less than a byte longer.
pub proof fn lemma_byte_aligned_len(bits: Seq<bool>)
    ensures
        byte_aligned(bits).len() % 8 == 0,
        bits.len() <= byte_aligned(bits).len() < bits.len() + 8,
{
}

} // verus!
