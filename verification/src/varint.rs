//! The item count that leads a serialized filter, in Bitcoin's compact-size form.
//!
//! A count below `0xFD` is one byte. A larger one is a marker byte, `0xFD`,
//! `0xFE` or `0xFF`, and the count in two, four or eight bytes, least
//! significant first; it must not fit a shorter form.

use crate::little_endian::{
    le_bytes, le_value, lemma_le_bytes_len, lemma_le_value_bound, lemma_le_value_of_bytes,
    lemma_pow256_values,
};
use bitcoin::consensus::encode::{deserialize_partial, VarInt};
use vstd::prelude::*;

verus! {

#[verifier::external_type_specification]
#[verifier::external_body]
pub struct ExDecodeError(bitcoin::consensus::encode::Error);

/// How many bytes follow the marker byte `marker`.
pub open spec fn payload_width(marker: u8) -> nat {
    if marker < 0xFD {
        0
    } else if marker == 0xFD {
        2
    } else if marker == 0xFE {
        4
    } else {
        8
    }
}

/// The least count that needs the form that `marker` starts.
pub open spec fn least_count(marker: u8) -> nat {
    if marker < 0xFD {
        0
    } else if marker == 0xFD {
        0xFD
    } else if marker == 0xFE {
        0x1_0000
    } else {
        0x1_0000_0000
    }
}

/// The count that leads `bytes` and the number of bytes it takes, or `None`
/// where the bytes end too soon or the count is not in its shortest form.
pub open spec fn compact_size(bytes: Seq<u8>) -> Option<(u64, nat)> {
    if bytes.len() == 0 {
        None
    } else if bytes[0] < 0xFD {
        Some((bytes[0] as u64, 1nat))
    } else {
        let width = payload_width(bytes[0]);
        let count = le_value(bytes.subrange(1, 1 + width as int));
        if bytes.len() < 1 + width || count < least_count(bytes[0]) {
            None
        } else {
            Some((count as u64, 1 + width))
        }
    }
}

/// The compact-size form of `count`.
pub open spec fn compact_size_bytes(count: u64) -> Seq<u8> {
    if count < 0xFD {
        seq![count as u8]
    } else if count <= 0xFFFF {
        seq![0xFDu8] + le_bytes(count as nat, 2)
    } else if count <= 0xFFFF_FFFF {
        seq![0xFEu8] + le_bytes(count as nat, 4)
    } else {
        seq![0xFFu8] + le_bytes(count as nat, 8)
    }
}

/// The compact-size form of a count, whatever follows it, reads back as the
/// count and its own length.
pub proof fn lemma_compact_size_roundtrip(count: u64, tail: Seq<u8>)
    ensures
        compact_size(compact_size_bytes(count) + tail) == Some(
            (count, compact_size_bytes(count).len()),
        ),
        (compact_size_bytes(count) + tail).skip(compact_size_bytes(count).len() as int) == tail,
{
    let head = compact_size_bytes(count);
    let bytes = head + tail;
    lemma_pow256_values();
    if count < 0xFD {
        assert(bytes[0] == count);
    } else {
        let width: nat = if count <= 0xFFFF {
            2
        } else if count <= 0xFFFF_FFFF {
            4
        } else {
            8
        };
        lemma_le_bytes_len(count as nat, width);
        assert(bytes[0] == head[0]);
        assert(bytes.subrange(1, 1 + width as int) == le_bytes(count as nat, width));
        lemma_le_value_of_bytes(count as nat, width);
    }
    assert(bytes.skip(head.len() as int) == tail);
}

/// A count that is read from bytes fits in 64 bits.
pub proof fn lemma_compact_size_bound(bytes: Seq<u8>)
    ensures
        bytes.len() > 0 && bytes.len() >= 1 + payload_width(bytes[0]) ==> le_value(
            bytes.subrange(1, 1 + payload_width(bytes[0]) as int),
        ) <= u64::MAX,
        compact_size(bytes) is Some ==> 1 <= compact_size(bytes).unwrap().1 <= bytes.len(),
{
    if bytes.len() > 0 && bytes.len() >= 1 + payload_width(bytes[0]) {
        lemma_le_value_bound(bytes.subrange(1, 1 + payload_width(bytes[0]) as int));
        lemma_pow256_values();
    }
}

/// `bitcoin::consensus::encode::deserialize_partial` for a `VarInt`: the count
/// in compact-size form at the head of `data` and the number of bytes read. It
/// fails where `data` ends before the count does, and where the count is not
/// in its shortest form.
#[verifier::external_body]
pub(crate) fn decode_varint(data: &[u8]) -> (r: Result<
    (u64, usize),
    bitcoin::consensus::encode::Error,
>)
    ensures
        r is Ok <==> compact_size(data@) is Some,
        r is Ok ==> r.unwrap().0 == compact_size(data@).unwrap().0 && r.unwrap().1 == compact_size(
            data@,
        ).unwrap().1,
{
    deserialize_partial::<VarInt>(data).map(|(count, used)| (count.0, used))
}

} // verus!
