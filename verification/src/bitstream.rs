//! Bit streams over byte buffers, most significant bit first.
//!
//! The streams are those of the `bitstream_io` crate. Nothing in this module is
//! proved: each function states what the crate's reader or writer does, in terms
//! of the bits that a stream holds.

use crate::bits::{be_bits, be_value, bits_of, pack, padding, zeros};
use bitstream_io::{BigEndian, BitRead, BitReader, BitWrite, BitWriter};
use vstd::arithmetic::power2::pow2;
use vstd::prelude::*;

verus! {

/// A `bitstream_io::BitWriter` in big-endian order that collects its output in memory.
#[verifier::external_body]
pub struct BitSink {
    inner: BitWriter<Vec<u8>, BigEndian>,
}

/// A `bitstream_io::BitReader` in big-endian order over a borrowed byte string.
#[verifier::external_body]
pub struct BitSource<'a> {
    inner: BitReader<&'a [u8], BigEndian>,
}

/// Every bit written to the sink so far, in the order written.
pub uninterp spec fn written_bits(sink: BitSink) -> Seq<bool>;

/// The bits that the source has not handed out yet, in the order in which it will.
pub uninterp spec fn unread_bits(source: BitSource) -> Seq<bool>;

impl BitSink {
    /// `BitWriter::new` over an empty `Vec<u8>`: a stream to which nothing was written.
    #[verifier::external_body]
    pub(crate) fn new() -> (sink: BitSink)
        ensures
            written_bits(sink) == Seq::<bool>::empty(),
    {
        BitSink { inner: BitWriter::new(Vec::new()) }
    }

    /// `BitWrite::write_bit`: appends one bit. Writing into a `Vec` does not fail.
    #[verifier::external_body]
    pub(crate) fn write_bit(&mut self, bit: bool)
        ensures
            written_bits(*final(self)) == written_bits(*old(self)).push(bit),
    {
        self.inner.write_bit(bit).unwrap()
    }

    /// `BitWrite::write` on a `u64`: appends the `width` low digits of `value`,
    /// most significant first. The crate rejects a width above 64 and a value
    /// that does not fit the width; both are excluded here.
    #[verifier::external_body]
    pub(crate) fn write_bits(&mut self, width: u32, value: u64)
        requires
            width <= 64,
            value < pow2(width as nat),
        ensures
            written_bits(*final(self)) == written_bits(*old(self)) + be_bits(
                value as nat,
                width as nat,
            ),
    {
        self.inner.write(width, value).unwrap()
    }

    /// `BitWrite::byte_align`: appends zero bits up to the next byte boundary,
    /// none if the stream is on one.
    #[verifier::external_body]
    pub(crate) fn byte_align(&mut self)
        ensures
            written_bits(*final(self)) == written_bits(*old(self)) + zeros(
                padding(written_bits(*old(self)).len()),
            ),
    {
        self.inner.byte_align().unwrap()
    }

    /// `BitWriter::into_writer`: the bytes written; bits of an unfinished last
    /// byte are dropped.
    #[verifier::external_body]
    pub(crate) fn into_bytes(self) -> (bytes: Vec<u8>)
        ensures
            bytes@ == pack(written_bits(self)),
    {
        self.inner.into_writer()
    }
}

impl<'a> BitSource<'a> {
    /// `BitReader::new` over a byte slice: every bit of `data` is still to be read.
    #[verifier::external_body]
    pub(crate) fn new(data: &'a [u8]) -> (source: BitSource<'a>)
        ensures
            unread_bits(source) == bits_of(data@),
    {
        BitSource { inner: BitReader::new(data) }
    }

    /// `BitRead::read_bit`: hands out the next bit, or fails at the end of the
    /// input. After a failure nothing is said of the source.
    #[verifier::external_body]
    pub(crate) fn read_bit(&mut self) -> (bit: Option<bool>)
        ensures
            bit is Some <==> unread_bits(*old(self)).len() > 0,
            bit is Some ==> bit == Some(unread_bits(*old(self))[0]) && unread_bits(*final(self))
                == unread_bits(*old(self)).skip(1),
    {
        self.inner.read_bit().ok()
    }

    /// `BitRead::read` into a `u64`: hands out the next `width` bits as a number,
    /// most significant first, or fails where fewer are left. After a failure
    /// nothing is said of the source.
    #[verifier::external_body]
    pub(crate) fn read_bits(&mut self, width: u32) -> (value: Option<u64>)
        requires
            width <= 64,
        ensures
            value is Some <==> unread_bits(*old(self)).len() >= width,
            value is Some ==> value.unwrap() == be_value(
                unread_bits(*old(self)).take(width as int),
            ) && unread_bits(*final(self)) == unread_bits(*old(self)).skip(width as int),
    {
        self.inner.read::<u64>(width).ok()
    }
}

} // verus!
