//! Bit-granular output and input over byte buffers.

use crate::bits::{bits_bytes, bytes_bits, padded, realigned, uint_value};
use bitstream_io::{BitRead, BitReader, BitWrite, BitWriter, LittleEndian};
use std::io::Cursor;
use vstd::prelude::*;

verus! {

/// A growable run of bits, kept by a little-endian `bitstream_io::BitWriter`
/// over a `Vec<u8>`.
#[verifier::external_body]
pub struct BitSink {
    inner: BitWriter<Vec<u8>, LittleEndian>,
}

/// Every bit written to the sink so far, oldest first.
pub uninterp spec fn sink_bits(s: BitSink) -> Seq<bool>;

/// A run of bits to be read front to back, kept by a little-endian
/// `bitstream_io::BitReader` over the bytes it was opened on.
#[verifier::external_body]
pub struct BitSource {
    inner: BitReader<Cursor<Vec<u8>>, LittleEndian>,
}

/// The bits of the source that have not been read yet, next first.
pub uninterp spec fn source_bits(s: BitSource) -> Seq<bool>;

impl View for BitSink {
    type V = Seq<bool>;

    open spec fn view(&self) -> Seq<bool> {
        sink_bits(*self)
    }
}

impl View for BitSource {
    type V = Seq<bool>;

    open spec fn view(&self) -> Seq<bool> {
        source_bits(*self)
    }
}

impl BitSink {
    /// `BitWriter::endian` over an empty `Vec<u8>`: no bit has been written.
    #[verifier::external_body]
    fn open() -> (s: BitSink)
        ensures
            sink_bits(s) == Seq::<bool>::empty(),
    {
        BitSink { inner: BitWriter::endian(Vec::new(), LittleEndian) }
    }

    /// `BitWrite::write_bit`: the bit follows what was written before. The
    /// writer only fails where its byte sink does, and a `Vec<u8>` takes every
    /// write.
    #[verifier::external_body]
    pub(crate) fn write_bit(&mut self, bit: bool)
        ensures
            sink_bits(*final(self)) == sink_bits(*old(self)).push(bit),
    {
        self.inner.write_bit(bit).expect("a Vec<u8> takes every write")
    }

    /// `BitWrite::write_bytes`: each byte in turn, its lowest bit first,
    /// whether or not the sink stands at a byte boundary.
    #[verifier::external_body]
    pub(crate) fn write_bytes(&mut self, bytes: &[u8])
        ensures
            sink_bits(*final(self)) == sink_bits(*old(self)) + bytes_bits(bytes@),
    {
        self.inner.write_bytes(bytes).expect("a Vec<u8> takes every write")
    }

    /// `BitWrite::byte_align`: zero bits are written until the count of bits
    /// is a multiple of eight.
    #[verifier::external_body]
    pub(crate) fn byte_align(&mut self)
        ensures
            sink_bits(*final(self)) == padded(sink_bits(*old(self))),
    {
        self.inner.byte_align().expect("a Vec<u8> takes every write")
    }

    /// `BitWriter::into_writer`: the bytes made of the full groups of eight
    /// bits; bits past the last boundary are discarded.
    #[verifier::external_body]
    fn into_writer(self) -> (out: Vec<u8>)
        ensures
            out@ == bits_bytes(sink_bits(self)),
    {
        self.inner.into_writer()
    }

    /// An empty sink.
    pub fn new() -> (s: BitSink)
        ensures
            s@ == Seq::<bool>::empty(),
    {
        BitSink::open()
    }

    /// Pads the bits to a byte boundary and hands them out as bytes.
    pub fn finish(self) -> (out: Vec<u8>)
        ensures
            out@ == bits_bytes(padded(self@)),
    {
        let mut sink = self;
        sink.byte_align();
        sink.into_writer()
    }
}

impl BitSource {
    /// `BitReader::endian` over a cursor on `bytes`: all their bits are still
    /// to be read, the lowest bit of the first byte first.
    #[verifier::external_body]
    fn open(bytes: Vec<u8>) -> (s: BitSource)
        ensures
            source_bits(s) == bytes_bits(bytes@),
    {
        BitSource { inner: BitReader::endian(Cursor::new(bytes), LittleEndian) }
    }

    /// `BitRead::read_bit`: the next bit, or nothing once the bytes are used
    /// up.
    #[verifier::external_body]
    pub(crate) fn read_bit(&mut self) -> (r: Option<bool>)
        ensures
            match r {
                Some(bit) => source_bits(*old(self)).len() > 0 && bit == source_bits(*old(self))[0]
                    && source_bits(*final(self)) == source_bits(*old(self)).drop_first(),
                None => source_bits(*old(self)).len() == 0,
            },
    {
        self.inner.read_bit().ok()
    }

    /// `BitRead::read_bytes` into one byte: the next eight bits as a byte,
    /// lowest bit first, or nothing where fewer than eight are left.
    #[verifier::external_body]
    pub(crate) fn read_byte(&mut self) -> (r: Option<u8>)
        ensures
            match r {
                Some(byte) => source_bits(*old(self)).len() >= 8 && byte == uint_value(
                    source_bits(*old(self)).take(8),
                ) && source_bits(*final(self)) == source_bits(*old(self)).skip(8),
                None => source_bits(*old(self)).len() < 8,
            },
    {
        let mut buf = [0u8; 1];
        match self.inner.read_bytes(&mut buf) {
            Ok(()) => Some(buf[0]),
            Err(_) => None,
        }
    }

    /// `BitRead::byte_align`: the unread bits of the current byte are dropped.
    /// The source was opened on whole bytes, so these are as many as the
    /// count of unread bits exceeds a multiple of eight.
    #[verifier::external_body]
    pub(crate) fn byte_align(&mut self)
        ensures
            source_bits(*final(self)) == realigned(source_bits(*old(self))),
    {
        self.inner.byte_align()
    }

    /// A source over the bits of `bytes`.
    pub fn new(bytes: Vec<u8>) -> (s: BitSource)
        ensures
            s@ == bytes_bits(bytes@),
    {
        BitSource::open(bytes)
    }
}

} // verus!
