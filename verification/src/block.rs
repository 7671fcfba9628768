//! Blocks: a run of bytes framed by two lengths, stored as it is or
//! deflated, whichever is shorter.

use crate::endian::{
    i32_from_le, i32_to_le, i32_wire, le_bytes, le_value, lemma_le_bytes_len, lemma_le_limits,
    lemma_le_value_bound, lemma_le_value_bytes, u16_from_le,
};
use crate::read::ReadError;
use crate::scalar::MAX_LEN;
use crate::write::WriteError;
use flate2::read::ZlibDecoder;
use flate2::write::ZlibEncoder;
use flate2::Compression;
use std::io::{Read, Write};
use vstd::prelude::*;

verus! {

/// The zlib stream that the deflater makes of `data` at its default level.
pub uninterp spec fn deflated(data: Seq<u8>) -> Seq<u8>;

/// What the inflater makes of `data`: the bytes that a zlib stream stands
/// for, or nothing where `data` is not such a stream.
pub uninterp spec fn inflated(data: Seq<u8>) -> Option<Seq<u8>>;

/// `flate2::write::ZlibEncoder` at `Compression::default()`, fed all of
/// `data` and finished into a `Vec<u8>`. Deflating is lossless: the inflater
/// gives `data` back from the result.
#[verifier::external_body]
fn deflate(data: &Vec<u8>) -> (out: Vec<u8>)
    ensures
        out@ == deflated(data@),
        inflated(out@) == Some(data@),
{
    let mut encoder = ZlibEncoder::new(Vec::new(), Compression::default());
    encoder.write_all(data).expect("a Vec<u8> takes every write");
    encoder.finish().expect("a Vec<u8> takes every write")
}

/// `flate2::read::ZlibDecoder` over `data`, read to its end.
#[verifier::external_body]
fn inflate(data: &Vec<u8>) -> (out: Option<Vec<u8>>)
    ensures
        match out {
            Some(bytes) => inflated(data@) == Some(bytes@),
            None => inflated(data@) is None,
        },
{
    let mut bytes = Vec::new();
    match ZlibDecoder::new(data.as_slice()).read_to_end(&mut bytes) {
        Ok(_) => Some(bytes),
        Err(_) => None,
    }
}

// ---------------------------------------------------------------------------
// What a block is
// ---------------------------------------------------------------------------

/// A block that holds its payload as it is: the payload's length, a zero,
/// the payload.
pub open spec fn stored_block(payload: Seq<u8>) -> Seq<u8> {
    le_bytes(payload.len(), 4) + le_bytes(0, 4) + payload
}

/// A block that holds its payload deflated: the payload's length, the
/// length of the deflated bytes, the deflated bytes.
pub open spec fn packed_block(payload: Seq<u8>, packed: Seq<u8>) -> Seq<u8> {
    le_bytes(payload.len(), 4) + le_bytes(packed.len(), 4) + packed
}

/// Whether deflated bytes are used for a payload: only where they are
/// shorter; never where they are none, since a length of zero says that the
/// payload is stored as it is; and never where the inflater would not give
/// the payload back, which does not happen with what the deflater makes.
pub open spec fn shrinks(payload: Seq<u8>, packed: Seq<u8>) -> bool {
    0 < packed.len() < payload.len() && inflated(packed) == Some(payload)
}

/// The block that is written for a payload.
pub open spec fn block_bytes(payload: Seq<u8>) -> Seq<u8> {
    if shrinks(payload, deflated(payload)) {
        packed_block(payload, deflated(payload))
    } else {
        stored_block(payload)
    }
}

/// Whether `wire` is a block that holds `payload`, stored or deflated by
/// any deflater.
pub open spec fn frames(wire: Seq<u8>, payload: Seq<u8>) -> bool {
    &&& payload.len() <= MAX_LEN
    &&& {
        ||| wire == stored_block(payload)
        ||| exists|packed: Seq<u8>|
            0 < packed.len() <= MAX_LEN && inflated(packed) == Some(payload) && wire
                == #[trigger] packed_block(payload, packed)
    }
}

/// A block read from the front of `s`: its payload and the bytes behind it.
pub open spec fn parse_block(s: Seq<u8>) -> Result<(Seq<u8>, Seq<u8>), ReadError> {
    if s.len() < 8 {
        Err(ReadError::Truncated)
    } else {
        let size = le_value(s.subrange(0, 4));
        let packed = le_value(s.subrange(4, 8));
        let body = s.skip(8);
        if size > MAX_LEN || packed > MAX_LEN {
            Err(ReadError::BadLength)
        } else if packed == 0 {
            if body.len() < size {
                Err(ReadError::Truncated)
            } else {
                Ok((body.take(size as int), body.skip(size as int)))
            }
        } else if body.len() < packed {
            Err(ReadError::Truncated)
        } else {
            match inflated(body.take(packed as int)) {
                None => Err(ReadError::Inflate),
                Some(payload) => if payload.len() != size {
                    Err(ReadError::LengthMismatch)
                } else {
                    Ok((payload, body.skip(packed as int)))
                },
            }
        }
    }
}

/// The block that is written for a payload holds it.
pub proof fn lemma_block_frames(payload: Seq<u8>)
    requires
        payload.len() <= MAX_LEN,
    ensures
        frames(block_bytes(payload), payload),
{
    if shrinks(payload, deflated(payload)) {
        assert(block_bytes(payload) == packed_block(payload, deflated(payload)));
    }
}

/// A block is read back as the payload that it holds, whatever follows it.
pub proof fn lemma_parse_block(wire: Seq<u8>, payload: Seq<u8>, rest: Seq<u8>)
    requires
        frames(wire, payload),
    ensures
        parse_block(wire + rest) == Ok::<_, ReadError>((payload, rest)),
{
    let s = wire + rest;
    lemma_le_limits();
    lemma_le_bytes_len(payload.len(), 4);
    lemma_le_value_bytes(payload.len(), 4);
    if wire == stored_block(payload) {
        lemma_le_bytes_len(0, 4);
        lemma_le_value_bytes(0, 4);
        assert(s.subrange(0, 4) =~= le_bytes(payload.len(), 4));
        assert(s.subrange(4, 8) =~= le_bytes(0, 4));
        assert(s.skip(8).take(payload.len() as int) =~= payload);
        assert(s.skip(8).skip(payload.len() as int) =~= rest);
    } else {
        let packed = choose|packed: Seq<u8>|
            0 < packed.len() <= MAX_LEN && inflated(packed) == Some(payload) && wire
                == #[trigger] packed_block(payload, packed);
        lemma_le_bytes_len(packed.len(), 4);
        lemma_le_value_bytes(packed.len(), 4);
        assert(s.subrange(0, 4) =~= le_bytes(payload.len(), 4));
        assert(s.subrange(4, 8) =~= le_bytes(packed.len(), 4));
        assert(s.skip(8).take(packed.len() as int) =~= packed);
        assert(s.skip(8).skip(packed.len() as int) =~= rest);
    }
}

// ---------------------------------------------------------------------------
// Bytes in and out
// ---------------------------------------------------------------------------

/// Appends `bytes` to `out`.
pub fn push_all(out: &mut Vec<u8>, bytes: &[u8])
    ensures
        final(out)@ == old(out)@ + bytes@,
{
    let ghost start = out@;
    let mut i: usize = 0;
    while i < bytes.len()
        invariant
            i <= bytes.len(),
            out@ == start + bytes@.take(i as int),
        decreases bytes.len() - i,
    {
        out.push(bytes[i]);
        proof {
            assert(out@ =~= start + bytes@.take(i + 1));
        }
        i = i + 1;
    }
    proof {
        assert(bytes@.take(bytes@.len() as int) =~= bytes@);
    }
}

/// Appends the block for `payload` to `out`, unless the payload is too long
/// for its length to be said; then `out` stays as it is.
pub fn write_block(out: &mut Vec<u8>, payload: &Vec<u8>) -> (r: Result<(), WriteError>)
    ensures
        match r {
            Ok(()) => payload@.len() <= MAX_LEN && final(out)@ == old(out)@ + block_bytes(
                payload@,
            ),
            Err(e) => e == WriteError::TooLarge && payload@.len() > MAX_LEN && final(out)@ == old(out)@,
        },
{
    if payload.len() > MAX_LEN {
        return Err(WriteError::TooLarge);
    }
    let ghost start = out@;
    let packed = deflate(payload);
    let size = i32_to_le(payload.len() as i32);
    push_all(out, size.as_slice());
    if 0 < packed.len() && packed.len() < payload.len() {
        let packed_size = i32_to_le(packed.len() as i32);
        push_all(out, packed_size.as_slice());
        push_all(out, packed.as_slice());
        proof {
            assert(out@ =~= start + packed_block(payload@, packed@));
        }
    } else {
        let zero = i32_to_le(0);
        push_all(out, zero.as_slice());
        push_all(out, payload.as_slice());
        proof {
            assert(out@ =~= start + stored_block(payload@));
        }
    }
    Ok(())
}

/// Bytes to be read front to back.
pub struct ByteSource {
    bytes: Vec<u8>,
    at: usize,
}

impl View for ByteSource {
    type V = Seq<u8>;

    /// The bytes that have not been read yet.
    closed spec fn view(&self) -> Seq<u8> {
        self.bytes@.skip(self.at as int)
    }
}

impl ByteSource {
    #[verifier::type_invariant]
    spec fn wf(self) -> bool {
        self.at <= self.bytes@.len()
    }

    /// A source over `bytes`.
    pub fn new(bytes: Vec<u8>) -> (s: ByteSource)
        ensures
            s@ == bytes@,
    {
        proof {
            assert(bytes@.skip(0) =~= bytes@);
        }
        ByteSource { bytes, at: 0 }
    }

    /// Reads `n` bytes, or none where fewer are left; then the source stays
    /// as it is.
    pub fn take(&mut self, n: usize) -> (r: Option<Vec<u8>>)
        ensures
            match r {
                Some(v) => old(self)@.len() >= n && v@ == old(self)@.take(n as int) && final(self)@
                    == old(self)@.skip(n as int),
                None => old(self)@.len() < n && final(self)@ == old(self)@,
            },
    {
        proof {
            use_type_invariant(&*self);
        }
        if self.bytes.len() - self.at < n {
            return None;
        }
        let ghost s = self@;
        let total = self.bytes.len();
        let mut out: Vec<u8> = Vec::new();
        let mut i: usize = 0;
        while i < n
            invariant
                i <= n,
                total == self.bytes@.len(),
                self.at + n <= total,
                s == self.bytes@.skip(self.at as int),
                out@ == s.take(i as int),
            decreases n - i,
        {
            out.push(self.bytes[self.at + i]);
            proof {
                assert(out@ =~= s.take(i + 1));
            }
            i = i + 1;
        }
        self.at = self.at + n;
        proof {
            assert(self@ =~= s.skip(n as int));
        }
        Some(out)
    }

    /// Reads a signed 32-bit number of four bytes, lowest first.
    pub fn read_i32(&mut self) -> (r: Option<i32>)
        ensures
            match r {
                Some(v) => old(self)@.len() >= 4 && i32_wire(v) == le_value(old(self)@.take(4))
                    && final(self)@ == old(self)@.skip(4),
                None => old(self)@.len() < 4 && final(self)@ == old(self)@,
            },
    {
        let bytes = self.take(4)?;
        Some(i32_from_le(bytes.as_slice()))
    }

    /// Reads an unsigned 16-bit number of two bytes, lowest first.
    pub fn read_u16(&mut self) -> (r: Option<u16>)
        ensures
            match r {
                Some(v) => old(self)@.len() >= 2 && v == le_value(old(self)@.take(2)) && final(self)@ == old(self)@.skip(2),
                None => old(self)@.len() < 2 && final(self)@ == old(self)@,
            },
    {
        let bytes = self.take(2)?;
        Some(u16_from_le(bytes.as_slice()))
    }

    /// Reads a block and hands out its payload.
    pub fn read_block(&mut self) -> (r: Result<Vec<u8>, ReadError>)
        ensures
            match r {
                Ok(payload) => parse_block(old(self)@) == Ok::<_, ReadError>(
                    (payload@, final(self)@),
                ),
                Err(e) => parse_block(old(self)@) == Err::<(Seq<u8>, Seq<u8>), _>(e),
            },
    {
        let ghost s = self@;
        let size = match self.read_i32() {
            Some(v) => v,
            None => {
                return Err(ReadError::Truncated);
            },
        };
        let packed = match self.read_i32() {
            Some(v) => v,
            None => {
                return Err(ReadError::Truncated);
            },
        };
        proof {
            assert(s.take(4) =~= s.subrange(0, 4));
            assert(s.skip(4).take(4) =~= s.subrange(4, 8));
            assert(s.skip(4).skip(4) =~= s.skip(8));
            lemma_le_value_bound(s.subrange(0, 4));
            lemma_le_value_bound(s.subrange(4, 8));
            lemma_le_limits();
        }
        if size < 0 || packed < 0 {
            return Err(ReadError::BadLength);
        }
        if packed == 0 {
            match self.take(size as usize) {
                Some(payload) => Ok(payload),
                None => Err(ReadError::Truncated),
            }
        } else {
            let body = match self.take(packed as usize) {
                Some(v) => v,
                None => {
                    return Err(ReadError::Truncated);
                },
            };
            match inflate(&body) {
                None => Err(ReadError::Inflate),
                Some(payload) => if payload.len() != size as usize {
                    Err(ReadError::LengthMismatch)
                } else {
                    Ok(payload)
                },
            }
        }
    }
}

} // verus!
