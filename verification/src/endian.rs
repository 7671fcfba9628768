//! Fixed-width integers as little-endian bytes.

use byteorder::{ByteOrder, LittleEndian};
use vstd::prelude::*;

verus! {

/// The `n` low bytes of `v`, lowest first.
pub open spec fn le_bytes(v: nat, n: nat) -> Seq<u8>
    decreases n,
{
    if n == 0 {
        Seq::empty()
    } else {
        seq![(v % 256) as u8] + le_bytes(v / 256, (n - 1) as nat)
    }
}

/// The number whose base-256 digits are `bytes`, lowest first.
pub open spec fn le_value(bytes: Seq<u8>) -> nat
    decreases bytes.len(),
{
    if bytes.len() == 0 {
        0
    } else {
        bytes[0] as nat + 256 * le_value(bytes.drop_first())
    }
}

/// A signed 32-bit number as the unsigned number with the same bits.
pub open spec fn i32_wire(v: i32) -> nat {
    if v >= 0 {
        v as nat
    } else {
        (v + 0x1_0000_0000) as nat
    }
}

/// The signed 32-bit number with the bits of `w`, for `w` below 2^32.
pub open spec fn i32_unwire(w: nat) -> i32 {
    if w < 0x8000_0000 {
        w as i32
    } else {
        (w - 0x1_0000_0000) as i32
    }
}

/// `n` bytes are written for a width of `n` bytes.
pub proof fn lemma_le_bytes_len(v: nat, n: nat)
    ensures
        le_bytes(v, n).len() == n,
    decreases n,
{
    if n > 0 {
        lemma_le_bytes_len(v / 256, (n - 1) as nat);
    }
}

/// The bound that `n` bytes put on a number.
pub open spec fn le_limit(n: nat) -> nat
    decreases n,
{
    if n == 0 {
        1
    } else {
        256 * le_limit((n - 1) as nat)
    }
}

/// The bounds that one to four bytes put on a number.
pub proof fn lemma_le_limits()
    ensures
        le_limit(0) == 1,
        le_limit(1) == 0x100,
        le_limit(2) == 0x1_0000,
        le_limit(3) == 0x100_0000,
        le_limit(4) == 0x1_0000_0000,
{
    reveal_with_fuel(le_limit, 5);
}

/// The number that bytes spell is below the bound of their count.
pub proof fn lemma_le_value_bound(bytes: Seq<u8>)
    ensures
        le_value(bytes) < le_limit(bytes.len()),
    decreases bytes.len(),
{
    if bytes.len() > 0 {
        lemma_le_value_bound(bytes.drop_first());
    }
}

/// A number that fits in `n` bytes is read back from them.
pub proof fn lemma_le_value_bytes(v: nat, n: nat)
    requires
        v < le_limit(n),
    ensures
        le_value(le_bytes(v, n)) == v,
    decreases n,
{
    lemma_le_bytes_len(v, n);
    if n > 0 {
        lemma_le_value_bytes(v / 256, (n - 1) as nat);
        assert(le_bytes(v, n).drop_first() =~= le_bytes(v / 256, (n - 1) as nat));
    }
}

/// Bytes are written back from the number they spell.
pub proof fn lemma_le_bytes_value(bytes: Seq<u8>)
    ensures
        le_bytes(le_value(bytes), bytes.len()) == bytes,
    decreases bytes.len(),
{
    if bytes.len() == 0 {
        assert(le_bytes(le_value(bytes), bytes.len()) =~= bytes);
    } else {
        lemma_le_bytes_value(bytes.drop_first());
        assert(le_bytes(le_value(bytes), bytes.len()) =~= bytes);
    }
}

/// A signed number and the unsigned number with its bits stand for each other.
pub proof fn lemma_i32_wire(v: i32)
    ensures
        i32_wire(v) < 0x1_0000_0000,
        i32_unwire(i32_wire(v)) == v,
        v >= 0 <==> i32_wire(v) < 0x8000_0000,
{
}

/// `LittleEndian::write_i32` into a buffer of four bytes: the two's
/// complement bits of `v`, lowest byte first.
#[verifier::external_body]
pub(crate) fn i32_to_le(v: i32) -> (out: [u8; 4])
    ensures
        out@ == le_bytes(i32_wire(v), 4),
{
    let mut buf = [0u8; 4];
    LittleEndian::write_i32(&mut buf, v);
    buf
}

/// `LittleEndian::read_i32` on four bytes: the signed number whose two's
/// complement bits they hold, lowest byte first.
#[verifier::external_body]
pub(crate) fn i32_from_le(bytes: &[u8]) -> (v: i32)
    requires
        bytes@.len() == 4,
    ensures
        i32_wire(v) == le_value(bytes@),
{
    LittleEndian::read_i32(bytes)
}

/// `LittleEndian::write_u16` into a buffer of two bytes: low byte, then high
/// byte.
#[verifier::external_body]
pub(crate) fn u16_to_le(v: u16) -> (out: [u8; 2])
    ensures
        out@ == le_bytes(v as nat, 2),
{
    let mut buf = [0u8; 2];
    LittleEndian::write_u16(&mut buf, v);
    buf
}

/// `LittleEndian::read_u16` on two bytes: the first is the low byte.
#[verifier::external_body]
pub(crate) fn u16_from_le(bytes: &[u8]) -> (v: u16)
    requires
        bytes@.len() == 2,
    ensures
        v as nat == le_value(bytes@),
{
    LittleEndian::read_u16(bytes)
}

} // verus!
