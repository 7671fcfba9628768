//! Bit sequences read as numbers and as bytes, least significant bit first.

use vstd::arithmetic::power2::{lemma2_to64, lemma_pow2_unfold, pow2};
use vstd::prelude::*;

verus! {

/// The `w` low bits of `v`, lowest first.
pub open spec fn uint_bits(v: nat, w: nat) -> Seq<bool>
    decreases w,
{
    if w == 0 {
        Seq::empty()
    } else {
        seq![v % 2 == 1] + uint_bits(v / 2, (w - 1) as nat)
    }
}

/// The number whose binary digits are `bits`, lowest first.
pub open spec fn uint_value(bits: Seq<bool>) -> nat
    decreases bits.len(),
{
    if bits.len() == 0 {
        0
    } else {
        (if bits[0] { 1nat } else { 0nat }) + 2 * uint_value(bits.drop_first())
    }
}

/// Eight bits for every byte, in order.
pub open spec fn bytes_bits(bytes: Seq<u8>) -> Seq<bool>
    decreases bytes.len(),
{
    if bytes.len() == 0 {
        Seq::empty()
    } else {
        uint_bits(bytes[0] as nat, 8) + bytes_bits(bytes.drop_first())
    }
}

/// One byte for every full group of eight bits; a shorter tail is dropped.
pub open spec fn bits_bytes(bits: Seq<bool>) -> Seq<u8>
    decreases bits.len(),
{
    if bits.len() < 8 {
        Seq::empty()
    } else {
        seq![uint_value(bits.take(8)) as u8] + bits_bytes(bits.skip(8))
    }
}

/// How many bits bring a run of `n` bits to a byte boundary.
pub open spec fn pad_len(n: nat) -> nat {
    ((8 - n % 8) % 8) as nat
}

/// `n` zero bits.
pub open spec fn zeros(n: nat) -> Seq<bool> {
    Seq::new(n, |i: int| false)
}

/// `bits` followed by zero bits up to the next byte boundary.
pub open spec fn padded(bits: Seq<bool>) -> Seq<bool> {
    bits + zeros(pad_len(bits.len()))
}

/// The bytes that a run of bits makes once it is padded to whole bytes.
pub open spec fn payload_of(bits: Seq<bool>) -> Seq<u8> {
    bits_bytes(padded(bits))
}

/// What is left of a byte-made stream once the bits of its current byte are dropped.
pub open spec fn realigned(rest: Seq<bool>) -> Seq<bool> {
    rest.skip((rest.len() % 8) as int)
}

/// `w` bits are written for a width of `w`.
pub proof fn lemma_uint_bits_len(v: nat, w: nat)
    ensures
        uint_bits(v, w).len() == w,
    decreases w,
{
    if w > 0 {
        lemma_uint_bits_len(v / 2, (w - 1) as nat);
    }
}

/// The number that bits spell is below two to the power of their count.
pub proof fn lemma_uint_value_bound(bits: Seq<bool>)
    ensures
        uint_value(bits) < pow2(bits.len()),
    decreases bits.len(),
{
    if bits.len() == 0 {
        lemma2_to64();
    } else {
        lemma_uint_value_bound(bits.drop_first());
        lemma_pow2_unfold(bits.len());
    }
}

/// A number that fits in `w` bits is read back from them.
pub proof fn lemma_uint_value_bits(v: nat, w: nat)
    requires
        v < pow2(w),
    ensures
        uint_value(uint_bits(v, w)) == v,
    decreases w,
{
    lemma_uint_bits_len(v, w);
    if w == 0 {
        lemma2_to64();
    } else {
        lemma_pow2_unfold(w);
        lemma_uint_value_bits(v / 2, (w - 1) as nat);
        assert(uint_bits(v, w).drop_first() =~= uint_bits(v / 2, (w - 1) as nat));
    }
}

/// Bits are written back from the number they spell.
pub proof fn lemma_uint_bits_value(bits: Seq<bool>)
    ensures
        uint_bits(uint_value(bits), bits.len()) == bits,
    decreases bits.len(),
{
    if bits.len() == 0 {
        assert(uint_bits(uint_value(bits), bits.len()) =~= bits);
    } else {
        let tail = bits.drop_first();
        lemma_uint_bits_value(tail);
        assert(uint_bits(uint_value(bits), bits.len()) =~= bits);
    }
}

/// Bytes spread into eight bits each.
pub proof fn lemma_bytes_bits_len(bytes: Seq<u8>)
    ensures
        bytes_bits(bytes).len() == 8 * bytes.len(),
    decreases bytes.len(),
{
    if bytes.len() > 0 {
        lemma_uint_bits_len(bytes[0] as nat, 8);
        lemma_bytes_bits_len(bytes.drop_first());
    }
}

/// The bits of bytes joined are the bits of the ones, then of the others.
pub proof fn lemma_bytes_bits_concat(a: Seq<u8>, b: Seq<u8>)
    ensures
        bytes_bits(a + b) == bytes_bits(a) + bytes_bits(b),
    decreases a.len(),
{
    if a.len() == 0 {
        assert(a + b =~= b);
        assert(bytes_bits(a) + bytes_bits(b) =~= bytes_bits(b));
    } else {
        lemma_bytes_bits_concat(a.drop_first(), b);
        assert((a + b).drop_first() =~= a.drop_first() + b);
        assert(bytes_bits(a + b) =~= bytes_bits(a) + bytes_bits(b));
    }
}

/// Bits gather into one byte for every eight.
pub proof fn lemma_bits_bytes_len(bits: Seq<bool>)
    ensures
        bits_bytes(bits).len() == bits.len() / 8,
    decreases bits.len(),
{
    if bits.len() >= 8 {
        lemma_bits_bytes_len(bits.skip(8));
    }
}

/// Bytes spread into bits and gathered again are unchanged.
pub proof fn lemma_bits_bytes_of_bytes(bytes: Seq<u8>)
    ensures
        bits_bytes(bytes_bits(bytes)) == bytes,
    decreases bytes.len(),
{
    if bytes.len() == 0 {
        assert(bits_bytes(bytes_bits(bytes)) =~= bytes);
    } else {
        let head = uint_bits(bytes[0] as nat, 8);
        let tail = bytes_bits(bytes.drop_first());
        lemma_uint_bits_len(bytes[0] as nat, 8);
        lemma_bits_bytes_of_bytes(bytes.drop_first());
        assert((head + tail).take(8) =~= head);
        assert((head + tail).skip(8) =~= tail);
        lemma2_to64();
        lemma_uint_value_bits(bytes[0] as nat, 8);
        assert(bits_bytes(bytes_bits(bytes)) =~= bytes);
    }
}

/// Whole bytes of bits gathered into bytes and spread again are unchanged.
pub proof fn lemma_bytes_bits_of_bits(bits: Seq<bool>)
    requires
        bits.len() % 8 == 0,
    ensures
        bytes_bits(bits_bytes(bits)) == bits,
    decreases bits.len(),
{
    if bits.len() < 8 {
        assert(bytes_bits(bits_bytes(bits)) =~= bits);
    } else {
        let head = bits.take(8);
        let tail = bits.skip(8);
        lemma_bytes_bits_of_bits(tail);
        lemma_uint_value_bound(head);
        lemma2_to64();
        lemma_uint_bits_value(head);
        let bytes = bits_bytes(bits);
        assert(bytes.drop_first() =~= bits_bytes(tail));
        assert(bytes_bits(bytes) =~= head + tail);
        assert(head + tail =~= bits);
    }
}

/// Padded bits end at a byte boundary; bits that do so already stay as they are.
pub proof fn lemma_padded_aligned(bits: Seq<bool>)
    ensures
        padded(bits).len() % 8 == 0,
        padded(bits).len() == bits.len() + pad_len(bits.len()),
        pad_len(bits.len()) < 8,
        bits.len() % 8 == 0 ==> padded(bits) == bits,
{
    if bits.len() % 8 == 0 {
        assert(padded(bits) =~= bits);
    }
}

/// Padding after an aligned prefix pads what follows the prefix.
pub proof fn lemma_padded_concat(a: Seq<bool>, b: Seq<bool>)
    requires
        a.len() % 8 == 0,
    ensures
        padded(a + b) == a + padded(b),
{
    assert(pad_len((a + b).len()) == pad_len(b.len()));
    assert(padded(a + b) =~= a + padded(b));
}

/// A reader that stands just behind a record skips the record's padding.
pub proof fn lemma_realigned_padding(n: nat, rest: Seq<bool>)
    requires
        rest.len() % 8 == 0,
    ensures
        realigned(zeros(pad_len(n)) + rest) == rest,
{
    assert(realigned(zeros(pad_len(n)) + rest) =~= rest);
}

} // verus!
