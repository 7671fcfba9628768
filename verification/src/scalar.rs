//! The numbers, byte runs and texts of the format, on a run of bits: what
//! each is written as, how each is read, and that reading undoes writing.

use crate::bits::{
    bits_bytes, bytes_bits, lemma_bits_bytes_of_bytes, lemma_bytes_bits_len, lemma_uint_bits_len,
    lemma_uint_value_bits, lemma_uint_value_bound, uint_bits, uint_value,
};
use crate::endian::{
    i32_from_le, i32_to_le, i32_unwire, i32_wire, le_bytes, le_value, lemma_le_bytes_len,
    lemma_le_limits, lemma_le_value_bound, lemma_le_value_bytes,
};
use crate::stream::{BitSink, BitSource};
use crate::write::WriteError;
use vstd::arithmetic::power2::{lemma2_to64, lemma2_to64_rest, lemma_pow2_unfold, pow2};
use vstd::prelude::*;
use vstd::utf8::{
    decode_utf8, encode_utf8, encode_utf8_decode_utf8, encode_utf8_valid_utf8, valid_utf8,
};

verus! {

/// The largest length or count that the format can say.
pub const MAX_LEN: usize = 0x7fff_ffff;

/// The most groups of seven bits that a packed number may take.
pub const PACKED_GROUPS: u32 = 5;

// ---------------------------------------------------------------------------
// What is written
// ---------------------------------------------------------------------------

/// A signed 32-bit number: four bytes, lowest first.
pub open spec fn i32_bits(v: i32) -> Seq<bool> {
    bytes_bits(le_bytes(i32_wire(v), 4))
}

/// An unsigned 32-bit number: four bytes, lowest first.
pub open spec fn u32_bits(v: u32) -> Seq<bool> {
    bytes_bits(le_bytes(v as nat, 4))
}

/// A length or count: a non-negative signed 32-bit number.
pub open spec fn count_bits(n: nat) -> Seq<bool> {
    bytes_bits(le_bytes(n, 4))
}

/// A text: the count of its UTF-8 bytes, then the bytes.
pub open spec fn text_bits(t: Seq<char>) -> Seq<bool> {
    count_bits(encode_utf8(t).len()) + bytes_bits(encode_utf8(t))
}

/// Whether the length of a text can be said.
pub open spec fn text_fits(t: Seq<char>) -> bool {
    encode_utf8(t).len() <= MAX_LEN
}

/// A packed number: groups of a flag and seven bits of the number, lowest
/// group first; the flag says whether another group follows.
pub open spec fn packed_bits(v: nat) -> Seq<bool>
    decreases v,
{
    if v < 128 {
        seq![false] + uint_bits(v, 7)
    } else {
        seq![true] + uint_bits(v % 128, 7) + packed_bits(v / 128)
    }
}

/// The number that stands for a signed one when it is packed: twice its
/// magnitude, plus one where it is not negative.
pub open spec fn signed_code(v: int) -> nat {
    if v >= 0 {
        (2 * v + 1) as nat
    } else {
        (2 * (-v)) as nat
    }
}

/// The bound on a packed number of at most `groups` groups.
pub open spec fn group_limit(groups: nat) -> nat
    decreases groups,
{
    if groups == 0 {
        1
    } else {
        128 * group_limit((groups - 1) as nat)
    }
}

// ---------------------------------------------------------------------------
// What is read
// ---------------------------------------------------------------------------

/// One bit.
pub open spec fn parse_bit(s: Seq<bool>) -> Option<(bool, Seq<bool>)> {
    if s.len() > 0 {
        Some((s[0], s.drop_first()))
    } else {
        None
    }
}

/// A number of `w` bits, lowest first.
pub open spec fn parse_uint(s: Seq<bool>, w: nat) -> Option<(nat, Seq<bool>)> {
    if s.len() >= w {
        Some((uint_value(s.take(w as int)), s.skip(w as int)))
    } else {
        None
    }
}

/// `n` bytes.
pub open spec fn parse_bytes(s: Seq<bool>, n: nat) -> Option<(Seq<u8>, Seq<bool>)> {
    if s.len() >= 8 * n {
        Some((bits_bytes(s.take(8 * n as int)), s.skip(8 * n as int)))
    } else {
        None
    }
}

/// A signed 32-bit number.
pub open spec fn parse_i32(s: Seq<bool>) -> Option<(i32, Seq<bool>)> {
    match parse_bytes(s, 4) {
        Some((b, r)) => Some((i32_unwire(le_value(b)), r)),
        None => None,
    }
}

/// An unsigned 32-bit number.
pub open spec fn parse_u32(s: Seq<bool>) -> Option<(u32, Seq<bool>)> {
    match parse_bytes(s, 4) {
        Some((b, r)) => Some((le_value(b) as u32, r)),
        None => None,
    }
}

/// A length or count; a negative one is refused.
pub open spec fn parse_count(s: Seq<bool>) -> Option<(nat, Seq<bool>)> {
    match parse_bytes(s, 4) {
        Some((b, r)) => if le_value(b) <= MAX_LEN {
            Some((le_value(b), r))
        } else {
            None
        },
        None => None,
    }
}

/// A text; bytes that are not UTF-8 are refused.
pub open spec fn parse_text(s: Seq<bool>) -> Option<(Seq<char>, Seq<bool>)> {
    match parse_count(s) {
        Some((n, r)) => match parse_bytes(r, n) {
            Some((b, r2)) => if valid_utf8(b) {
                Some((decode_utf8(b), r2))
            } else {
                None
            },
            None => None,
        },
        None => None,
    }
}

/// A packed number of at most `groups` groups.
pub open spec fn parse_packed(s: Seq<bool>, groups: nat) -> Option<(nat, Seq<bool>)>
    decreases groups,
{
    if groups == 0 || s.len() < 8 {
        None
    } else {
        let low = uint_value(s.subrange(1, 8));
        if !s[0] {
            Some((low, s.skip(8)))
        } else {
            match parse_packed(s.skip(8), (groups - 1) as nat) {
                Some((high, r)) => Some((low + 128 * high, r)),
                None => None,
            }
        }
    }
}

/// A packed unsigned 32-bit number; a larger one is refused.
pub open spec fn parse_uint_packed(s: Seq<bool>) -> Option<(u32, Seq<bool>)> {
    match parse_packed(s, PACKED_GROUPS as nat) {
        Some((v, r)) => if v <= u32::MAX {
            Some((v as u32, r))
        } else {
            None
        },
        None => None,
    }
}

/// A packed signed 32-bit number; one outside the type is refused.
pub open spec fn parse_int_packed(s: Seq<bool>) -> Option<(i32, Seq<bool>)> {
    match parse_packed(s, PACKED_GROUPS as nat) {
        Some((code, r)) => {
            let magnitude = code / 2;
            if code % 2 == 1 {
                if magnitude <= i32::MAX {
                    Some((magnitude as i32, r))
                } else {
                    None
                }
            } else {
                if magnitude <= 0x8000_0000 {
                    Some(((-magnitude) as i32, r))
                } else {
                    None
                }
            }
        },
        None => None,
    }
}

// ---------------------------------------------------------------------------
// Reading undoes writing
// ---------------------------------------------------------------------------

/// What was written for a bit is read back, whatever follows it.
pub proof fn lemma_parse_bit(b: bool, rest: Seq<bool>)
    ensures
        parse_bit(seq![b] + rest) == Some((b, rest)),
{
    assert((seq![b] + rest).drop_first() =~= rest);
}

/// What was written for a number of a given width is read back, whatever follows it.
pub proof fn lemma_parse_uint(v: nat, w: nat, rest: Seq<bool>)
    requires
        v < pow2(w),
    ensures
        parse_uint(uint_bits(v, w) + rest, w) == Some((v, rest)),
{
    let bits = uint_bits(v, w);
    lemma_uint_bits_len(v, w);
    lemma_uint_value_bits(v, w);
    assert((bits + rest).take(w as int) =~= bits);
    assert((bits + rest).skip(w as int) =~= rest);
}

/// What was written for a run of bytes is read back, whatever follows it.
pub proof fn lemma_parse_bytes(bytes: Seq<u8>, rest: Seq<bool>)
    ensures
        parse_bytes(bytes_bits(bytes) + rest, bytes.len()) == Some((bytes, rest)),
{
    let bits = bytes_bits(bytes);
    lemma_bytes_bits_len(bytes);
    lemma_bits_bytes_of_bytes(bytes);
    assert((bits + rest).take(8 * bytes.len() as int) =~= bits);
    assert((bits + rest).skip(8 * bytes.len() as int) =~= rest);
}

/// What was written for a signed 32-bit number is read back, whatever follows it.
pub proof fn lemma_parse_i32(v: i32, rest: Seq<bool>)
    ensures
        parse_i32(i32_bits(v) + rest) == Some((v, rest)),
{
    lemma_le_bytes_len(i32_wire(v), 4);
    lemma_parse_bytes(le_bytes(i32_wire(v), 4), rest);
    lemma_le_limits();
    lemma_le_value_bytes(i32_wire(v), 4);
}

/// What was written for an unsigned 32-bit number is read back, whatever follows it.
pub proof fn lemma_parse_u32(v: u32, rest: Seq<bool>)
    ensures
        parse_u32(u32_bits(v) + rest) == Some((v, rest)),
{
    lemma_le_bytes_len(v as nat, 4);
    lemma_parse_bytes(le_bytes(v as nat, 4), rest);
    lemma_le_limits();
    lemma_le_value_bytes(v as nat, 4);
}

/// What was written for a length or count is read back, whatever follows it.
pub proof fn lemma_parse_count(n: nat, rest: Seq<bool>)
    requires
        n <= MAX_LEN,
    ensures
        parse_count(count_bits(n) + rest) == Some((n, rest)),
{
    lemma_le_bytes_len(n, 4);
    lemma_parse_bytes(le_bytes(n, 4), rest);
    lemma_le_limits();
    lemma_le_value_bytes(n, 4);
}

/// What was written for a text is read back, whatever follows it.
pub proof fn lemma_parse_text(t: Seq<char>, rest: Seq<bool>)
    requires
        text_fits(t),
    ensures
        parse_text(text_bits(t) + rest) == Some((t, rest)),
{
    let bytes = encode_utf8(t);
    assert(text_bits(t) + rest =~= count_bits(bytes.len()) + (bytes_bits(bytes) + rest));
    lemma_parse_count(bytes.len(), bytes_bits(bytes) + rest);
    lemma_parse_bytes(bytes, rest);
    encode_utf8_valid_utf8(t);
    encode_utf8_decode_utf8(t);
}

/// The bounds that zero to five groups put on a packed number.
pub proof fn lemma_group_limits()
    ensures
        group_limit(0) == 1,
        group_limit(1) == 0x80,
        group_limit(2) == 0x4000,
        group_limit(3) == 0x20_0000,
        group_limit(4) == 0x1000_0000,
        group_limit(5) == 0x8_0000_0000,
{
    reveal_with_fuel(group_limit, 6);
}

/// A packed number that is read is below the bound of its groups.
pub proof fn lemma_parse_packed_bound(s: Seq<bool>, groups: nat)
    ensures
        parse_packed(s, groups) matches Some((v, r)) ==> v < group_limit(groups),
    decreases groups,
{
    if groups > 0 && s.len() >= 8 {
        lemma_uint_value_bound(s.subrange(1, 8));
        lemma2_to64();
        if s[0] {
            lemma_parse_packed_bound(s.skip(8), (groups - 1) as nat);
        } else {
            lemma_group_limit_grows((groups - 1) as nat);
        }
    }
}

/// The bound of any count of groups is at least one.
pub proof fn lemma_group_limit_grows(groups: nat)
    ensures
        group_limit(groups) >= 1,
    decreases groups,
{
    if groups > 0 {
        lemma_group_limit_grows((groups - 1) as nat);
    }
}

/// What was written for a packed number that fits its groups is read back, whatever follows it.
pub proof fn lemma_parse_packed(v: nat, groups: nat, rest: Seq<bool>)
    requires
        groups >= 1,
        v < group_limit(groups),
    ensures
        parse_packed(packed_bits(v) + rest, groups) == Some((v, rest)),
    decreases groups,
{
    lemma2_to64();
    if v < 128 {
        let low = uint_bits(v, 7);
        let s = packed_bits(v) + rest;
        lemma_uint_bits_len(v, 7);
        lemma_uint_value_bits(v, 7);
        assert(s.subrange(1, 8) =~= low);
        assert(s.skip(8) =~= rest);
        assert(!s[0]);
    } else {
        let low = uint_bits(v % 128, 7);
        let tail = packed_bits(v / 128);
        let s = packed_bits(v) + rest;
        lemma_uint_bits_len(v % 128, 7);
        lemma_uint_value_bits(v % 128, 7);
        assert(s.subrange(1, 8) =~= low);
        assert(s.skip(8) =~= tail + rest);
        assert(s[0]);
        assert(groups >= 2) by {
            if groups == 1 {
                assert(group_limit(1) == 128) by {
                    lemma_group_limits();
                }
            }
        }
        lemma_parse_packed(v / 128, (groups - 1) as nat, rest);
    }
}

/// What was written for a packed unsigned number is read back, whatever follows it.
pub proof fn lemma_parse_uint_packed(v: u32, rest: Seq<bool>)
    ensures
        parse_uint_packed(packed_bits(v as nat) + rest) == Some((v, rest)),
{
    lemma_group_limits();
    lemma_parse_packed(v as nat, PACKED_GROUPS as nat, rest);
}

/// What was written for a packed signed number is read back, whatever follows it.
pub proof fn lemma_parse_int_packed(v: i32, rest: Seq<bool>)
    ensures
        parse_int_packed(packed_bits(signed_code(v as int)) + rest) == Some((v, rest)),
{
    lemma_group_limits();
    lemma_parse_packed(signed_code(v as int), PACKED_GROUPS as nat, rest);
}

// ---------------------------------------------------------------------------
// Writing
// ---------------------------------------------------------------------------

/// `String::from_utf8`: the text whose UTF-8 form the bytes are, where they
/// are the UTF-8 form of one, and nothing where they are not.
#[verifier::external_body]
fn text_from_utf8(bytes: Vec<u8>) -> (r: Option<String>)
    ensures
        match r {
            Some(text) => valid_utf8(bytes@) && encode_utf8(text@) == bytes@,
            None => !valid_utf8(bytes@),
        },
{
    String::from_utf8(bytes).ok()
}

impl BitSink {
    /// Writes the `width` low bits of `value`, lowest first.
    pub fn write_uint(&mut self, value: u64, width: u32)
        ensures
            final(self)@ == old(self)@ + uint_bits(value as nat, width as nat),
    {
        let ghost start = self@;
        let mut rest: u64 = value;
        let mut i: u32 = 0;
        proof {
            assert(start + uint_bits(value as nat, width as nat) =~= self@ + uint_bits(
                rest as nat,
                (width - i) as nat,
            ));
        }
        while i < width
            invariant
                i <= width,
                start + uint_bits(value as nat, width as nat) == self@ + uint_bits(
                    rest as nat,
                    (width - i) as nat,
                ),
            decreases width - i,
        {
            let ghost before = self@;
            let bit = rest % 2 == 1;
            self.write_bit(bit);
            proof {
                assert(before + uint_bits(rest as nat, (width - i) as nat) =~= self@ + uint_bits(
                    (rest / 2) as nat,
                    (width - i - 1) as nat,
                ));
            }
            rest = rest / 2;
            i = i + 1;
        }
        proof {
            assert(self@ + uint_bits(rest as nat, 0) =~= self@);
        }
    }

    /// Writes a number in packed form.
    pub fn write_packed(&mut self, value: u64)
        ensures
            final(self)@ == old(self)@ + packed_bits(value as nat),
    {
        let ghost start = self@;
        let mut rest: u64 = value;
        while rest >= 128
            invariant
                start + packed_bits(value as nat) == self@ + packed_bits(rest as nat),
            decreases rest,
        {
            let ghost before = self@;
            self.write_bit(true);
            self.write_uint(rest % 128, 7);
            proof {
                assert(before + packed_bits(rest as nat) =~= self@ + packed_bits(
                    (rest / 128) as nat,
                ));
            }
            rest = rest / 128;
        }
        let ghost before = self@;
        self.write_bit(false);
        self.write_uint(rest, 7);
        proof {
            assert(before + packed_bits(rest as nat) =~= self@);
        }
    }

    /// Writes an unsigned number in packed form.
    pub fn write_uint_packed(&mut self, value: u32)
        ensures
            final(self)@ == old(self)@ + packed_bits(value as nat),
    {
        self.write_packed(value as u64)
    }

    /// Writes a signed number in packed form, as its [`signed_code`].
    pub fn write_int_packed(&mut self, value: i32)
        ensures
            final(self)@ == old(self)@ + packed_bits(signed_code(value as int)),
    {
        let code: u64 = if value >= 0 {
            2 * (value as u64) + 1
        } else {
            2 * ((-(value as i64)) as u64)
        };
        self.write_packed(code)
    }

    /// Writes a signed 32-bit number as four bytes.
    pub fn write_i32(&mut self, value: i32)
        ensures
            final(self)@ == old(self)@ + i32_bits(value),
    {
        let buf = i32_to_le(value);
        self.write_bytes(buf.as_slice());
    }

    /// Writes an unsigned 32-bit number as four bytes.
    pub fn write_u32(&mut self, value: u32)
        ensures
            final(self)@ == old(self)@ + u32_bits(value),
    {
        let signed: i32 = if value <= 0x7fff_ffff {
            value as i32
        } else {
            (value as i64 - 0x1_0000_0000) as i32
        };
        self.write_i32(signed)
    }

    /// Writes a length or count, unless it is too large to be said.
    pub fn write_count(&mut self, n: usize) -> (r: Result<(), WriteError>)
        ensures
            match r {
                Ok(()) => n <= MAX_LEN && final(self)@ == old(self)@ + count_bits(n as nat),
                Err(e) => e == WriteError::TooLarge && n > MAX_LEN && final(self)@ == old(self)@,
            },
    {
        if n > MAX_LEN {
            return Err(WriteError::TooLarge);
        }
        self.write_i32(n as i32);
        Ok(())
    }

    /// Writes a text, unless it is too long for its length to be said.
    pub fn write_string(&mut self, text: &String) -> (r: Result<(), WriteError>)
        ensures
            match r {
                Ok(()) => text_fits(text@) && final(self)@ == old(self)@ + text_bits(text@),
                Err(e) => e == WriteError::TooLarge && !text_fits(text@) && final(self)@ == old(
                    self,
                )@,
            },
    {
        let ghost start = self@;
        let bytes = text.as_str().as_bytes();
        match self.write_count(bytes.len()) {
            Ok(()) => {},
            Err(e) => {
                return Err(e);
            },
        }
        self.write_bytes(bytes);
        proof {
            assert(self@ =~= start + text_bits(text@));
        }
        Ok(())
    }
}

// ---------------------------------------------------------------------------
// Reading
// ---------------------------------------------------------------------------

impl BitSource {
    /// Reads one bit.
    pub fn read_flag(&mut self) -> (r: Option<bool>)
        ensures
            match r {
                Some(v) => parse_bit(old(self)@) == Some((v, final(self)@)),
                None => parse_bit(old(self)@) is None,
            },
    {
        self.read_bit()
    }

    /// Reads a number of `width` bits, lowest first.
    pub fn read_uint(&mut self, width: u32) -> (r: Option<u64>)
        requires
            width <= 64,
        ensures
            match r {
                Some(v) => parse_uint(old(self)@, width as nat) == Some((v as nat, final(self)@)),
                None => parse_uint(old(self)@, width as nat) is None,
            },
        decreases width,
    {
        let ghost s = self@;
        if width == 0 {
            proof {
                assert(s.take(0) =~= Seq::<bool>::empty());
                assert(s.skip(0) =~= s);
            }
            return Some(0);
        }
        let bit = match self.read_bit() {
            Some(b) => b,
            None => {
                return None;
            },
        };
        let rest = match self.read_uint(width - 1) {
            Some(v) => v,
            None => {
                return None;
            },
        };
        proof {
            let w = width as int;
            assert(s.take(w).drop_first() =~= s.drop_first().take(w - 1));
            assert(s.skip(w) =~= s.drop_first().skip(w - 1));
            lemma_uint_value_bound(s.drop_first().take(w - 1));
            lemma2_to64();
            lemma2_to64_rest();
            lemma_pow2_grows((width - 1) as nat, 63);
        }
        Some((if bit { 1u64 } else { 0u64 }) + 2 * rest)
    }

    /// Reads `n` bytes.
    pub fn read_bytes(&mut self, n: usize) -> (r: Option<Vec<u8>>)
        ensures
            match r {
                Some(v) => v@.len() == n && parse_bytes(old(self)@, n as nat) == Some(
                    (v@, final(self)@),
                ),
                None => parse_bytes(old(self)@, n as nat) is None,
            },
    {
        let ghost s = self@;
        let mut out: Vec<u8> = Vec::new();
        let mut i: usize = 0;
        proof {
            assert(s.take(0) =~= Seq::<bool>::empty());
            assert(s.skip(0) =~= s);
        }
        while i < n
            invariant
                i <= n,
                s == old(self)@,
                s.len() >= 8 * i,
                out@.len() == i,
                out@ == bits_bytes(s.take(8 * i)),
                self@ == s.skip(8 * i),
            decreases n - i,
        {
            let byte = match self.read_byte() {
                Some(b) => b,
                None => {
                    return None;
                },
            };
            out.push(byte);
            proof {
                let head = s.take(8 * i);
                let group = s.skip(8 * i).take(8);
                assert(s.take(8 * (i + 1)) =~= head + group);
                assert(s.skip(8 * i).skip(8) =~= s.skip(8 * (i + 1)));
                lemma_bits_bytes_concat(head, group);
                assert(group.take(8) =~= group);
                assert(bits_bytes(group.skip(8)) =~= Seq::<u8>::empty());
                assert(bits_bytes(group) =~= seq![byte]);
                lemma_uint_value_bound(group);
                lemma2_to64();
                assert(out@ =~= bits_bytes(head) + seq![byte]);
            }
            i = i + 1;
        }
        Some(out)
    }

    /// Reads a signed 32-bit number of four bytes.
    pub fn read_i32(&mut self) -> (r: Option<i32>)
        ensures
            match r {
                Some(v) => parse_i32(old(self)@) == Some((v, final(self)@)),
                None => parse_i32(old(self)@) is None,
            },
    {
        let bytes = match self.read_bytes(4) {
            Some(b) => b,
            None => {
                return None;
            },
        };
        let v = i32_from_le(bytes.as_slice());
        Some(v)
    }

    /// Reads an unsigned 32-bit number of four bytes.
    pub fn read_u32(&mut self) -> (r: Option<u32>)
        ensures
            match r {
                Some(v) => parse_u32(old(self)@) == Some((v, final(self)@)),
                None => parse_u32(old(self)@) is None,
            },
    {
        let bytes = match self.read_bytes(4) {
            Some(b) => b,
            None => {
                return None;
            },
        };
        let v = i32_from_le(bytes.as_slice());
        proof {
            lemma_le_value_bound(bytes@);
            lemma_le_limits();
        }
        if v >= 0 {
            Some(v as u32)
        } else {
            Some((v as i64 + 0x1_0000_0000) as u32)
        }
    }

    /// Reads a length or count; a negative one is refused.
    pub fn read_count(&mut self) -> (r: Option<usize>)
        ensures
            match r {
                Some(v) => parse_count(old(self)@) == Some((v as nat, final(self)@)),
                None => parse_count(old(self)@) is None,
            },
    {
        let bytes = match self.read_bytes(4) {
            Some(b) => b,
            None => {
                return None;
            },
        };
        let v = i32_from_le(bytes.as_slice());
        proof {
            lemma_le_value_bound(bytes@);
            lemma_le_limits();
        }
        if v >= 0 {
            Some(v as usize)
        } else {
            None
        }
    }

    /// Reads a text; bytes that are not UTF-8 are refused.
    pub fn read_string(&mut self) -> (r: Option<String>)
        ensures
            match r {
                Some(v) => parse_text(old(self)@) == Some((v@, final(self)@)),
                None => parse_text(old(self)@) is None,
            },
    {
        let n = match self.read_count() {
            Some(n) => n,
            None => {
                return None;
            },
        };
        let bytes = match self.read_bytes(n) {
            Some(b) => b,
            None => {
                return None;
            },
        };
        match text_from_utf8(bytes) {
            Some(text) => {
                proof {
                    encode_utf8_decode_utf8(text@);
                }
                Some(text)
            },
            None => None,
        }
    }

    /// Reads a packed number of at most `groups` groups.
    pub fn read_packed(&mut self, groups: u32) -> (r: Option<u64>)
        requires
            groups <= PACKED_GROUPS,
        ensures
            match r {
                Some(v) => parse_packed(old(self)@, groups as nat) == Some(
                    (v as nat, final(self)@),
                ),
                None => parse_packed(old(self)@, groups as nat) is None,
            },
        decreases groups,
    {
        let ghost s = self@;
        if groups == 0 {
            return None;
        }
        let more = match self.read_bit() {
            Some(b) => b,
            None => {
                return None;
            },
        };
        let low = match self.read_uint(7) {
            Some(v) => v,
            None => {
                return None;
            },
        };
        proof {
            assert(s.drop_first().take(7) =~= s.subrange(1, 8));
            assert(s.drop_first().skip(7) =~= s.skip(8));
            lemma_uint_value_bound(s.subrange(1, 8));
            lemma2_to64();
        }
        if !more {
            return Some(low);
        }
        let high = match self.read_packed(groups - 1) {
            Some(v) => v,
            None => {
                return None;
            },
        };
        proof {
            lemma_parse_packed_bound(s.skip(8), (groups - 1) as nat);
            lemma_group_limits();
        }
        Some(low + 128 * high)
    }

    /// Reads a packed unsigned 32-bit number.
    pub fn read_uint_packed(&mut self) -> (r: Option<u32>)
        ensures
            match r {
                Some(v) => parse_uint_packed(old(self)@) == Some((v, final(self)@)),
                None => parse_uint_packed(old(self)@) is None,
            },
    {
        let v = match self.read_packed(PACKED_GROUPS) {
            Some(v) => v,
            None => {
                return None;
            },
        };
        if v <= 0xffff_ffff {
            Some(v as u32)
        } else {
            None
        }
    }

    /// Reads a packed signed 32-bit number.
    pub fn read_int_packed(&mut self) -> (r: Option<i32>)
        ensures
            match r {
                Some(v) => parse_int_packed(old(self)@) == Some((v, final(self)@)),
                None => parse_int_packed(old(self)@) is None,
            },
    {
        let code = match self.read_packed(PACKED_GROUPS) {
            Some(v) => v,
            None => {
                return None;
            },
        };
        let magnitude = code / 2;
        if code % 2 == 1 {
            if magnitude <= 0x7fff_ffff {
                Some(magnitude as i32)
            } else {
                None
            }
        } else {
            if magnitude <= 0x8000_0000 {
                Some((-(magnitude as i64)) as i32)
            } else {
                None
            }
        }
    }
}

/// Powers of two grow with their exponent.
pub proof fn lemma_pow2_grows(a: nat, b: nat)
    requires
        a <= b,
    ensures
        pow2(a) <= pow2(b),
    decreases b - a,
{
    if a < b {
        lemma_pow2_grows(a, (b - 1) as nat);
        lemma_pow2_unfold(b);
    }
}

/// Gathering bytes from bits goes through a byte boundary.
pub proof fn lemma_bits_bytes_concat(a: Seq<bool>, b: Seq<bool>)
    requires
        a.len() % 8 == 0,
    ensures
        bits_bytes(a + b) == bits_bytes(a) + bits_bytes(b),
    decreases a.len(),
{
    if a.len() == 0 {
        assert(a + b =~= b);
        assert(bits_bytes(a) + bits_bytes(b) =~= bits_bytes(b));
    } else {
        lemma_bits_bytes_concat(a.skip(8), b);
        assert((a + b).take(8) =~= a.take(8));
        assert((a + b).skip(8) =~= a.skip(8) + b);
        assert(bits_bytes(a + b) =~= bits_bytes(a) + bits_bytes(b));
    }
}

} // verus!
