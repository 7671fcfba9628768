//! The values of component properties: a tag that names the kind, then the
//! value in the form of its kind.

use crate::bits::uint_bits;
use crate::header::{color_bits, lemma_parse_color, parse_color, read_color};
use crate::repeat::{item_of, rest_of, Parsed};
use crate::save::{Color, Value, ValueView};
use crate::scalar::{
    i32_bits, lemma_parse_bit, lemma_parse_i32, lemma_parse_text, lemma_parse_u32,
    lemma_parse_uint, parse_bit, parse_i32, parse_text, parse_u32, parse_uint, text_bits,
    text_fits, u32_bits,
};
use crate::stream::{BitSink, BitSource};
use crate::write::WriteError;
use vstd::arithmetic::power2::lemma2_to64;
use vstd::prelude::*;

verus! {

/// The tag of a whole number.
pub const TAG_INT: u8 = 0;

/// The tag of a single-precision number.
pub const TAG_FLOAT: u8 = 1;

/// The tag of a truth value.
pub const TAG_BOOL: u8 = 2;

/// The tag of a text.
pub const TAG_TEXT: u8 = 3;

/// The tag of a colour.
pub const TAG_COLOR: u8 = 4;

/// The tag of a vector.
pub const TAG_VECTOR: u8 = 5;

/// The tag of the kind of a value.
pub open spec fn value_tag(v: ValueView) -> u8 {
    match v {
        ValueView::Int(_) => TAG_INT,
        ValueView::Float(_) => TAG_FLOAT,
        ValueView::Bool(_) => TAG_BOOL,
        ValueView::Text(_) => TAG_TEXT,
        ValueView::Color(_) => TAG_COLOR,
        ValueView::Vector(_, _, _) => TAG_VECTOR,
    }
}

/// A value without its tag: four bytes for a whole number or a float, one
/// bit for a truth value, a text as any text, a colour as in the colour
/// table, a vector as three floats.
pub open spec fn value_body_bits(v: ValueView) -> Seq<bool> {
    match v {
        ValueView::Int(x) => i32_bits(x),
        ValueView::Float(x) => u32_bits(x),
        ValueView::Bool(x) => seq![x],
        ValueView::Text(t) => text_bits(t),
        ValueView::Color(c) => color_bits(c),
        ValueView::Vector(x, y, z) => u32_bits(x) + u32_bits(y) + u32_bits(z),
    }
}

/// A value as it is written: its tag in one byte, then the value.
pub open spec fn value_bits(v: ValueView) -> Seq<bool> {
    uint_bits(value_tag(v) as nat, 8) + value_body_bits(v)
}

/// Whether a value can be written: a text must be short enough for its
/// length to be said.
pub open spec fn value_fits(v: ValueView) -> bool {
    v matches ValueView::Text(t) ==> text_fits(t)
}

/// A vector, as it is read.
pub open spec fn parse_vector(s: Seq<bool>) -> Parsed<ValueView> {
    let x = parse_u32(s);
    let y = parse_u32(rest_of(x));
    let z = parse_u32(rest_of(y));
    if x is Some && y is Some && z is Some {
        Some((ValueView::Vector(item_of(x), item_of(y), item_of(z)), rest_of(z)))
    } else {
        None
    }
}

/// A value of the kind that `tag` names; a tag that names none is refused.
pub open spec fn parse_value_body(s: Seq<bool>, tag: nat) -> Parsed<ValueView> {
    if tag == TAG_INT {
        match parse_i32(s) {
            Some((x, r)) => Some((ValueView::Int(x), r)),
            None => None,
        }
    } else if tag == TAG_FLOAT {
        match parse_u32(s) {
            Some((x, r)) => Some((ValueView::Float(x), r)),
            None => None,
        }
    } else if tag == TAG_BOOL {
        match parse_bit(s) {
            Some((x, r)) => Some((ValueView::Bool(x), r)),
            None => None,
        }
    } else if tag == TAG_TEXT {
        match parse_text(s) {
            Some((x, r)) => Some((ValueView::Text(x), r)),
            None => None,
        }
    } else if tag == TAG_COLOR {
        match parse_color(s) {
            Some((x, r)) => Some((ValueView::Color(x), r)),
            None => None,
        }
    } else if tag == TAG_VECTOR {
        parse_vector(s)
    } else {
        None
    }
}

/// A value as it is read: the tag, then the value of that kind.
pub open spec fn parse_value(s: Seq<bool>) -> Parsed<ValueView> {
    match parse_uint(s, 8) {
        Some((tag, r)) => parse_value_body(r, tag),
        None => None,
    }
}

/// A value that was written is read back.
pub proof fn lemma_parse_value(v: ValueView, rest: Seq<bool>)
    requires
        value_fits(v),
    ensures
        parse_value(value_bits(v) + rest) == Some((v, rest)),
{
    let body = value_body_bits(v) + rest;
    assert(value_bits(v) + rest =~= uint_bits(value_tag(v) as nat, 8) + body);
    lemma2_to64();
    lemma_parse_uint(value_tag(v) as nat, 8, body);
    match v {
        ValueView::Int(x) => {
            lemma_parse_i32(x, rest);
        },
        ValueView::Float(x) => {
            lemma_parse_u32(x, rest);
        },
        ValueView::Bool(x) => {
            lemma_parse_bit(x, rest);
        },
        ValueView::Text(t) => {
            lemma_parse_text(t, rest);
        },
        ValueView::Color(c) => {
            lemma_parse_color(c, rest);
        },
        ValueView::Vector(x, y, z) => {
            let r2 = u32_bits(z) + rest;
            let r1 = u32_bits(y) + r2;
            assert(body =~= u32_bits(x) + r1);
            lemma_parse_u32(x, r1);
            lemma_parse_u32(y, r2);
            lemma_parse_u32(z, rest);
        },
    }
}

impl Value {
    /// A copy of the value.
    pub fn copy(&self) -> (v: Value)
        ensures
            v@ == self@,
    {
        match self {
            Value::Int(x) => Value::Int(*x),
            Value::Float(x) => Value::Float(*x),
            Value::Bool(x) => Value::Bool(*x),
            Value::Text(t) => Value::Text(t.clone()),
            Value::Color(c) => Value::Color(*c),
            Value::Vector(x, y, z) => Value::Vector(*x, *y, *z),
        }
    }

    /// Whether the value can be written.
    pub fn fits(&self) -> (ok: bool)
        ensures
            ok == value_fits(self@),
    {
        match self {
            Value::Text(t) => t.as_str().as_bytes().len() <= crate::scalar::MAX_LEN,
            _ => true,
        }
    }
}

/// Writes a value, unless it is a text too long for its length to be said;
/// then nothing is written.
pub fn write_value(sink: &mut BitSink, value: &Value) -> (r: Result<(), WriteError>)
    ensures
        match r {
            Ok(()) => value_fits(value@) && final(sink)@ == old(sink)@ + value_bits(value@),
            Err(e) => e == WriteError::TooLarge && !value_fits(value@) && final(sink)@ == old(sink)@,
        },
{
    if !value.fits() {
        return Err(WriteError::TooLarge);
    }
    let ghost start = sink@;
    match value {
        Value::Int(x) => {
            sink.write_uint(TAG_INT as u64, 8);
            sink.write_i32(*x);
        },
        Value::Float(x) => {
            sink.write_uint(TAG_FLOAT as u64, 8);
            sink.write_u32(*x);
        },
        Value::Bool(x) => {
            sink.write_uint(TAG_BOOL as u64, 8);
            sink.write_bit(*x);
        },
        Value::Text(t) => {
            sink.write_uint(TAG_TEXT as u64, 8);
            match sink.write_string(t) {
                Ok(()) => {},
                Err(e) => {
                    assert(false);
                    return Err(e);
                },
            }
        },
        Value::Color(c) => {
            sink.write_uint(TAG_COLOR as u64, 8);
            let bgra = [c.b, c.g, c.r, c.a];
            proof {
                assert(bgra@ =~= seq![c.b, c.g, c.r, c.a]);
            }
            sink.write_bytes(bgra.as_slice());
        },
        Value::Vector(x, y, z) => {
            sink.write_uint(TAG_VECTOR as u64, 8);
            sink.write_u32(*x);
            sink.write_u32(*y);
            sink.write_u32(*z);
        },
    }
    proof {
        assert(sink@ =~= start + value_bits(value@));
    }
    Ok(())
}

/// Reads a value.
pub fn read_value(src: &mut BitSource) -> (r: Option<Value>)
    ensures
        match r {
            Some(v) => parse_value(old(src)@) == Some((v@, final(src)@)),
            None => parse_value(old(src)@) is None,
        },
{
    let tag = src.read_uint(8)?;
    if tag == TAG_INT as u64 {
        Some(Value::Int(src.read_i32()?))
    } else if tag == TAG_FLOAT as u64 {
        Some(Value::Float(src.read_u32()?))
    } else if tag == TAG_BOOL as u64 {
        Some(Value::Bool(src.read_bit()?))
    } else if tag == TAG_TEXT as u64 {
        Some(Value::Text(src.read_string()?))
    } else if tag == TAG_COLOR as u64 {
        Some(Value::Color(read_color(src)?))
    } else if tag == TAG_VECTOR as u64 {
        let x = src.read_u32()?;
        let y = src.read_u32()?;
        let z = src.read_u32()?;
        Some(Value::Vector(x, y, z))
    } else {
        None
    }
}

} // verus!
