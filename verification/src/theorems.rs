//! What holds of the format as a whole: what was written is read back.

use crate::bits::uint_bits;
use crate::block::{
    block_bytes, deflated, lemma_block_frames, lemma_parse_block, parse_block,
};
use crate::endian::lemma_le_bytes_len;
use crate::brick::{
    brick_bits, brick_in_range, color_choice_bits, effective, index_width, lemma_index_width,
    lemma_parse_brick, lemma_parse_color_choice, lemma_parse_index, parse_brick,
    parse_color_choice, parse_index, Tables,
};
use crate::component::{
    lemma_parse_components_wf, lemma_read_members, members, parse_components, with_sections,
};
use crate::file::{lemma_parse_save, parse_save, save_bytes};
use crate::read::ReadError;
use crate::save::{BrickColor, BrickView, SaveDataView};
use crate::scalar::{
    lemma_parse_int_packed, lemma_parse_uint_packed, packed_bits, parse_int_packed,
    parse_uint_packed, signed_code, MAX_LEN,
};
use vstd::arithmetic::power2::pow2;
use vstd::prelude::*;

verus! {

/// Every save that can be written is read back from its bytes as the save
/// that it was, field for field, with the host of its first header named;
/// whatever follows the save is left unread.
pub proof fn save_round_trip(d: SaveDataView, rest: Seq<u8>)
    requires
        d.wf(),
        d.valid(),
    ensures
        parse_save(save_bytes(d) + rest) == Ok::<_, ReadError>((d.resolved(), rest)),
{
    lemma_parse_save(d, rest);
}

/// Every run of bytes whose length can be said is read back from the block
/// that is written for it, whether the block holds it stored or deflated.
pub proof fn block_round_trip(payload: Seq<u8>, rest: Seq<u8>)
    requires
        payload.len() <= MAX_LEN,
    ensures
        parse_block(block_bytes(payload) + rest) == Ok::<_, ReadError>((payload, rest)),
{
    lemma_block_frames(payload);
    lemma_parse_block(block_bytes(payload), payload, rest);
}

/// A block never costs more than eight bytes beyond its content.
pub proof fn block_cost(payload: Seq<u8>)
    ensures
        block_bytes(payload).len() <= 8 + payload.len(),
{
    lemma_le_bytes_len(payload.len(), 4);
    lemma_le_bytes_len(0, 4);
    lemma_le_bytes_len(deflated(payload).len(), 4);
}

/// Every unsigned 32-bit number is read back from its packed form.
pub proof fn packed_unsigned_round_trip(v: u32, rest: Seq<bool>)
    ensures
        parse_uint_packed(packed_bits(v as nat) + rest) == Some((v, rest)),
{
    lemma_parse_uint_packed(v, rest);
}

/// Every signed 32-bit number, the least one too, is read back from its
/// packed form.
pub proof fn packed_signed_round_trip(v: i32, rest: Seq<bool>)
    ensures
        parse_int_packed(packed_bits(signed_code(v as int)) + rest) == Some((v, rest)),
{
    lemma_parse_int_packed(v, rest);
}

/// An index takes at least one bit, also into a table of no entry or of
/// one; its width is the least in which every index of the table, counted
/// for two entries at least, can be told apart.
pub proof fn index_width_floor(len: nat)
    ensures
        index_width(len) >= 1,
        len <= 2 ==> index_width(len) == 1,
        effective(len) >= 2,
        effective(len) <= pow2(index_width(len)),
        pow2((index_width(len) - 1) as nat) < effective(len),
{
    lemma_index_width(len);
}

/// An index is read in the width in which it was written, whatever the size
/// of its table.
pub proof fn index_round_trip(i: u32, len: nat, rest: Seq<bool>)
    requires
        i < effective(len),
    ensures
        parse_index(uint_bits(i as nat, index_width(len)) + rest, len) == Some((i, rest)),
{
    lemma_parse_index(i, len, rest);
}

/// The colour of a brick, of the table or of its own, is read back.
pub proof fn color_round_trip(color: BrickColor, colors: nat, rest: Seq<bool>)
    requires
        color matches BrickColor::Index(i) ==> i < effective(colors),
    ensures
        parse_color_choice(color_choice_bits(color, colors) + rest, colors) == Some(
            (color, rest),
        ),
{
    lemma_parse_color_choice(color, colors, rest);
}

/// The fields of a brick in range are read back.
pub proof fn brick_round_trip(b: BrickView, t: Tables, rest: Seq<bool>)
    requires
        brick_in_range(b, t),
    ensures
        parse_brick(brick_bits(b, t) + rest, t) == Some((b.bare(), rest)),
{
    lemma_parse_brick(b, t, rest);
}

/// Once a component table was read and its sections were given to the
/// bricks, the bricks that carry a component are those that its section
/// lists, in the same order.
pub proof fn members_agree(s: Seq<bool>, bare: Seq<BrickView>, j: int)
    requires
        parse_components(s, bare.len()) is Some,
        0 <= j < parse_components(s, bare.len()).unwrap().len(),
    ensures
        members(
            with_sections(bare, parse_components(s, bare.len()).unwrap()),
            parse_components(s, bare.len()).unwrap()[j].component.name,
        ) == parse_components(s, bare.len()).unwrap()[j].members,
{
    lemma_parse_components_wf(s, bare.len());
    lemma_read_members(bare, parse_components(s, bare.len()).unwrap(), j);
}

} // verus!
