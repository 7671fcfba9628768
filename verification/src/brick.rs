//! The brick table: one record per brick, packed bit by bit in fields whose
//! widths follow from the sizes of the lookup tables.

use crate::bits::{
    bytes_bits, payload_of, lemma_padded_aligned, lemma_padded_concat, lemma_realigned_padding,
    lemma_uint_value_bound, pad_len, padded, realigned, uint_bits, zeros,
};
use crate::repeat::{
    after, item_of, lemma_parse_repeat, lemma_parse_repeat_done, lemma_parse_repeat_step,
    lemma_repeat_bits_empty, lemma_repeat_bits_step, parse_repeat, repeat_bits, rest_of, Parsed,
};
use crate::save::{
    views, Brick, BrickColor, BrickView, Collision, Direction, Header2, Header2View, Position,
    Rotation, Size,
};
use crate::scalar::{
    lemma_parse_bit, lemma_parse_bytes, lemma_parse_int_packed, lemma_parse_uint,
    lemma_parse_uint_packed, lemma_pow2_grows, packed_bits, parse_bit, parse_bytes,
    parse_int_packed, parse_uint, parse_uint_packed, signed_code,
};
use crate::stream::{BitSink, BitSource};
use crate::write::WriteError;
use vstd::arithmetic::power2::{lemma2_to64, lemma_pow2_unfold, pow2};
use vstd::prelude::*;

verus! {

// ---------------------------------------------------------------------------
// Field widths
// ---------------------------------------------------------------------------

/// The number of entries that a table of `len` entries counts for: never
/// fewer than two.
pub open spec fn effective(len: nat) -> nat {
    if len < 2 {
        2
    } else {
        len
    }
}

/// The width in bits of an index into a table of `len` entries: the least
/// width that tells `effective(len)` values apart, so never zero.
pub open spec fn index_width(len: nat) -> nat
    decreases len,
{
    if len <= 2 {
        1
    } else {
        1 + index_width((len + 1) / 2)
    }
}

/// Every index of the table fits the width, and no narrower width would do.
pub proof fn lemma_index_width(len: nat)
    ensures
        index_width(len) >= 1,
        effective(len) <= pow2(index_width(len)),
        pow2((index_width(len) - 1) as nat) < effective(len),
    decreases len,
{
    lemma2_to64();
    if len > 2 {
        let half = (len + 1) / 2;
        lemma_index_width(half);
        lemma_pow2_unfold(index_width(len));
        lemma_pow2_unfold(index_width(half));
    }
}

/// A table that a `usize` can count has indices of at most 64 bits.
pub proof fn lemma_index_width_bound(len: nat)
    requires
        len <= u64::MAX,
    ensures
        index_width(len) <= 64,
{
    lemma_index_width(len);
    lemma2_to64();
    if index_width(len) > 64 {
        lemma_pow2_grows(64, (index_width(len) - 1) as nat);
    }
}

/// Counting a table for at least two entries does not change the width of
/// its indices.
pub proof fn lemma_index_width_effective(len: nat)
    ensures
        index_width(effective(len)) == index_width(len),
        effective(effective(len)) == effective(len),
{
    reveal_with_fuel(index_width, 2);
}

/// The field of an index into one table.
#[derive(Clone, Copy, Debug, PartialEq, Eq, Structural)]
pub struct IndexField {
    /// How many entries the table counts for: at least two.
    pub count: u64,
    /// How many bits an index takes.
    pub width: u32,
}

impl IndexField {
    /// The width is that of the count.
    pub open spec fn wf(self) -> bool {
        self.count >= 2 && self.width == index_width(self.count as nat) && self.width <= 64
    }

    /// The field for a table of `len` entries.
    pub fn of(len: usize) -> (f: IndexField)
        ensures
            f.wf(),
            f.count == effective(len as nat),
            f.width == index_width(len as nat),
    {
        let mut width: u32 = 1;
        let mut c: u64 = len as u64;
        proof {
            lemma_index_width_bound(len as nat);
            lemma_index_width(len as nat);
            lemma_index_width_effective(len as nat);
        }
        while c > 2
            invariant
                width >= 1,
                index_width(len as nat) == (width - 1) + index_width(c as nat),
                index_width(len as nat) <= 64,
            decreases c,
        {
            proof {
                lemma_index_width(((c + 1) / 2) as nat);
            }
            c = c - c / 2;
            width = width + 1;
        }
        IndexField { count: if len < 2 { 2 } else { len as u64 }, width }
    }
}

/// The sizes of the tables that brick records point into, each counted for
/// at least two entries.
pub struct Tables {
    pub asset_names: nat,
    pub materials: nat,
    pub physical_materials: nat,
    pub colors: nat,
}

/// The table sizes of a second header.
pub open spec fn tables_of(h: Header2View) -> Tables {
    Tables {
        asset_names: effective(h.brick_assets.len()),
        materials: effective(h.materials.len()),
        physical_materials: effective(h.physical_materials.len()),
        colors: effective(h.colors.len()),
    }
}

/// The fields of the indices of a brick record, worked out once for a save
/// and handed to everything that writes or reads a record.
#[derive(Clone, Copy, Debug, PartialEq, Eq, Structural)]
pub struct Layout {
    pub asset_name: IndexField,
    pub material: IndexField,
    pub physical: IndexField,
    pub color: IndexField,
}

impl View for Layout {
    type V = Tables;

    open spec fn view(&self) -> Tables {
        Tables {
            asset_names: self.asset_name.count as nat,
            materials: self.material.count as nat,
            physical_materials: self.physical.count as nat,
            colors: self.color.count as nat,
        }
    }
}

impl Layout {
    /// Every field has the width of its count.
    pub open spec fn wf(self) -> bool {
        &&& self.asset_name.wf()
        &&& self.material.wf()
        &&& self.physical.wf()
        &&& self.color.wf()
    }

    /// The layout for the tables of a second header.
    pub fn of(header: &Header2) -> (l: Layout)
        ensures
            l.wf(),
            l@ == tables_of(header@),
    {
        Layout {
            asset_name: IndexField::of(header.brick_assets.len()),
            material: IndexField::of(header.materials.len()),
            physical: IndexField::of(header.physical_materials.len()),
            color: IndexField::of(header.colors.len()),
        }
    }
}

// ---------------------------------------------------------------------------
// What a record is
// ---------------------------------------------------------------------------

/// The number of a direction.
pub open spec fn direction_code(d: Direction) -> nat {
    match d {
        Direction::X => 0,
        Direction::Y => 1,
        Direction::Z => 2,
    }
}

/// The number of a rotation.
pub open spec fn rotation_code(r: Rotation) -> nat {
    match r {
        Rotation::Deg0 => 0,
        Rotation::Deg90 => 1,
        Rotation::Deg180 => 2,
        Rotation::Deg270 => 3,
    }
}

/// The direction of a number.
pub open spec fn direction_of(code: nat) -> Direction {
    if code == 0 {
        Direction::X
    } else if code == 1 {
        Direction::Y
    } else {
        Direction::Z
    }
}

/// The rotation of a number.
pub open spec fn rotation_of(code: nat) -> Rotation {
    if code == 0 {
        Rotation::Deg0
    } else if code == 1 {
        Rotation::Deg90
    } else if code == 2 {
        Rotation::Deg180
    } else {
        Rotation::Deg270
    }
}

/// Direction and rotation in one number: the direction shifted left by two
/// bits, the rotation in the two low bits.
pub open spec fn orientation(d: Direction, r: Rotation) -> nat {
    direction_code(d) * 4 + rotation_code(r)
}

/// A size: a flag, and three packed numbers where the flag is set.
pub open spec fn size_bits(size: Size) -> Seq<bool> {
    match size {
        Size::Empty => seq![false],
        Size::Procedural(x, y, z) => seq![true] + packed_bits(x as nat) + packed_bits(y as nat)
            + packed_bits(z as nat),
    }
}

/// A colour: a cleared flag and an index into the colour table, or a set
/// flag and the bytes of red, green and blue.
pub open spec fn color_choice_bits(color: BrickColor, colors: nat) -> Seq<bool> {
    match color {
        BrickColor::Index(i) => seq![false] + uint_bits(i as nat, index_width(colors)),
        BrickColor::Unique(r, g, b) => seq![true] + bytes_bits(seq![r, g, b]),
    }
}

/// What a brick is and where it stands: asset, size, position, direction
/// and rotation.
pub open spec fn placement_bits(b: BrickView, t: Tables) -> Seq<bool> {
    uint_bits(b.asset_name_index as nat, index_width(t.asset_names)) + size_bits(b.size)
        + packed_bits(signed_code(b.position.0 as int)) + packed_bits(
        signed_code(b.position.1 as int),
    ) + packed_bits(signed_code(b.position.2 as int)) + uint_bits(
        orientation(b.direction, b.rotation),
        24,
    )
}

/// The flags of a brick: collision with players, weapons, interaction and
/// tools, then visibility.
pub open spec fn flags_bits(b: BrickView) -> Seq<bool> {
    seq![b.collision.player] + seq![b.collision.weapon] + seq![b.collision.interaction]
        + seq![b.collision.tool] + seq![b.visibility]
}

/// What a brick is made of and whose it is: material, physical material,
/// material intensity, colour and owner.
pub open spec fn finish_bits(b: BrickView, t: Tables) -> Seq<bool> {
    uint_bits(b.material_index as nat, index_width(t.materials)) + uint_bits(
        b.physical_index as nat,
        index_width(t.physical_materials),
    ) + uint_bits(b.material_intensity as nat, 11) + color_choice_bits(b.color, t.colors)
        + packed_bits(b.owner_index as nat)
}

/// The fields of a brick, in the order in which they are written. The
/// brick's components are no part of it.
pub open spec fn brick_bits(b: BrickView, t: Tables) -> Seq<bool> {
    placement_bits(b, t) + flags_bits(b) + finish_bits(b, t)
}

/// Whether the indices of a brick lie in their tables, each counted for at
/// least two entries, and its material intensity in eleven bits.
pub open spec fn brick_in_range(b: BrickView, t: Tables) -> bool {
    &&& b.asset_name_index < effective(t.asset_names)
    &&& b.material_index < effective(t.materials)
    &&& b.physical_index < effective(t.physical_materials)
    &&& b.material_intensity < 2048
    &&& (b.color matches BrickColor::Index(i) ==> i < effective(t.colors))
}

/// The record of a brick: its fields, padded to a byte boundary.
pub open spec fn record_bits(b: BrickView, t: Tables) -> Seq<bool> {
    padded(brick_bits(b, t))
}

/// How the record of a brick is written, as a function.
pub open spec fn record_writer(t: Tables) -> spec_fn(BrickView) -> Seq<bool> {
    |b: BrickView| record_bits(b, t)
}

/// How the record of a brick is read, as a function.
pub open spec fn record_reader(t: Tables) -> spec_fn(Seq<bool>) -> Parsed<BrickView> {
    |s: Seq<bool>| parse_record(s, t)
}

/// The bricks without their components.
pub open spec fn bare_bricks(bricks: Seq<BrickView>) -> Seq<BrickView> {
    Seq::new(bricks.len(), |i: int| bricks[i].bare())
}

/// The brick table: the records of the bricks, in order.
pub open spec fn bricks_bits(bricks: Seq<BrickView>, t: Tables) -> Seq<bool> {
    repeat_bits(bare_bricks(bricks), record_writer(t))
}

/// Whether every brick is in range.
pub open spec fn bricks_in_range(bricks: Seq<BrickView>, t: Tables) -> bool {
    forall|i: int| 0 <= i < bricks.len() ==> brick_in_range(#[trigger] bricks[i], t)
}

// ---------------------------------------------------------------------------
// How a record is read
// ---------------------------------------------------------------------------

/// An index into a table of `len` entries; one outside the table is refused.
pub open spec fn parse_index(s: Seq<bool>, len: nat) -> Parsed<u32> {
    match parse_uint(s, index_width(len)) {
        Some((v, r)) => if v < effective(len) && v <= u32::MAX {
            Some((v as u32, r))
        } else {
            None
        },
        None => None,
    }
}

/// A size, as it is read.
pub open spec fn parse_size(s: Seq<bool>) -> Parsed<Size> {
    match parse_bit(s) {
        Some((flag, r)) => if flag {
            let x = parse_uint_packed(r);
            let y = parse_uint_packed(rest_of(x));
            let z = parse_uint_packed(rest_of(y));
            if x is Some && y is Some && z is Some {
                Some((Size::Procedural(item_of(x), item_of(y), item_of(z)), rest_of(z)))
            } else {
                None
            }
        } else {
            Some((Size::Empty, r))
        },
        None => None,
    }
}

/// Direction and rotation; a direction that there is not is refused.
pub open spec fn parse_orientation(s: Seq<bool>) -> Parsed<(Direction, Rotation)> {
    match parse_uint(s, 24) {
        Some((v, r)) => if v / 4 < 3 {
            Some(((direction_of(v / 4), rotation_of(v % 4)), r))
        } else {
            None
        },
        None => None,
    }
}

/// The colour of a brick, as it is read.
pub open spec fn parse_color_choice(s: Seq<bool>, colors: nat) -> Parsed<BrickColor> {
    match parse_bit(s) {
        Some((flag, r)) => if flag {
            match parse_bytes(r, 3) {
                Some((b, r2)) => Some((BrickColor::Unique(b[0], b[1], b[2]), r2)),
                None => None,
            }
        } else {
            match parse_index(r, colors) {
                Some((i, r2)) => Some((BrickColor::Index(i), r2)),
                None => None,
            }
        },
        None => None,
    }
}

/// Asset, size, position, direction and rotation, as they are read.
pub struct Placement {
    pub asset_name_index: u32,
    pub size: Size,
    pub position: Position,
    pub direction: Direction,
    pub rotation: Rotation,
}

/// Material, physical material, intensity, colour and owner, as they are
/// read.
pub struct Finish {
    pub material_index: u32,
    pub physical_index: u32,
    pub material_intensity: u32,
    pub color: BrickColor,
    pub owner_index: u32,
}

/// The placement of a brick, as it is read.
pub open spec fn parse_placement(s: Seq<bool>, t: Tables) -> Parsed<Placement> {
    let asset = parse_index(s, t.asset_names);
    let size = parse_size(rest_of(asset));
    let x = parse_int_packed(rest_of(size));
    let y = parse_int_packed(rest_of(x));
    let z = parse_int_packed(rest_of(y));
    let turn = parse_orientation(rest_of(z));
    if asset is Some && size is Some && x is Some && y is Some && z is Some && turn is Some {
        Some(
            (
                Placement {
                    asset_name_index: item_of(asset),
                    size: item_of(size),
                    position: Position(item_of(x), item_of(y), item_of(z)),
                    direction: item_of(turn).0,
                    rotation: item_of(turn).1,
                },
                rest_of(turn),
            ),
        )
    } else {
        None
    }
}

/// The flags of a brick, as it is read.
pub open spec fn parse_flags(s: Seq<bool>) -> Parsed<(Collision, bool)> {
    let player = parse_bit(s);
    let weapon = parse_bit(rest_of(player));
    let interaction = parse_bit(rest_of(weapon));
    let tool = parse_bit(rest_of(interaction));
    let visibility = parse_bit(rest_of(tool));
    if player is Some && weapon is Some && interaction is Some && tool is Some
        && visibility is Some {
        Some(
            (
                (
                    Collision {
                        player: item_of(player),
                        weapon: item_of(weapon),
                        interaction: item_of(interaction),
                        tool: item_of(tool),
                    },
                    item_of(visibility),
                ),
                rest_of(visibility),
            ),
        )
    } else {
        None
    }
}

/// The finish of a brick, as it is read.
pub open spec fn parse_finish(s: Seq<bool>, t: Tables) -> Parsed<Finish> {
    let material = parse_index(s, t.materials);
    let physical = parse_index(rest_of(material), t.physical_materials);
    let intensity = parse_uint(rest_of(physical), 11);
    let color = parse_color_choice(rest_of(intensity), t.colors);
    let owner = parse_uint_packed(rest_of(color));
    if material is Some && physical is Some && intensity is Some && color is Some
        && owner is Some {
        Some(
            (
                Finish {
                    material_index: item_of(material),
                    physical_index: item_of(physical),
                    material_intensity: item_of(intensity) as u32,
                    color: item_of(color),
                    owner_index: item_of(owner),
                },
                rest_of(owner),
            ),
        )
    } else {
        None
    }
}

/// The brick that the three parts of a record make; it has no components.
pub open spec fn assembled(p: Placement, f: (Collision, bool), m: Finish) -> BrickView {
    BrickView {
        asset_name_index: p.asset_name_index,
        size: p.size,
        position: p.position,
        direction: p.direction,
        rotation: p.rotation,
        collision: f.0,
        visibility: f.1,
        material_index: m.material_index,
        physical_index: m.physical_index,
        material_intensity: m.material_intensity,
        color: m.color,
        owner_index: m.owner_index,
        components: Map::empty(),
    }
}

/// The fields of a brick; the brick read has no components.
pub open spec fn parse_brick(s: Seq<bool>, t: Tables) -> Parsed<BrickView> {
    let placement = parse_placement(s, t);
    let flags = parse_flags(rest_of(placement));
    let finish = parse_finish(rest_of(flags), t);
    if placement is Some && flags is Some && finish is Some {
        Some((assembled(item_of(placement), item_of(flags), item_of(finish)), rest_of(finish)))
    } else {
        None
    }
}

/// A record: the fields of a brick, then the padding to the byte boundary.
pub open spec fn parse_record(s: Seq<bool>, t: Tables) -> Parsed<BrickView> {
    match parse_brick(s, t) {
        Some((b, r)) => Some((b, realigned(r))),
        None => None,
    }
}

/// A brick table of `n` records that fills `s`.
pub open spec fn parse_bricks(s: Seq<bool>, n: nat, t: Tables) -> Option<Seq<BrickView>> {
    match parse_repeat(s, n, record_reader(t)) {
        Some((bricks, r)) => if r.len() == 0 {
            Some(bricks)
        } else {
            None
        },
        None => None,
    }
}

// ---------------------------------------------------------------------------
// Reading undoes writing
// ---------------------------------------------------------------------------

/// What was written for an index in range is read back, whatever follows it.
pub proof fn lemma_parse_index(i: u32, len: nat, rest: Seq<bool>)
    requires
        i < effective(len),
    ensures
        parse_index(uint_bits(i as nat, index_width(len)) + rest, len) == Some((i, rest)),
{
    lemma_index_width(len);
    lemma_parse_uint(i as nat, index_width(len), rest);
}

/// What was written for a size is read back, whatever follows it.
pub proof fn lemma_parse_size(size: Size, rest: Seq<bool>)
    ensures
        parse_size(size_bits(size) + rest) == Some((size, rest)),
{
    match size {
        Size::Empty => {
            lemma_parse_bit(false, rest);
        },
        Size::Procedural(x, y, z) => {
            let r3 = packed_bits(z as nat) + rest;
            let r2 = packed_bits(y as nat) + r3;
            let r1 = packed_bits(x as nat) + r2;
            assert(size_bits(size) + rest =~= seq![true] + r1);
            lemma_parse_bit(true, r1);
            lemma_parse_uint_packed(x, r2);
            lemma_parse_uint_packed(y, r3);
            lemma_parse_uint_packed(z, rest);
        },
    }
}

/// What was written for direction and rotation is read back, whatever follows it.
pub proof fn lemma_parse_orientation(d: Direction, r: Rotation, rest: Seq<bool>)
    ensures
        parse_orientation(uint_bits(orientation(d, r), 24) + rest) == Some(((d, r), rest)),
{
    lemma2_to64();
    lemma_parse_uint(orientation(d, r), 24, rest);
}

/// What was written for the colour of a brick is read back, whatever follows it.
pub proof fn lemma_parse_color_choice(color: BrickColor, colors: nat, rest: Seq<bool>)
    requires
        color matches BrickColor::Index(i) ==> i < effective(colors),
    ensures
        parse_color_choice(color_choice_bits(color, colors) + rest, colors) == Some((color, rest)),
{
    match color {
        BrickColor::Index(i) => {
            let r1 = uint_bits(i as nat, index_width(colors)) + rest;
            assert(color_choice_bits(color, colors) + rest =~= seq![false] + r1);
            lemma_parse_bit(false, r1);
            lemma_parse_index(i, colors, rest);
        },
        BrickColor::Unique(r, g, b) => {
            let r1 = bytes_bits(seq![r, g, b]) + rest;
            assert(color_choice_bits(color, colors) + rest =~= seq![true] + r1);
            lemma_parse_bit(true, r1);
            lemma_parse_bytes(seq![r, g, b], rest);
        },
    }
}

/// What was written for the placement of a brick is read back, whatever follows it.
pub proof fn lemma_parse_placement(b: BrickView, t: Tables, rest: Seq<bool>)
    requires
        b.asset_name_index < effective(t.asset_names),
    ensures
        parse_placement(placement_bits(b, t) + rest, t) == Some(
            (
                Placement {
                    asset_name_index: b.asset_name_index,
                    size: b.size,
                    position: b.position,
                    direction: b.direction,
                    rotation: b.rotation,
                },
                rest,
            ),
        ),
{
    let r5 = uint_bits(orientation(b.direction, b.rotation), 24) + rest;
    let r4 = packed_bits(signed_code(b.position.2 as int)) + r5;
    let r3 = packed_bits(signed_code(b.position.1 as int)) + r4;
    let r2 = packed_bits(signed_code(b.position.0 as int)) + r3;
    let r1 = size_bits(b.size) + r2;
    assert(placement_bits(b, t) + rest =~= uint_bits(
        b.asset_name_index as nat,
        index_width(t.asset_names),
    ) + r1);
    lemma_parse_index(b.asset_name_index, t.asset_names, r1);
    lemma_parse_size(b.size, r2);
    lemma_parse_int_packed(b.position.0, r3);
    lemma_parse_int_packed(b.position.1, r4);
    lemma_parse_int_packed(b.position.2, r5);
    lemma_parse_orientation(b.direction, b.rotation, rest);
}

/// What was written for the flags of a brick is read back, whatever follows it.
pub proof fn lemma_parse_flags(b: BrickView, rest: Seq<bool>)
    ensures
        parse_flags(flags_bits(b) + rest) == Some(((b.collision, b.visibility), rest)),
{
    let r4 = seq![b.visibility] + rest;
    let r3 = seq![b.collision.tool] + r4;
    let r2 = seq![b.collision.interaction] + r3;
    let r1 = seq![b.collision.weapon] + r2;
    assert(flags_bits(b) + rest =~= seq![b.collision.player] + r1);
    lemma_parse_bit(b.collision.player, r1);
    lemma_parse_bit(b.collision.weapon, r2);
    lemma_parse_bit(b.collision.interaction, r3);
    lemma_parse_bit(b.collision.tool, r4);
    lemma_parse_bit(b.visibility, rest);
}

/// What was written for the finish of a brick is read back, whatever follows it.
pub proof fn lemma_parse_finish(b: BrickView, t: Tables, rest: Seq<bool>)
    requires
        brick_in_range(b, t),
    ensures
        parse_finish(finish_bits(b, t) + rest, t) == Some(
            (
                Finish {
                    material_index: b.material_index,
                    physical_index: b.physical_index,
                    material_intensity: b.material_intensity,
                    color: b.color,
                    owner_index: b.owner_index,
                },
                rest,
            ),
        ),
{
    let r4 = packed_bits(b.owner_index as nat) + rest;
    let r3 = color_choice_bits(b.color, t.colors) + r4;
    let r2 = uint_bits(b.material_intensity as nat, 11) + r3;
    let r1 = uint_bits(b.physical_index as nat, index_width(t.physical_materials)) + r2;
    assert(finish_bits(b, t) + rest =~= uint_bits(
        b.material_index as nat,
        index_width(t.materials),
    ) + r1);
    lemma_parse_index(b.material_index, t.materials, r1);
    lemma_parse_index(b.physical_index, t.physical_materials, r2);
    lemma2_to64();
    lemma_parse_uint(b.material_intensity as nat, 11, r3);
    lemma_parse_color_choice(b.color, t.colors, r4);
    lemma_parse_uint_packed(b.owner_index, rest);
}

/// The fields of a brick in range are read back, without its components.
pub proof fn lemma_parse_brick(b: BrickView, t: Tables, rest: Seq<bool>)
    requires
        brick_in_range(b, t),
    ensures
        parse_brick(brick_bits(b, t) + rest, t) == Some((b.bare(), rest)),
{
    let r2 = finish_bits(b, t) + rest;
    let r1 = flags_bits(b) + r2;
    assert(brick_bits(b, t) + rest =~= placement_bits(b, t) + r1);
    lemma_parse_placement(b, t, r1);
    lemma_parse_flags(b, r2);
    lemma_parse_finish(b, t, rest);
}

/// The record of a brick in range is read back where whole bytes follow it.
pub proof fn lemma_parse_record(b: BrickView, t: Tables, rest: Seq<bool>)
    requires
        brick_in_range(b, t),
        rest.len() % 8 == 0,
    ensures
        parse_record(record_bits(b, t) + rest, t) == Some((b.bare(), rest)),
        record_bits(b, t).len() % 8 == 0,
{
    let fields = brick_bits(b, t);
    let padding = zeros(pad_len(fields.len()));
    assert(record_bits(b, t) + rest =~= fields + (padding + rest));
    lemma_parse_brick(b, t, padding + rest);
    lemma_realigned_padding(fields.len(), rest);
    lemma_padded_aligned(fields);
}

/// A table of bricks in range is read back, each brick without its
/// components.
pub proof fn lemma_parse_bricks(bricks: Seq<BrickView>, t: Tables)
    requires
        bricks_in_range(bricks, t),
    ensures
        parse_bricks(bricks_bits(bricks, t), bricks.len(), t) == Some(bare_bricks(bricks)),
        bricks_bits(bricks, t).len() % 8 == 0,
{
    let bare = bare_bricks(bricks);
    let rest = Seq::<bool>::empty();
    assert forall|i: int| 0 <= i < bare.len() implies (#[trigger] record_writer(t)(
        bare[i],
    )).len() % 8 == 0 by {
        lemma_padded_aligned(brick_bits(bare[i], t));
    }
    assert forall|i: int, r: Seq<bool>|
        0 <= i < bare.len() && r.len() % 8 == 0 implies #[trigger] record_reader(t)(
        record_writer(t)(bare[i]) + r,
    ) == Some((bare[i], r)) by {
        assert(brick_in_range(bricks[i], t));
        lemma_parse_record(bare[i], t, r);
        assert(bare[i].bare() == bare[i]);
    }
    lemma_parse_repeat(bare, record_writer(t), record_reader(t), rest, 8);
    assert(bricks_bits(bricks, t) + rest =~= bricks_bits(bricks, t));
}

// ---------------------------------------------------------------------------
// Writing
// ---------------------------------------------------------------------------

/// The number of a direction.
pub fn direction_number(d: Direction) -> (code: u64)
    ensures
        code == direction_code(d),
{
    match d {
        Direction::X => 0,
        Direction::Y => 1,
        Direction::Z => 2,
    }
}

/// The number of a rotation.
pub fn rotation_number(r: Rotation) -> (code: u64)
    ensures
        code == rotation_code(r),
{
    match r {
        Rotation::Deg0 => 0,
        Rotation::Deg90 => 1,
        Rotation::Deg180 => 2,
        Rotation::Deg270 => 3,
    }
}

/// Whether the indices and the intensity of a brick are in range.
pub fn check_brick(brick: &Brick, layout: &Layout) -> (ok: bool)
    requires
        layout.wf(),
    ensures
        ok == brick_in_range(brick@, layout@),
{
    let color_ok = match brick.color {
        BrickColor::Index(i) => (i as u64) < layout.color.count,
        BrickColor::Unique(_, _, _) => true,
    };
    (brick.asset_name_index as u64) < layout.asset_name.count && (brick.material_index as u64)
        < layout.material.count && (brick.physical_index as u64) < layout.physical.count
        && brick.material_intensity < 2048 && color_ok
}

fn write_size(sink: &mut BitSink, size: Size)
    ensures
        final(sink)@ == old(sink)@ + size_bits(size),
{
    let ghost start = sink@;
    match size {
        Size::Procedural(x, y, z) => {
            sink.write_bit(true);
            sink.write_uint_packed(x);
            sink.write_uint_packed(y);
            sink.write_uint_packed(z);
        },
        Size::Empty => {
            sink.write_bit(false);
        },
    }
    proof {
        assert(sink@ =~= start + size_bits(size));
    }
}

fn write_color_choice(sink: &mut BitSink, color: BrickColor, field: &IndexField)
    requires
        field.wf(),
    ensures
        final(sink)@ == old(sink)@ + color_choice_bits(color, field.count as nat),
{
    let ghost start = sink@;
    match color {
        BrickColor::Index(i) => {
            sink.write_bit(false);
            sink.write_uint(i as u64, field.width);
        },
        BrickColor::Unique(r, g, b) => {
            sink.write_bit(true);
            let rgb = [r, g, b];
            proof {
                assert(rgb@ =~= seq![r, g, b]);
            }
            sink.write_bytes(rgb.as_slice());
        },
    }
    proof {
        assert(sink@ =~= start + color_choice_bits(color, field.count as nat));
    }
}

fn write_placement(sink: &mut BitSink, brick: &Brick, layout: &Layout)
    requires
        layout.wf(),
    ensures
        final(sink)@ == old(sink)@ + placement_bits(brick@, layout@),
{
    let ghost start = sink@;
    sink.write_uint(brick.asset_name_index as u64, layout.asset_name.width);
    write_size(sink, brick.size);
    sink.write_int_packed(brick.position.0);
    sink.write_int_packed(brick.position.1);
    sink.write_int_packed(brick.position.2);
    let turn = direction_number(brick.direction) * 4 + rotation_number(brick.rotation);
    sink.write_uint(turn, 24);
    proof {
        assert(sink@ =~= start + placement_bits(brick@, layout@));
    }
}

fn write_flags(sink: &mut BitSink, brick: &Brick)
    ensures
        final(sink)@ == old(sink)@ + flags_bits(brick@),
{
    let ghost start = sink@;
    sink.write_bit(brick.collision.player);
    sink.write_bit(brick.collision.weapon);
    sink.write_bit(brick.collision.interaction);
    sink.write_bit(brick.collision.tool);
    sink.write_bit(brick.visibility);
    proof {
        assert(sink@ =~= start + flags_bits(brick@));
    }
}

fn write_finish(sink: &mut BitSink, brick: &Brick, layout: &Layout)
    requires
        layout.wf(),
    ensures
        final(sink)@ == old(sink)@ + finish_bits(brick@, layout@),
{
    let ghost start = sink@;
    sink.write_uint(brick.material_index as u64, layout.material.width);
    sink.write_uint(brick.physical_index as u64, layout.physical.width);
    sink.write_uint(brick.material_intensity as u64, 11);
    write_color_choice(sink, brick.color, &layout.color);
    sink.write_uint_packed(brick.owner_index);
    proof {
        assert(sink@ =~= start + finish_bits(brick@, layout@));
    }
}

/// Writes the fields of a brick, unless one of them is out of range; then
/// nothing is written.
pub fn write_brick(sink: &mut BitSink, brick: &Brick, layout: &Layout) -> (r: Result<
    (),
    WriteError,
>)
    requires
        layout.wf(),
    ensures
        match r {
            Ok(()) => brick_in_range(brick@, layout@) && final(sink)@ == old(sink)@ + brick_bits(
                brick@,
                layout@,
            ),
            Err(e) => e == WriteError::OutOfRange && !brick_in_range(brick@, layout@) && final(sink)@ == old(sink)@,
        },
{
    if !check_brick(brick, layout) {
        return Err(WriteError::OutOfRange);
    }
    let ghost start = sink@;
    write_placement(sink, brick, layout);
    write_flags(sink, brick);
    write_finish(sink, brick, layout);
    proof {
        assert(sink@ =~= start + brick_bits(brick@, layout@));
    }
    Ok(())
}

/// Writes the brick table, unless a brick is out of range.
pub(crate) fn write_records(sink: &mut BitSink, bricks: &Vec<Brick>, layout: &Layout) -> (r: Result<
    (),
    WriteError,
>)
    requires
        layout.wf(),
        old(sink)@.len() == 0,
    ensures
        match r {
            Ok(()) => bricks_in_range(views(bricks@), layout@) && final(sink)@ == bricks_bits(
                views(bricks@),
                layout@,
            ),
            Err(e) => e == WriteError::OutOfRange && !bricks_in_range(views(bricks@), layout@),
        },
{
    let ghost t = layout@;
    let ghost all = bare_bricks(views(bricks@));
    let ghost w = record_writer(t);
    let mut i: usize = 0;
    proof {
        lemma_repeat_bits_empty(all, w);
        assert(padded(sink@) =~= sink@);
        assert(bricks_bits(views(bricks@), t) =~= padded(sink@) + repeat_bits(all.skip(0), w));
    }
    while i < bricks.len()
        invariant
            i <= bricks.len(),
            layout.wf(),
            t == layout@,
            all == bare_bricks(views(bricks@)),
            w == record_writer(t),
            forall|j: int| 0 <= j < i ==> brick_in_range(#[trigger] views(bricks@)[j], t),
            padded(sink@).len() % 8 == 0,
            bricks_bits(views(bricks@), t) == padded(sink@) + repeat_bits(all.skip(i as int), w),
        decreases bricks.len() - i,
    {
        let ghost before = padded(sink@);
        sink.byte_align();
        match write_brick(sink, &bricks[i], layout) {
            Ok(()) => {},
            Err(e) => {
                assert(!brick_in_range(views(bricks@)[i as int], t));
                return Err(e);
            },
        }
        proof {
            let fields = brick_bits(bricks@[i as int]@, t);
            assert(sink@ == before + fields);
            lemma_padded_concat(before, fields);
            lemma_padded_aligned(sink@);
            lemma_repeat_bits_step(all, w, i as int);
            assert(w(all[i as int]) == padded(fields));
            assert(before + repeat_bits(all.skip(i as int), w) =~= padded(sink@) + repeat_bits(
                all.skip(i + 1),
                w,
            ));
        }
        i = i + 1;
    }
    sink.byte_align();
    proof {
        lemma_repeat_bits_empty(all, w);
        assert(sink@ + Seq::<bool>::empty() =~= sink@);
    }
    Ok(())
}

// ---------------------------------------------------------------------------
// Reading
// ---------------------------------------------------------------------------

/// Reads an index into a table.
pub fn read_index(src: &mut BitSource, field: &IndexField) -> (r: Option<u32>)
    requires
        field.wf(),
    ensures
        match r {
            Some(v) => parse_index(old(src)@, field.count as nat) == Some((v, final(src)@)),
            None => parse_index(old(src)@, field.count as nat) is None,
        },
{
    let v = src.read_uint(field.width)?;
    if v < field.count && v <= 0xffff_ffff {
        Some(v as u32)
    } else {
        None
    }
}

/// Reads a size.
pub fn read_size(src: &mut BitSource) -> (r: Option<Size>)
    ensures
        match r {
            Some(v) => parse_size(old(src)@) == Some((v, final(src)@)),
            None => parse_size(old(src)@) is None,
        },
{
    if src.read_bit()? {
        let x = src.read_uint_packed()?;
        let y = src.read_uint_packed()?;
        let z = src.read_uint_packed()?;
        Some(Size::Procedural(x, y, z))
    } else {
        Some(Size::Empty)
    }
}

/// Reads direction and rotation.
pub fn read_orientation(src: &mut BitSource) -> (r: Option<(Direction, Rotation)>)
    ensures
        match r {
            Some(v) => parse_orientation(old(src)@) == Some((v, final(src)@)),
            None => parse_orientation(old(src)@) is None,
        },
{
    let v = src.read_uint(24)?;
    let direction = match v / 4 {
        0 => Direction::X,
        1 => Direction::Y,
        2 => Direction::Z,
        _ => {
            return None;
        },
    };
    let rotation = match v % 4 {
        0 => Rotation::Deg0,
        1 => Rotation::Deg90,
        2 => Rotation::Deg180,
        _ => Rotation::Deg270,
    };
    Some((direction, rotation))
}

/// Reads a colour.
pub fn read_color_choice(src: &mut BitSource, field: &IndexField) -> (r: Option<BrickColor>)
    requires
        field.wf(),
    ensures
        match r {
            Some(v) => parse_color_choice(old(src)@, field.count as nat) == Some(
                (v, final(src)@),
            ),
            None => parse_color_choice(old(src)@, field.count as nat) is None,
        },
{
    if src.read_bit()? {
        let b = src.read_bytes(3)?;
        Some(BrickColor::Unique(b[0], b[1], b[2]))
    } else {
        let i = read_index(src, field)?;
        Some(BrickColor::Index(i))
    }
}

fn read_placement(src: &mut BitSource, layout: &Layout) -> (r: Option<
    (u32, Size, Position, Direction, Rotation),
>)
    requires
        layout.wf(),
    ensures
        match r {
            Some(v) => parse_placement(old(src)@, layout@) == Some(
                (
                    Placement {
                        asset_name_index: v.0,
                        size: v.1,
                        position: v.2,
                        direction: v.3,
                        rotation: v.4,
                    },
                    final(src)@,
                ),
            ),
            None => parse_placement(old(src)@, layout@) is None,
        },
{
    let asset_name_index = read_index(src, &layout.asset_name)?;
    let size = read_size(src)?;
    let x = src.read_int_packed()?;
    let y = src.read_int_packed()?;
    let z = src.read_int_packed()?;
    let (direction, rotation) = read_orientation(src)?;
    Some((asset_name_index, size, Position(x, y, z), direction, rotation))
}

fn read_flags(src: &mut BitSource) -> (r: Option<(Collision, bool)>)
    ensures
        match r {
            Some(v) => parse_flags(old(src)@) == Some((v, final(src)@)),
            None => parse_flags(old(src)@) is None,
        },
{
    let player = src.read_bit()?;
    let weapon = src.read_bit()?;
    let interaction = src.read_bit()?;
    let tool = src.read_bit()?;
    let visibility = src.read_bit()?;
    Some((Collision { player, weapon, interaction, tool }, visibility))
}

fn read_finish(src: &mut BitSource, layout: &Layout) -> (r: Option<
    (u32, u32, u32, BrickColor, u32),
>)
    requires
        layout.wf(),
    ensures
        match r {
            Some(v) => parse_finish(old(src)@, layout@) == Some(
                (
                    Finish {
                        material_index: v.0,
                        physical_index: v.1,
                        material_intensity: v.2,
                        color: v.3,
                        owner_index: v.4,
                    },
                    final(src)@,
                ),
            ),
            None => parse_finish(old(src)@, layout@) is None,
        },
{
    let material_index = read_index(src, &layout.material)?;
    let physical_index = read_index(src, &layout.physical)?;
    let ghost before_intensity = src@;
    let intensity = src.read_uint(11)?;
    proof {
        lemma2_to64();
        lemma_uint_value_bound(before_intensity.take(11));
    }
    let color = read_color_choice(src, &layout.color)?;
    let owner_index = src.read_uint_packed()?;
    Some((material_index, physical_index, intensity as u32, color, owner_index))
}

/// Reads the fields of a brick; the brick has no components yet.
pub fn read_brick(src: &mut BitSource, layout: &Layout) -> (r: Option<Brick>)
    requires
        layout.wf(),
    ensures
        match r {
            Some(b) => b.components@.len() == 0 && parse_brick(old(src)@, layout@) == Some(
                (b@, final(src)@),
            ),
            None => parse_brick(old(src)@, layout@) is None,
        },
{
    let (asset_name_index, size, position, direction, rotation) = read_placement(src, layout)?;
    let (collision, visibility) = read_flags(src)?;
    let (material_index, physical_index, material_intensity, color, owner_index) = read_finish(
        src,
        layout,
    )?;
    Some(
        Brick {
            asset_name_index,
            size,
            position,
            direction,
            rotation,
            collision,
            visibility,
            material_index,
            physical_index,
            material_intensity,
            color,
            owner_index,
            components: Vec::new(),
        },
    )
}

/// Reads a brick table of `n` records that fills the source.
pub(crate) fn read_records(src: &mut BitSource, n: usize, layout: &Layout) -> (r: Option<Vec<Brick>>)
    requires
        layout.wf(),
    ensures
        match r {
            Some(v) => v@.len() == n && parse_bricks(old(src)@, n as nat, layout@) == Some(
                views(v@),
            ) && forall|i: int|
                0 <= i < v@.len() ==> (#[trigger] v@[i]).components@.len() == 0,
            None => parse_bricks(old(src)@, n as nat, layout@) is None,
        },
{
    let ghost t = layout@;
    let ghost start = src@;
    let ghost p = record_reader(t);
    let mut out: Vec<Brick> = Vec::new();
    let mut i: usize = 0;
    proof {
        assert(views(out@) =~= Seq::<BrickView>::empty());
        let more = parse_repeat(src@, n as nat, p);
        if more is Some {
            assert(views(out@) + item_of(more) =~= item_of(more));
        }
    }
    while i < n
        invariant
            i <= n,
            out@.len() == i,
            layout.wf(),
            t == layout@,
            start == old(src)@,
            p == record_reader(t),
            forall|j: int| 0 <= j < out@.len() ==> (#[trigger] out@[j]).components@.len() == 0,
            parse_repeat(start, n as nat, p) == after(
                views(out@),
                parse_repeat(src@, (n - i) as nat, p),
            ),
        decreases n - i,
    {
        proof {
            lemma_parse_repeat_step(views(out@), src@, (n - i) as nat, p);
        }
        let ghost done = views(out@);
        let brick = read_brick(src, layout)?;
        src.byte_align();
        let ghost brick_view = brick@;
        out.push(brick);
        proof {
            assert(views(out@) =~= done.push(brick_view));
        }
        i = i + 1;
    }
    proof {
        lemma_parse_repeat_done(views(out@), src@, p);
    }
    match src.read_bit() {
        Some(_) => None,
        None => Some(out),
    }
}

/// The content of the block of the brick table, unless a brick is out of
/// range.
pub fn encode_records(bricks: &Vec<Brick>, layout: &Layout) -> (r: Result<Vec<u8>, WriteError>)
    requires
        layout.wf(),
    ensures
        match r {
            Ok(bytes) => bricks_in_range(views(bricks@), layout@) && bytes@ == payload_of(
                bricks_bits(views(bricks@), layout@),
            ),
            Err(e) => e == WriteError::OutOfRange && !bricks_in_range(views(bricks@), layout@),
        },
{
    let mut sink = BitSink::new();
    match write_records(&mut sink, bricks, layout) {
        Ok(()) => Ok(sink.finish()),
        Err(e) => Err(e),
    }
}

/// The `n` bricks that the content of a block holds, each without
/// components; content that holds more or less is refused.
pub fn decode_records(payload: Vec<u8>, n: usize, layout: &Layout) -> (r: Option<Vec<Brick>>)
    requires
        layout.wf(),
    ensures
        match r {
            Some(v) => v@.len() == n && parse_bricks(bytes_bits(payload@), n as nat, layout@)
                == Some(views(v@)) && forall|i: int|
                0 <= i < v@.len() ==> (#[trigger] v@[i]).components@.len() == 0,
            None => parse_bricks(bytes_bits(payload@), n as nat, layout@) is None,
        },
{
    let mut source = BitSource::new(payload);
    read_records(&mut source, n, layout)
}

} // verus!
