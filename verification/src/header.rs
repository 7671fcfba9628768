//! The two headers: who made the save, and the tables its bricks point into.

use crate::bits::{bytes_bits, payload_of};
use crate::repeat::{
    after, item_of, lemma_parse_repeat_done, lemma_parse_repeat_step, lemma_parse_table,
    lemma_repeat_bits_empty, lemma_repeat_bits_step, parse_repeat, parse_table, repeat_bits,
    rest_of, table_bits, Parsed,
};
use crate::save::{
    views, BrickOwner, BrickOwnerView, Color, Header1, Header1View, Header2, Header2View, User,
    UserView,
};
use crate::scalar::{
    count_bits, lemma_parse_bytes, lemma_parse_count, lemma_parse_text, lemma_parse_u32,
    parse_bytes, parse_count, parse_text, parse_u32, text_bits, text_fits, u32_bits, MAX_LEN,
};
use crate::stream::{BitSink, BitSource};
use crate::write::WriteError;
use vstd::prelude::*;

verus! {

broadcast use vstd::array::group_array_axioms;

// ---------------------------------------------------------------------------
// The first header
// ---------------------------------------------------------------------------

impl Header1View {
    /// Ids are sixteen bytes, the time stamp eight.
    pub open spec fn wf(self) -> bool {
        &&& self.author.id.len() == 16
        &&& self.resolved_host().id.len() == 16
        &&& self.save_time.len() == 8
    }

    /// Whether every length and count of the header can be said.
    pub open spec fn fits(self) -> bool {
        &&& text_fits(self.map)
        &&& text_fits(self.author.name)
        &&& text_fits(self.description)
        &&& text_fits(self.resolved_host().name)
        &&& self.brick_count <= MAX_LEN
    }
}

/// The first header as it is written: map, author's name, description,
/// author's id, host's name and id, time stamp, brick count. Where no host
/// is named the author is written in its place.
pub open spec fn identity_bits(h: Header1View) -> Seq<bool> {
    text_bits(h.map) + text_bits(h.author.name) + text_bits(h.description) + bytes_bits(
        h.author.id,
    ) + text_bits(h.resolved_host().name) + bytes_bits(h.resolved_host().id) + bytes_bits(
        h.save_time,
    ) + count_bits(h.brick_count as nat)
}

/// The first header as it is read; the host is always named.
pub open spec fn parse_identity(s: Seq<bool>) -> Parsed<Header1View> {
    let map = parse_text(s);
    let author_name = parse_text(rest_of(map));
    let description = parse_text(rest_of(author_name));
    let author_id = parse_bytes(rest_of(description), 16);
    let host_name = parse_text(rest_of(author_id));
    let host_id = parse_bytes(rest_of(host_name), 16);
    let save_time = parse_bytes(rest_of(host_id), 8);
    let brick_count = parse_count(rest_of(save_time));
    if map is Some && author_name is Some && description is Some && author_id is Some
        && host_name is Some && host_id is Some && save_time is Some && brick_count is Some {
        Some(
            (
                Header1View {
                    map: item_of(map),
                    description: item_of(description),
                    author: UserView { id: item_of(author_id), name: item_of(author_name) },
                    host: Some(UserView { id: item_of(host_id), name: item_of(host_name) }),
                    save_time: item_of(save_time),
                    brick_count: item_of(brick_count) as u32,
                },
                rest_of(brick_count),
            ),
        )
    } else {
        None
    }
}

/// A first header that was written is read back, with its host named.
pub proof fn lemma_parse_identity(h: Header1View, rest: Seq<bool>)
    requires
        h.wf(),
        h.fits(),
    ensures
        parse_identity(identity_bits(h) + rest) == Some((h.resolved(), rest)),
{
    let host = h.resolved_host();
    let r7 = count_bits(h.brick_count as nat) + rest;
    let r6 = bytes_bits(h.save_time) + r7;
    let r5 = bytes_bits(host.id) + r6;
    let r4 = text_bits(host.name) + r5;
    let r3 = bytes_bits(h.author.id) + r4;
    let r2 = text_bits(h.description) + r3;
    let r1 = text_bits(h.author.name) + r2;
    assert(identity_bits(h) + rest =~= text_bits(h.map) + r1);
    lemma_parse_text(h.map, r1);
    lemma_parse_text(h.author.name, r2);
    lemma_parse_text(h.description, r3);
    lemma_parse_bytes(h.author.id, r4);
    lemma_parse_text(host.name, r5);
    lemma_parse_bytes(host.id, r6);
    lemma_parse_bytes(h.save_time, r7);
    lemma_parse_count(h.brick_count as nat, rest);
}

/// Writes the first header, unless one of its texts is too long or its brick
/// count too large to be said.
pub(crate) fn write_identity(sink: &mut BitSink, header: &Header1) -> (r: Result<(), WriteError>)
    ensures
        match r {
            Ok(()) => header@.fits() && final(sink)@ == old(sink)@ + identity_bits(header@),
            Err(e) => e == WriteError::TooLarge && !header@.fits(),
        },
{
    let ghost start = sink@;
    let host: &User = match &header.host {
        Some(user) => user,
        None => &header.author,
    };
    assert(host@ == header@.resolved_host());
    sink.write_string(&header.map)?;
    sink.write_string(&header.author.name)?;
    sink.write_string(&header.description)?;
    sink.write_bytes(header.author.id.as_slice());
    sink.write_string(&host.name)?;
    sink.write_bytes(host.id.as_slice());
    sink.write_bytes(header.save_time.as_slice());
    sink.write_count(header.brick_count as usize)?;
    proof {
        assert(sink@ =~= start + identity_bits(header@));
    }
    Ok(())
}

/// Sixteen bytes as an id.
fn id_of(bytes: &Vec<u8>) -> (id: [u8; 16])
    requires
        bytes@.len() == 16,
    ensures
        id@ == bytes@,
{
    let mut id = [0u8; 16];
    let mut i: usize = 0;
    while i < 16
        invariant
            i <= 16,
            bytes@.len() == 16,
            forall|j: int| 0 <= j < i ==> id@[j] == bytes@[j],
        decreases 16 - i,
    {
        id[i] = bytes[i];
        i = i + 1;
    }
    assert(id@ =~= bytes@);
    id
}

/// Eight bytes as a time stamp.
fn stamp_of(bytes: &Vec<u8>) -> (stamp: [u8; 8])
    requires
        bytes@.len() == 8,
    ensures
        stamp@ == bytes@,
{
    let mut stamp = [0u8; 8];
    let mut i: usize = 0;
    while i < 8
        invariant
            i <= 8,
            bytes@.len() == 8,
            forall|j: int| 0 <= j < i ==> stamp@[j] == bytes@[j],
        decreases 8 - i,
    {
        stamp[i] = bytes[i];
        i = i + 1;
    }
    assert(stamp@ =~= bytes@);
    stamp
}

/// Reads the first header.
pub(crate) fn read_identity(src: &mut BitSource) -> (r: Option<Header1>)
    ensures
        match r {
            Some(h) => h@.wf() && parse_identity(old(src)@) == Some((h@, final(src)@)),
            None => parse_identity(old(src)@) is None,
        },
{
    let map = src.read_string()?;
    let author_name = src.read_string()?;
    let description = src.read_string()?;
    let author_id = src.read_bytes(16)?;
    let host_name = src.read_string()?;
    let host_id = src.read_bytes(16)?;
    let save_time = src.read_bytes(8)?;
    let brick_count = src.read_count()?;
    Some(
        Header1 {
            map,
            description,
            author: User { id: id_of(&author_id), name: author_name },
            host: Some(User { id: id_of(&host_id), name: host_name }),
            save_time: stamp_of(&save_time),
            brick_count: brick_count as u32,
        },
    )
}

// ---------------------------------------------------------------------------
// The second header
// ---------------------------------------------------------------------------

/// A colour of a table: blue, green, red, alpha.
pub open spec fn color_bits(c: Color) -> Seq<bool> {
    bytes_bits(seq![c.b, c.g, c.r, c.a])
}

/// A colour of the table, as it is read.
pub open spec fn parse_color(s: Seq<bool>) -> Parsed<Color> {
    match parse_bytes(s, 4) {
        Some((b, r)) => Some((Color { r: b[2], g: b[1], b: b[0], a: b[3] }, r)),
        None => None,
    }
}

/// An owner: id, name, number of bricks.
pub open spec fn owner_bits(o: BrickOwnerView) -> Seq<bool> {
    bytes_bits(o.id) + text_bits(o.name) + u32_bits(o.bricks)
}

/// An owner, as it is read.
pub open spec fn parse_owner(s: Seq<bool>) -> Parsed<BrickOwnerView> {
    let id = parse_bytes(s, 16);
    let name = parse_text(rest_of(id));
    let bricks = parse_u32(rest_of(name));
    if id is Some && name is Some && bricks is Some {
        Some(
            (
                BrickOwnerView { id: item_of(id), name: item_of(name), bricks: item_of(bricks) },
                rest_of(bricks),
            ),
        )
    } else {
        None
    }
}

/// How a text is written, as a function.
pub open spec fn text_writer() -> spec_fn(Seq<char>) -> Seq<bool> {
    |t: Seq<char>| text_bits(t)
}

/// How a text is read, as a function.
pub open spec fn text_reader() -> spec_fn(Seq<bool>) -> Parsed<Seq<char>> {
    |s: Seq<bool>| parse_text(s)
}

/// How a colour of the table is written, as a function.
pub open spec fn color_writer() -> spec_fn(Color) -> Seq<bool> {
    |c: Color| color_bits(c)
}

/// How a colour of the table is read, as a function.
pub open spec fn color_reader() -> spec_fn(Seq<bool>) -> Parsed<Color> {
    |s: Seq<bool>| parse_color(s)
}

/// How an owner is written, as a function.
pub open spec fn owner_writer() -> spec_fn(BrickOwnerView) -> Seq<bool> {
    |o: BrickOwnerView| owner_bits(o)
}

/// How an owner is read, as a function.
pub open spec fn owner_reader() -> spec_fn(Seq<bool>) -> Parsed<BrickOwnerView> {
    |s: Seq<bool>| parse_owner(s)
}

/// Whether a table of texts can be written: its count and the length of
/// each text can be said.
pub open spec fn texts_fit(items: Seq<Seq<char>>) -> bool {
    &&& items.len() <= MAX_LEN
    &&& forall|i: int| 0 <= i < items.len() ==> text_fits(#[trigger] items[i])
}

/// Whether a table of owners can be written.
pub open spec fn owners_fit(items: Seq<BrickOwnerView>) -> bool {
    &&& items.len() <= MAX_LEN
    &&& forall|i: int| 0 <= i < items.len() ==> text_fits((#[trigger] items[i]).name)
}

impl Header2View {
    /// Ids are sixteen bytes.
    pub open spec fn wf(self) -> bool {
        forall|i: int|
            0 <= i < self.brick_owners.len() ==> (#[trigger] self.brick_owners[i]).id.len() == 16
    }

    /// Whether every length and count of the header can be said.
    pub open spec fn fits(self) -> bool {
        &&& texts_fit(self.mods)
        &&& texts_fit(self.brick_assets)
        &&& self.colors.len() <= MAX_LEN
        &&& texts_fit(self.materials)
        &&& owners_fit(self.brick_owners)
        &&& texts_fit(self.physical_materials)
    }
}

/// The second header as it is written: mods, brick assets, colours,
/// materials, owners, physical materials, each a table.
pub open spec fn catalog_bits(c: Header2View) -> Seq<bool> {
    table_bits(c.mods, text_writer()) + table_bits(c.brick_assets, text_writer()) + table_bits(
        c.colors,
        color_writer(),
    ) + table_bits(c.materials, text_writer()) + table_bits(c.brick_owners, owner_writer())
        + table_bits(c.physical_materials, text_writer())
}

/// The second header as it is read.
pub open spec fn parse_catalog(s: Seq<bool>) -> Parsed<Header2View> {
    let mods = parse_table(s, text_reader());
    let brick_assets = parse_table(rest_of(mods), text_reader());
    let colors = parse_table(rest_of(brick_assets), color_reader());
    let materials = parse_table(rest_of(colors), text_reader());
    let brick_owners = parse_table(rest_of(materials), owner_reader());
    let physical_materials = parse_table(rest_of(brick_owners), text_reader());
    if mods is Some && brick_assets is Some && colors is Some && materials is Some
        && brick_owners is Some && physical_materials is Some {
        Some(
            (
                Header2View {
                    mods: item_of(mods),
                    brick_assets: item_of(brick_assets),
                    colors: item_of(colors),
                    materials: item_of(materials),
                    brick_owners: item_of(brick_owners),
                    physical_materials: item_of(physical_materials),
                },
                rest_of(physical_materials),
            ),
        )
    } else {
        None
    }
}

/// What was written for a colour of the table is read back, whatever follows it.
pub proof fn lemma_parse_color(c: Color, rest: Seq<bool>)
    ensures
        parse_color(color_bits(c) + rest) == Some((c, rest)),
{
    lemma_parse_bytes(seq![c.b, c.g, c.r, c.a], rest);
}

/// What was written for an owner is read back, whatever follows it.
pub proof fn lemma_parse_owner(o: BrickOwnerView, rest: Seq<bool>)
    requires
        o.id.len() == 16,
        text_fits(o.name),
    ensures
        parse_owner(owner_bits(o) + rest) == Some((o, rest)),
{
    let r2 = u32_bits(o.bricks) + rest;
    let r1 = text_bits(o.name) + r2;
    assert(owner_bits(o) + rest =~= bytes_bits(o.id) + r1);
    lemma_parse_bytes(o.id, r1);
    lemma_parse_text(o.name, r2);
    lemma_parse_u32(o.bricks, rest);
}

/// What was written for a table of texts is read back, whatever follows it.
pub proof fn lemma_parse_texts(items: Seq<Seq<char>>, rest: Seq<bool>)
    requires
        texts_fit(items),
    ensures
        parse_table(table_bits(items, text_writer()) + rest, text_reader()) == Some((items, rest)),
{
    assert forall|i: int, r: Seq<bool>| 0 <= i < items.len() implies #[trigger] text_reader()(
        text_writer()(items[i]) + r,
    ) == Some((items[i], r)) by {
        lemma_parse_text(items[i], r);
    }
    lemma_parse_table(items, text_writer(), text_reader(), rest, 1);
}

/// What was written for a table of colours is read back, whatever follows it.
pub proof fn lemma_parse_colors(items: Seq<Color>, rest: Seq<bool>)
    requires
        items.len() <= MAX_LEN,
    ensures
        parse_table(table_bits(items, color_writer()) + rest, color_reader()) == Some(
            (items, rest),
        ),
{
    assert forall|i: int, r: Seq<bool>| 0 <= i < items.len() implies #[trigger] color_reader()(
        color_writer()(items[i]) + r,
    ) == Some((items[i], r)) by {
        lemma_parse_color(items[i], r);
    }
    lemma_parse_table(items, color_writer(), color_reader(), rest, 1);
}

/// What was written for a table of owners is read back, whatever follows it.
pub proof fn lemma_parse_owners(items: Seq<BrickOwnerView>, rest: Seq<bool>)
    requires
        owners_fit(items),
        forall|i: int| 0 <= i < items.len() ==> (#[trigger] items[i]).id.len() == 16,
    ensures
        parse_table(table_bits(items, owner_writer()) + rest, owner_reader()) == Some(
            (items, rest),
        ),
{
    assert forall|i: int, r: Seq<bool>| 0 <= i < items.len() implies #[trigger] owner_reader()(
        owner_writer()(items[i]) + r,
    ) == Some((items[i], r)) by {
        lemma_parse_owner(items[i], r);
    }
    lemma_parse_table(items, owner_writer(), owner_reader(), rest, 1);
}

/// A second header that was written is read back.
pub proof fn lemma_parse_catalog(c: Header2View, rest: Seq<bool>)
    requires
        c.wf(),
        c.fits(),
    ensures
        parse_catalog(catalog_bits(c) + rest) == Some((c, rest)),
{
    let r5 = table_bits(c.physical_materials, text_writer()) + rest;
    let r4 = table_bits(c.brick_owners, owner_writer()) + r5;
    let r3 = table_bits(c.materials, text_writer()) + r4;
    let r2 = table_bits(c.colors, color_writer()) + r3;
    let r1 = table_bits(c.brick_assets, text_writer()) + r2;
    assert(catalog_bits(c) + rest =~= table_bits(c.mods, text_writer()) + r1);
    lemma_parse_texts(c.mods, r1);
    lemma_parse_texts(c.brick_assets, r2);
    lemma_parse_colors(c.colors, r3);
    lemma_parse_texts(c.materials, r4);
    lemma_parse_owners(c.brick_owners, r5);
    lemma_parse_texts(c.physical_materials, rest);
}

/// Writes a table of texts, unless its count or one of its lengths is too
/// large.
pub(crate) fn write_strings(sink: &mut BitSink, items: &Vec<String>) -> (r: Result<(), WriteError>)
    ensures
        match r {
            Ok(()) => texts_fit(views(items@)) && final(sink)@ == old(sink)@ + table_bits(
                views(items@),
                text_writer(),
            ),
            Err(e) => e == WriteError::TooLarge && !texts_fit(views(items@)),
        },
{
    let ghost start = sink@;
    let ghost all = views(items@);
    sink.write_count(items.len())?;
    let mut i: usize = 0;
    proof {
        lemma_repeat_bits_empty(all, text_writer());
        assert(start + table_bits(all, text_writer()) =~= sink@ + repeat_bits(
            all.skip(0),
            text_writer(),
        ));
    }
    while i < items.len()
        invariant
            i <= items.len(),
            all == views(items@),
            items.len() <= MAX_LEN,
            forall|j: int| 0 <= j < i ==> text_fits(#[trigger] all[j]),
            start + table_bits(all, text_writer()) == sink@ + repeat_bits(
                all.skip(i as int),
                text_writer(),
            ),
        decreases items.len() - i,
    {
        let ghost before = sink@;
        match sink.write_string(&items[i]) {
            Ok(()) => {},
            Err(e) => {
                assert(!text_fits(all[i as int]));
                return Err(e);
            },
        }
        proof {
            lemma_repeat_bits_step(all, text_writer(), i as int);
            assert(before + repeat_bits(all.skip(i as int), text_writer()) =~= sink@ + repeat_bits(
                all.skip(i + 1),
                text_writer(),
            ));
        }
        i = i + 1;
    }
    proof {
        lemma_repeat_bits_empty(all, text_writer());
        assert(sink@ + Seq::<bool>::empty() =~= sink@);
    }
    Ok(())
}

/// Reads a table of texts.
pub(crate) fn read_strings(src: &mut BitSource) -> (r: Option<Vec<String>>)
    ensures
        match r {
            Some(v) => parse_table(old(src)@, text_reader()) == Some((views(v@), final(src)@)),
            None => parse_table(old(src)@, text_reader()) is None,
        },
{
    let ghost start = src@;
    let n = src.read_count()?;
    let mut out: Vec<String> = Vec::new();
    let mut i: usize = 0;
    proof {
        assert(views(out@) =~= Seq::<Seq<char>>::empty());
        assert(after(views(out@), parse_repeat(src@, n as nat, text_reader())) =~= parse_repeat(
            src@,
            n as nat,
            text_reader(),
        )) by {
            let more = parse_repeat(src@, n as nat, text_reader());
            if more is Some {
                assert(views(out@) + item_of(more) =~= item_of(more));
            }
        }
    }
    while i < n
        invariant
            i <= n,
            start == old(src)@,
            parse_table(start, text_reader()) == after(
                views(out@),
                parse_repeat(src@, (n - i) as nat, text_reader()),
            ),
        decreases n - i,
    {
        proof {
            lemma_parse_repeat_step(views(out@), src@, (n - i) as nat, text_reader());
        }
        let ghost done = views(out@);
        let text = src.read_string()?;
        out.push(text);
        proof {
            assert(views(out@) =~= done.push(text@));
        }
        i = i + 1;
    }
    proof {
        lemma_parse_repeat_done(views(out@), src@, text_reader());
    }
    Some(out)
}

/// Writes the table of colours, unless its count is too large.
pub(crate) fn write_colors(sink: &mut BitSink, items: &Vec<Color>) -> (r: Result<(), WriteError>)
    ensures
        match r {
            Ok(()) => items@.len() <= MAX_LEN && final(sink)@ == old(sink)@ + table_bits(
                items@,
                color_writer(),
            ),
            Err(e) => e == WriteError::TooLarge && items@.len() > MAX_LEN,
        },
{
    let ghost start = sink@;
    let ghost all = items@;
    sink.write_count(items.len())?;
    let mut i: usize = 0;
    proof {
        lemma_repeat_bits_empty(all, color_writer());
        assert(start + table_bits(all, color_writer()) =~= sink@ + repeat_bits(
            all.skip(0),
            color_writer(),
        ));
    }
    while i < items.len()
        invariant
            i <= items.len(),
            all == items@,
            start + table_bits(all, color_writer()) == sink@ + repeat_bits(
                all.skip(i as int),
                color_writer(),
            ),
        decreases items.len() - i,
    {
        let ghost before = sink@;
        let c = items[i];
        let bgra = [c.b, c.g, c.r, c.a];
        sink.write_bytes(bgra.as_slice());
        proof {
            assert(bgra@ =~= seq![c.b, c.g, c.r, c.a]);
            lemma_repeat_bits_step(all, color_writer(), i as int);
            assert(before + repeat_bits(all.skip(i as int), color_writer()) =~= sink@
                + repeat_bits(all.skip(i + 1), color_writer()));
        }
        i = i + 1;
    }
    proof {
        lemma_repeat_bits_empty(all, color_writer());
        assert(sink@ + Seq::<bool>::empty() =~= sink@);
    }
    Ok(())
}

/// Reads one colour of a table.
pub fn read_color(src: &mut BitSource) -> (r: Option<Color>)
    ensures
        match r {
            Some(c) => parse_color(old(src)@) == Some((c, final(src)@)),
            None => parse_color(old(src)@) is None,
        },
{
    let b = src.read_bytes(4)?;
    Some(Color { r: b[2], g: b[1], b: b[0], a: b[3] })
}

/// Reads the table of colours.
pub(crate) fn read_colors(src: &mut BitSource) -> (r: Option<Vec<Color>>)
    ensures
        match r {
            Some(v) => parse_table(old(src)@, color_reader()) == Some((v@, final(src)@)),
            None => parse_table(old(src)@, color_reader()) is None,
        },
{
    let ghost start = src@;
    let n = src.read_count()?;
    let mut out: Vec<Color> = Vec::new();
    let mut i: usize = 0;
    proof {
        let more = parse_repeat(src@, n as nat, color_reader());
        if more is Some {
            assert(out@ + item_of(more) =~= item_of(more));
        }
    }
    while i < n
        invariant
            i <= n,
            start == old(src)@,
            parse_table(start, color_reader()) == after(
                out@,
                parse_repeat(src@, (n - i) as nat, color_reader()),
            ),
        decreases n - i,
    {
        proof {
            lemma_parse_repeat_step(out@, src@, (n - i) as nat, color_reader());
        }
        let c = read_color(src)?;
        out.push(c);
        i = i + 1;
    }
    proof {
        lemma_parse_repeat_done(out@, src@, color_reader());
    }
    Some(out)
}

/// Writes the table of owners, unless its count or a name is too long.
pub(crate) fn write_owners(sink: &mut BitSink, items: &Vec<BrickOwner>) -> (r: Result<(), WriteError>)
    ensures
        match r {
            Ok(()) => owners_fit(views(items@)) && final(sink)@ == old(sink)@ + table_bits(
                views(items@),
                owner_writer(),
            ),
            Err(e) => e == WriteError::TooLarge && !owners_fit(views(items@)),
        },
{
    let ghost start = sink@;
    let ghost all = views(items@);
    sink.write_count(items.len())?;
    let mut i: usize = 0;
    proof {
        lemma_repeat_bits_empty(all, owner_writer());
        assert(start + table_bits(all, owner_writer()) =~= sink@ + repeat_bits(
            all.skip(0),
            owner_writer(),
        ));
    }
    while i < items.len()
        invariant
            i <= items.len(),
            all == views(items@),
            items.len() <= MAX_LEN,
            forall|j: int| 0 <= j < i ==> text_fits((#[trigger] all[j]).name),
            start + table_bits(all, owner_writer()) == sink@ + repeat_bits(
                all.skip(i as int),
                owner_writer(),
            ),
        decreases items.len() - i,
    {
        let ghost before = sink@;
        let owner = &items[i];
        sink.write_bytes(owner.id.as_slice());
        match sink.write_string(&owner.name) {
            Ok(()) => {},
            Err(e) => {
                assert(!text_fits(all[i as int].name));
                return Err(e);
            },
        }
        sink.write_u32(owner.bricks);
        proof {
            lemma_repeat_bits_step(all, owner_writer(), i as int);
            assert(before + repeat_bits(all.skip(i as int), owner_writer()) =~= sink@
                + repeat_bits(all.skip(i + 1), owner_writer()));
        }
        i = i + 1;
    }
    proof {
        lemma_repeat_bits_empty(all, owner_writer());
        assert(sink@ + Seq::<bool>::empty() =~= sink@);
    }
    Ok(())
}

/// Reads one owner.
pub(crate) fn read_owner(src: &mut BitSource) -> (r: Option<BrickOwner>)
    ensures
        match r {
            Some(o) => o@.id.len() == 16 && parse_owner(old(src)@) == Some((o@, final(src)@)),
            None => parse_owner(old(src)@) is None,
        },
{
    let id = src.read_bytes(16)?;
    let name = src.read_string()?;
    let bricks = src.read_u32()?;
    Some(BrickOwner { id: id_of(&id), name, bricks })
}

/// Reads the table of owners.
pub(crate) fn read_owners(src: &mut BitSource) -> (r: Option<Vec<BrickOwner>>)
    ensures
        match r {
            Some(v) => parse_table(old(src)@, owner_reader()) == Some((views(v@), final(src)@)),
            None => parse_table(old(src)@, owner_reader()) is None,
        },
{
    let ghost start = src@;
    let n = src.read_count()?;
    let mut out: Vec<BrickOwner> = Vec::new();
    let mut i: usize = 0;
    proof {
        assert(views(out@) =~= Seq::<BrickOwnerView>::empty());
        let more = parse_repeat(src@, n as nat, owner_reader());
        if more is Some {
            assert(views(out@) + item_of(more) =~= item_of(more));
        }
    }
    while i < n
        invariant
            i <= n,
            start == old(src)@,
            parse_table(start, owner_reader()) == after(
                views(out@),
                parse_repeat(src@, (n - i) as nat, owner_reader()),
            ),
        decreases n - i,
    {
        proof {
            lemma_parse_repeat_step(views(out@), src@, (n - i) as nat, owner_reader());
        }
        let ghost done = views(out@);
        let owner = read_owner(src)?;
        let ghost owner_view = owner@;
        out.push(owner);
        proof {
            assert(views(out@) =~= done.push(owner_view));
        }
        i = i + 1;
    }
    proof {
        lemma_parse_repeat_done(views(out@), src@, owner_reader());
    }
    Some(out)
}

/// Writes the second header, unless one of its counts or lengths is too
/// large to be said.
pub(crate) fn write_catalog(sink: &mut BitSink, header: &Header2) -> (r: Result<(), WriteError>)
    ensures
        match r {
            Ok(()) => header@.fits() && final(sink)@ == old(sink)@ + catalog_bits(header@),
            Err(e) => e == WriteError::TooLarge && !header@.fits(),
        },
{
    let ghost start = sink@;
    write_strings(sink, &header.mods)?;
    write_strings(sink, &header.brick_assets)?;
    write_colors(sink, &header.colors)?;
    write_strings(sink, &header.materials)?;
    write_owners(sink, &header.brick_owners)?;
    write_strings(sink, &header.physical_materials)?;
    proof {
        assert(sink@ =~= start + catalog_bits(header@));
    }
    Ok(())
}

/// Reads the second header.
pub(crate) fn read_catalog(src: &mut BitSource) -> (r: Option<Header2>)
    ensures
        match r {
            Some(h) => parse_catalog(old(src)@) == Some((h@, final(src)@)),
            None => parse_catalog(old(src)@) is None,
        },
{
    let mods = read_strings(src)?;
    let brick_assets = read_strings(src)?;
    let colors = read_colors(src)?;
    let materials = read_strings(src)?;
    let brick_owners = read_owners(src)?;
    let physical_materials = read_strings(src)?;
    Some(Header2 { mods, brick_assets, colors, materials, brick_owners, physical_materials })
}

/// The content of the block of the first header, unless one of its texts
/// is too long or its brick count too large to be said.
pub fn encode_identity(header: &Header1) -> (r: Result<Vec<u8>, WriteError>)
    ensures
        match r {
            Ok(bytes) => header@.fits() && bytes@ == payload_of(identity_bits(header@)),
            Err(e) => e == WriteError::TooLarge && !header@.fits(),
        },
{
    let mut sink = BitSink::new();
    match write_identity(&mut sink, header) {
        Ok(()) => {
            proof {
                assert(Seq::<bool>::empty() + identity_bits(header@) =~= identity_bits(header@));
            }
            Ok(sink.finish())
        },
        Err(e) => Err(e),
    }
}

/// The first header that the content of a block holds. Bytes behind the
/// header are passed over.
pub fn decode_identity(payload: Vec<u8>) -> (r: Option<Header1>)
    ensures
        match r {
            Some(h) => h@.wf() && parse_identity(bytes_bits(payload@)) is Some && item_of(
                parse_identity(bytes_bits(payload@)),
            ) == h@,
            None => parse_identity(bytes_bits(payload@)) is None,
        },
{
    let mut source = BitSource::new(payload);
    read_identity(&mut source)
}

/// The content of the block of the second header, unless one of its counts
/// or lengths is too large to be said.
pub fn encode_catalog(header: &Header2) -> (r: Result<Vec<u8>, WriteError>)
    ensures
        match r {
            Ok(bytes) => header@.fits() && bytes@ == payload_of(catalog_bits(header@)),
            Err(e) => e == WriteError::TooLarge && !header@.fits(),
        },
{
    let mut sink = BitSink::new();
    match write_catalog(&mut sink, header) {
        Ok(()) => {
            proof {
                assert(Seq::<bool>::empty() + catalog_bits(header@) =~= catalog_bits(header@));
            }
            Ok(sink.finish())
        },
        Err(e) => Err(e),
    }
}

/// The second header that the content of a block holds. Bytes behind the
/// header are passed over.
pub fn decode_catalog(payload: Vec<u8>) -> (r: Option<Header2>)
    ensures
        match r {
            Some(h) => parse_catalog(bytes_bits(payload@)) is Some && item_of(
                parse_catalog(bytes_bits(payload@)),
            ) == h@,
            None => parse_catalog(bytes_bits(payload@)) is None,
        },
{
    let mut source = BitSource::new(payload);
    read_catalog(&mut source)
}

} // verus!
