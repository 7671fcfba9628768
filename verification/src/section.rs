//! Writing the component table.

use crate::bits::{lemma_bytes_bits_len, lemma_padded_aligned, lemma_padded_concat, payload_of};
use crate::brick::index_width;
use crate::component::{
    brick_agrees, components_agree, components_bits, entry_fits, entry_writer, has_component,
    lemma_members, member_writer, members, row_bits, row_of, row_writer, section_bits,
    section_body_bits, section_of, section_writer, sections_of, value_writer, values_match,
    Section,
};
use crate::endian::{le_bytes, lemma_le_bytes_len};
use crate::lookup::{check_components, find_component, find_property, indices, member_list};
use crate::repeat::{lemma_repeat_bits_empty, lemma_repeat_bits_step, repeat_bits, table_bits};
use crate::save::{
    values_of, views, Brick, BrickView, Component, ComponentView, Property, SchemaEntry,
    SchemaEntryView, ValueView,
};
use crate::scalar::MAX_LEN;
use crate::stream::BitSink;
use crate::value::{value_fits, write_value};
use crate::write::WriteError;
use vstd::prelude::*;

verus! {

// ---------------------------------------------------------------------------
// Writing
// ---------------------------------------------------------------------------

/// Whether every value of a row can be written.
pub open spec fn row_fits(row: Seq<ValueView>) -> bool {
    forall|j: int| 0 <= j < row.len() ==> value_fits(#[trigger] row[j])
}

/// Whether every entry of a schema, and their count, can be written.
pub open spec fn schema_fits(schema: Seq<SchemaEntryView>) -> bool {
    &&& schema.len() <= MAX_LEN
    &&& forall|j: int| 0 <= j < schema.len() ==> entry_fits(#[trigger] schema[j])
}

/// Whether every section, and their count, can be written.
pub open spec fn sections_fit(sections: Seq<Section>) -> bool {
    &&& sections.len() <= MAX_LEN
    &&& forall|j: int| 0 <= j < sections.len() ==> (#[trigger] sections[j]).fits()
}

/// Whether every brick that carries the component has a value for each of
/// its properties and for no other.
pub open spec fn carriers_match(c: ComponentView, bricks: Seq<BrickView>) -> bool {
    forall|i: int|
        0 <= i < bricks.len() && has_component(#[trigger] bricks[i], c.name) ==> values_match(
            bricks[i].components[c.name],
            c.properties,
        )
}

fn write_schema(sink: &mut BitSink, schema: &Vec<SchemaEntry>) -> (r: Result<(), WriteError>)
    ensures
        match r {
            Ok(()) => schema_fits(views(schema@)) && final(sink)@ == old(sink)@ + table_bits(
                views(schema@),
                entry_writer(),
            ),
            Err(e) => e == WriteError::TooLarge && !schema_fits(views(schema@)),
        },
{
    let ghost start = sink@;
    let ghost all = views(schema@);
    sink.write_count(schema.len())?;
    let mut j: usize = 0;
    proof {
        lemma_repeat_bits_empty(all, entry_writer());
        assert(start + table_bits(all, entry_writer()) =~= sink@ + repeat_bits(
            all.skip(0),
            entry_writer(),
        ));
    }
    while j < schema.len()
        invariant
            j <= schema.len(),
            all == views(schema@),
            schema.len() <= MAX_LEN,
            forall|m: int| 0 <= m < j ==> entry_fits(#[trigger] all[m]),
            start + table_bits(all, entry_writer()) == sink@ + repeat_bits(
                all.skip(j as int),
                entry_writer(),
            ),
        decreases schema.len() - j,
    {
        let ghost before = sink@;
        match sink.write_string(&schema[j].name) {
            Ok(()) => {},
            Err(e) => {
                assert(!entry_fits(all[j as int]));
                return Err(e);
            },
        }
        match sink.write_string(&schema[j].kind) {
            Ok(()) => {},
            Err(e) => {
                assert(!entry_fits(all[j as int]));
                return Err(e);
            },
        }
        proof {
            lemma_repeat_bits_step(all, entry_writer(), j as int);
            assert(before + repeat_bits(all.skip(j as int), entry_writer()) =~= sink@
                + repeat_bits(all.skip(j + 1), entry_writer()));
        }
        j = j + 1;
    }
    proof {
        lemma_repeat_bits_empty(all, entry_writer());
        assert(sink@ + Seq::<bool>::empty() =~= sink@);
    }
    Ok(())
}

fn write_members(sink: &mut BitSink, list: &Vec<usize>, width: u32, Ghost(n): Ghost<nat>)
    requires
        list@.len() <= MAX_LEN,
        width == index_width(n),
    ensures
        final(sink)@ == old(sink)@ + table_bits(indices(list@), member_writer(n)),
{
    let ghost start = sink@;
    let ghost all = indices(list@);
    sink.write_i32(list.len() as i32);
    proof {
        assert(crate::endian::i32_wire(list@.len() as i32) == list@.len());
    }
    let mut k: usize = 0;
    proof {
        lemma_repeat_bits_empty(all, member_writer(n));
        assert(start + table_bits(all, member_writer(n)) =~= sink@ + repeat_bits(
            all.skip(0),
            member_writer(n),
        ));
    }
    while k < list.len()
        invariant
            k <= list.len(),
            all == indices(list@),
            width == index_width(n),
            start + table_bits(all, member_writer(n)) == sink@ + repeat_bits(
                all.skip(k as int),
                member_writer(n),
            ),
        decreases list.len() - k,
    {
        let ghost before = sink@;
        sink.write_uint(list[k] as u64, width);
        proof {
            lemma_repeat_bits_step(all, member_writer(n), k as int);
            assert(before + repeat_bits(all.skip(k as int), member_writer(n)) =~= sink@
                + repeat_bits(all.skip(k + 1), member_writer(n)));
        }
        k = k + 1;
    }
    proof {
        lemma_repeat_bits_empty(all, member_writer(n));
        assert(sink@ + Seq::<bool>::empty() =~= sink@);
    }
}

fn write_row(sink: &mut BitSink, props: &Vec<Property>, schema: &Vec<SchemaEntry>) -> (r: Result<
    (),
    WriteError,
>)
    requires
        values_match(values_of(props@), views(schema@)),
    ensures
        match r {
            Ok(()) => row_fits(row_of(values_of(props@), views(schema@))) && final(sink)@ == old(sink)@ + row_bits(row_of(values_of(props@), views(schema@))),
            Err(e) => e == WriteError::TooLarge && !row_fits(
                row_of(values_of(props@), views(schema@)),
            ),
        },
{
    let ghost start = sink@;
    let ghost row = row_of(values_of(props@), views(schema@));
    let mut j: usize = 0;
    proof {
        lemma_repeat_bits_empty(row, value_writer());
        assert(start + row_bits(row) =~= sink@ + repeat_bits(row.skip(0), value_writer()));
    }
    while j < schema.len()
        invariant
            j <= schema.len(),
            row == row_of(values_of(props@), views(schema@)),
            values_match(values_of(props@), views(schema@)),
            forall|m: int| 0 <= m < j ==> value_fits(#[trigger] row[m]),
            start + row_bits(row) == sink@ + repeat_bits(row.skip(j as int), value_writer()),
        decreases schema.len() - j,
    {
        let ghost before = sink@;
        proof {
            assert(views(schema@)[j as int].name == schema@[j as int].name@);
        }
        let at = match find_property(props, &schema[j].name) {
            Some(at) => at,
            None => {
                assert(false);
                return Err(WriteError::Component);
            },
        };
        match write_value(sink, &props[at].value) {
            Ok(()) => {},
            Err(e) => {
                assert(!value_fits(row[j as int]));
                return Err(e);
            },
        }
        proof {
            lemma_repeat_bits_step(row, value_writer(), j as int);
            assert(before + repeat_bits(row.skip(j as int), value_writer()) =~= sink@
                + repeat_bits(row.skip(j + 1), value_writer()));
        }
        j = j + 1;
    }
    proof {
        lemma_repeat_bits_empty(row, value_writer());
        assert(sink@ + Seq::<bool>::empty() =~= sink@);
    }
    Ok(())
}

fn write_rows(
    sink: &mut BitSink,
    component: &Component,
    bricks: &Vec<Brick>,
    list: &Vec<usize>,
) -> (r: Result<(), WriteError>)
    requires
        carriers_match(component@, views(bricks@)),
        indices(list@) == members(views(bricks@), component@.name),
    ensures
        match r {
            Ok(()) => (forall|k: int|
                0 <= k < section_of(component@, views(bricks@)).rows.len() ==> row_fits(
                    #[trigger] section_of(component@, views(bricks@)).rows[k],
                )) && final(sink)@ == old(sink)@ + repeat_bits(
                section_of(component@, views(bricks@)).rows,
                row_writer(),
            ),
            Err(e) => e == WriteError::TooLarge && exists|k: int|
                0 <= k < section_of(component@, views(bricks@)).rows.len() && !row_fits(
                    #[trigger] section_of(component@, views(bricks@)).rows[k],
                ),
        },
{
    let ghost start = sink@;
    let ghost all = views(bricks@);
    let ghost rows = section_of(component@, all).rows;
    let mut k: usize = 0;
    proof {
        lemma_members(all, component@.name);
        lemma_repeat_bits_empty(rows, row_writer());
        assert(start + repeat_bits(rows, row_writer()) =~= sink@ + repeat_bits(
            rows.skip(0),
            row_writer(),
        ));
    }
    while k < list.len()
        invariant
            k <= list.len(),
            all == views(bricks@),
            rows == section_of(component@, all).rows,
            rows.len() == list@.len(),
            carriers_match(component@, all),
            indices(list@) == members(all, component@.name),
            forall|m: int|
                0 <= m < list@.len() ==> (#[trigger] members(all, component@.name)[m]) < all.len()
                    && has_component(all[members(all, component@.name)[m] as int], component@.name),
            forall|m: int| 0 <= m < k ==> row_fits(#[trigger] rows[m]),
            start + repeat_bits(rows, row_writer()) == sink@ + repeat_bits(
                rows.skip(k as int),
                row_writer(),
            ),
        decreases list.len() - k,
    {
        let ghost before = sink@;
        proof {
            assert(indices(list@)[k as int] == list@[k as int] as nat);
            assert(members(all, component@.name)[k as int] == list@[k as int] as nat);
        }
        let brick = &bricks[list[k]];
        proof {
            assert(all[list@[k as int] as int] == brick@);
            assert(has_component(brick@, component@.name));
        }
        let at = match find_component(brick, &component.name) {
            Some(at) => at,
            None => {
                assert(false);
                return Err(WriteError::Component);
            },
        };
        proof {
            assert(rows[k as int] == row_of(
                values_of(brick.components@[at as int].properties@),
                views(component.properties@),
            ));
        }
        match write_row(sink, &brick.components[at].properties, &component.properties) {
            Ok(()) => {},
            Err(e) => {
                assert(!row_fits(rows[k as int]));
                return Err(e);
            },
        }
        proof {
            lemma_repeat_bits_step(rows, row_writer(), k as int);
            assert(before + repeat_bits(rows.skip(k as int), row_writer()) =~= sink@
                + repeat_bits(rows.skip(k + 1), row_writer()));
        }
        k = k + 1;
    }
    proof {
        lemma_repeat_bits_empty(rows, row_writer());
        assert(sink@ + Seq::<bool>::empty() =~= sink@);
    }
    Ok(())
}

/// Writes the section of a component over the bricks of a save, unless one
/// of its lengths or counts is too large to be said.
pub(crate) fn write_section(
    sink: &mut BitSink,
    component: &Component,
    bricks: &Vec<Brick>,
    width: u32,
) -> (r: Result<(), WriteError>)
    requires
        old(sink)@.len() % 8 == 0,
        width == index_width(bricks@.len()),
        carriers_match(component@, views(bricks@)),
    ensures
        match r {
            Ok(()) => section_of(component@, views(bricks@)).fits() && final(sink)@ == old(sink)@
                + section_bits(section_of(component@, views(bricks@)), bricks@.len()),
            Err(e) => e == WriteError::TooLarge && !section_of(component@, views(bricks@)).fits(),
        },
{
    let ghost start = sink@;
    let ghost x = section_of(component@, views(bricks@));
    let ghost n = bricks@.len();
    sink.write_string(&component.name)?;
    sink.write_i32(component.version);
    let list = member_list(bricks, &component.name);
    if list.len() > MAX_LEN {
        return Err(WriteError::TooLarge);
    }
    write_members(sink, &list, width, Ghost(n));
    match write_schema(sink, &component.properties) {
        Ok(()) => {},
        Err(e) => {
            return Err(e);
        },
    }
    match write_rows(sink, component, bricks, &list) {
        Ok(()) => {},
        Err(e) => {
            return Err(e);
        },
    }
    proof {
        assert(sink@ =~= start + section_body_bits(x, n));
        lemma_padded_concat(start, section_body_bits(x, n));
    }
    sink.byte_align();
    Ok(())
}

/// Whether the bricks that carry a component match it, for every component.
#[verifier::opaque]
pub open spec fn all_carriers_match(components: Seq<ComponentView>, bricks: Seq<BrickView>) -> bool {
    forall|j: int| 0 <= j < components.len() ==> carriers_match(#[trigger] components[j], bricks)
}

/// Whether the sections before the `j`-th can be written.
#[verifier::opaque]
pub open spec fn fit_before(sections: Seq<Section>, j: int) -> bool {
    forall|m: int| 0 <= m < j ==> (#[trigger] sections[m]).fits()
}

proof fn lemma_carrier(components: Seq<ComponentView>, bricks: Seq<BrickView>, j: int)
    requires
        all_carriers_match(components, bricks),
        0 <= j < components.len(),
    ensures
        carriers_match(components[j], bricks),
{
    reveal(all_carriers_match);
}

proof fn lemma_fit_before(sections: Seq<Section>, j: int)
    requires
        0 <= j < sections.len(),
        fit_before(sections, j),
    ensures
        sections[j].fits() ==> fit_before(sections, j + 1),
        !sections[j].fits() ==> !sections_fit(sections),
{
    reveal(fit_before);
}

proof fn lemma_fit_none(sections: Seq<Section>)
    ensures
        fit_before(sections, 0),
{
    reveal(fit_before);
}

proof fn lemma_fit_all(sections: Seq<Section>)
    requires
        fit_before(sections, sections.len() as int),
        sections.len() <= MAX_LEN,
    ensures
        sections_fit(sections),
{
    reveal(fit_before);
}

/// Writes the `j`-th section of a save.
fn write_section_at(
    sink: &mut BitSink,
    components: &Vec<Component>,
    bricks: &Vec<Brick>,
    j: usize,
    width: u32,
) -> (r: Result<(), WriteError>)
    requires
        j < components@.len(),
        old(sink)@.len() % 8 == 0,
        width == index_width(bricks@.len()),
        all_carriers_match(views(components@), views(bricks@)),
    ensures
        match r {
            Ok(()) => sections_of(views(components@), views(bricks@))[j as int].fits() && final(sink)@ == old(sink)@ + section_writer(bricks@.len())(
                sections_of(views(components@), views(bricks@))[j as int],
            ) && final(sink)@.len() % 8 == 0,
            Err(e) => e == WriteError::TooLarge && !sections_of(
                views(components@),
                views(bricks@),
            )[j as int].fits(),
        },
{
    proof {
        lemma_carrier(views(components@), views(bricks@), j as int);
        assert(views(components@)[j as int] == components@[j as int]@);
        lemma_padded_aligned(
            section_body_bits(section_of(components@[j as int]@, views(bricks@)), bricks@.len()),
        );
    }
    write_section(sink, &components[j], bricks, width)
}

/// Writes the component table of a save whose bricks and components agree,
/// unless one of its lengths or counts is too large to be said.
pub(crate) fn write_component_table(
    sink: &mut BitSink,
    components: &Vec<Component>,
    bricks: &Vec<Brick>,
) -> (r: Result<(), WriteError>)
    requires
        old(sink)@.len() == 0,
        all_carriers_match(views(components@), views(bricks@)),
    ensures
        match r {
            Ok(()) => sections_fit(sections_of(views(components@), views(bricks@))) && final(sink)@ == components_bits(
                sections_of(views(components@), views(bricks@)),
                bricks@.len(),
            ),
            Err(e) => e == WriteError::TooLarge && !sections_fit(
                sections_of(views(components@), views(bricks@)),
            ),
        },
{
    let ghost n = bricks@.len();
    let ghost sections = sections_of(views(components@), views(bricks@));
    let ghost w = section_writer(n);
    let width = crate::brick::IndexField::of(bricks.len()).width;
    proof {
        lemma_fit_none(sections);
    }
    sink.write_count(components.len())?;
    let mut j: usize = 0;
    proof {
        lemma_le_bytes_len(components@.len(), 4);
        lemma_bytes_bits_len(le_bytes(components@.len(), 4));
        lemma_repeat_bits_empty(sections, w);
        assert(components_bits(sections, n) =~= sink@ + repeat_bits(sections.skip(0), w));
    }
    while j < components.len()
        invariant
            j <= components.len(),
            n == bricks@.len(),
            width == index_width(n),
            sections == sections_of(views(components@), views(bricks@)),
            sections.len() == components@.len(),
            w == section_writer(n),
            components@.len() <= MAX_LEN,
            sink@.len() % 8 == 0,
            all_carriers_match(views(components@), views(bricks@)),
            fit_before(sections, j as int),
            components_bits(sections, n) == sink@ + repeat_bits(sections.skip(j as int), w),
        decreases components.len() - j,
    {
        let ghost before = sink@;
        proof {
            lemma_fit_before(sections, j as int);
        }
        match write_section_at(sink, components, bricks, j, width) {
            Ok(()) => {},
            Err(e) => {
                return Err(e);
            },
        }
        proof {
            lemma_repeat_bits_step(sections, w, j as int);
            assert(before + repeat_bits(sections.skip(j as int), w) =~= sink@ + repeat_bits(
                sections.skip(j + 1),
                w,
            ));
        }
        j = j + 1;
    }
    proof {
        lemma_fit_all(sections);
        lemma_repeat_bits_empty(sections, w);
        assert(sink@ + Seq::<bool>::empty() =~= sink@);
    }
    Ok(())
}

/// Bricks that agree with the components match each of them.
pub proof fn lemma_agree_carriers(components: Seq<ComponentView>, bricks: Seq<BrickView>)
    requires
        components_agree(components, bricks),
    ensures
        all_carriers_match(components, bricks),
{
    reveal(all_carriers_match);
    assert forall|j: int| 0 <= j < components.len() implies carriers_match(
        #[trigger] components[j],
        bricks,
    ) by {
        assert forall|i: int|
            0 <= i < bricks.len() && has_component(
                #[trigger] bricks[i],
                components[j].name,
            ) implies values_match(
            bricks[i].components[components[j].name],
            components[j].properties,
        ) by {
            assert(brick_agrees(bricks[i], components));
        }
    }
}

/// The content of the block of the component table, unless bricks and
/// components disagree or, where they agree, a length or count is too large
/// to be said.
pub fn encode_component_table(components: &Vec<Component>, bricks: &Vec<Brick>) -> (r: Result<
    Vec<u8>,
    WriteError,
>)
    ensures
        match r {
            Ok(bytes) => components_agree(views(components@), views(bricks@)) && sections_fit(
                sections_of(views(components@), views(bricks@)),
            ) && bytes@ == payload_of(
                components_bits(sections_of(views(components@), views(bricks@)), bricks@.len()),
            ),
            Err(e) => if components_agree(views(components@), views(bricks@)) {
                e == WriteError::TooLarge && !sections_fit(
                    sections_of(views(components@), views(bricks@)),
                )
            } else {
                e == WriteError::Component
            },
        },
{
    if !check_components(components, bricks) {
        return Err(WriteError::Component);
    }
    proof {
        lemma_agree_carriers(views(components@), views(bricks@));
    }
    let mut sink = BitSink::new();
    match write_component_table(&mut sink, components, bricks) {
        Ok(()) => Ok(sink.finish()),
        Err(e) => Err(e),
    }
}

} // verus!
