//! The component table: for each component its name, its version, the
//! bricks that carry it, the properties it declares and, brick by brick, the
//! value of each property.

use crate::bits::{
    lemma_padded_aligned, lemma_realigned_padding, pad_len, padded, realigned, uint_bits, zeros,
};
use crate::brick::{index_width, lemma_index_width};
use crate::repeat::{
    item_of, lemma_parse_repeat, lemma_parse_repeat_all, lemma_parse_table, parse_repeat,
    parse_table, repeat_bits, rest_of, table_bits, Parsed,
};
use crate::save::{BrickView, ComponentView, SchemaEntryView, ValueView, Values};
use crate::scalar::{
    i32_bits, lemma_parse_i32, lemma_parse_text, lemma_parse_uint, parse_count, parse_i32,
    parse_text, parse_uint, text_bits, text_fits, MAX_LEN,
};
use crate::value::{lemma_parse_value, parse_value, value_bits, value_fits};
use vstd::prelude::*;

verus! {

// ---------------------------------------------------------------------------
// Which bricks carry a component
// ---------------------------------------------------------------------------

/// Whether a brick carries the component of this name.
pub open spec fn has_component(b: BrickView, name: Seq<char>) -> bool {
    b.components.dom().contains(name)
}

/// The indices of the bricks that carry the component, in rising order.
pub open spec fn members(bricks: Seq<BrickView>, name: Seq<char>) -> Seq<nat>
    decreases bricks.len(),
{
    if bricks.len() == 0 {
        Seq::empty()
    } else {
        let before = members(bricks.drop_last(), name);
        if has_component(bricks.last(), name) {
            before.push((bricks.len() - 1) as nat)
        } else {
            before
        }
    }
}

/// Whether each number of a list is larger than the one before it.
pub open spec fn ascending(list: Seq<nat>) -> bool {
    forall|a: int, b: int| 0 <= a < b < list.len() ==> list[a] < list[b]
}

/// The list of members holds the bricks that carry the component, each once
/// and in rising order.
pub proof fn lemma_members(bricks: Seq<BrickView>, name: Seq<char>)
    ensures
        ascending(members(bricks, name)),
        members(bricks, name).len() <= bricks.len(),
        forall|k: int|
            0 <= k < members(bricks, name).len() ==> (#[trigger] members(bricks, name)[k])
                < bricks.len() && has_component(bricks[members(bricks, name)[k] as int], name),
        forall|i: int|
            0 <= i < bricks.len() && has_component(#[trigger] bricks[i], name) ==> members(
                bricks,
                name,
            ).contains(i as nat),
    decreases bricks.len(),
{
    if bricks.len() > 0 {
        let front = bricks.drop_last();
        let before = members(front, name);
        let list = members(bricks, name);
        lemma_members(front, name);
        assert forall|i: int|
            0 <= i < bricks.len() && has_component(#[trigger] bricks[i], name) implies list.contains(
            i as nat,
        ) by {
            if i < front.len() {
                assert(front[i] == bricks[i]);
                let k = choose|k: int| 0 <= k < before.len() && before[k] == i as nat;
                assert(list[k] == i as nat);
            } else {
                assert(list[list.len() - 1] == i as nat);
            }
        }
        assert forall|k: int| 0 <= k < list.len() implies (#[trigger] list[k]) < bricks.len()
            && has_component(bricks[list[k] as int], name) by {
            if k < before.len() {
                assert(list[k] == before[k]);
                assert(front[before[k] as int] == bricks[before[k] as int]);
            }
        }
    }
}

// ---------------------------------------------------------------------------
// What is written for a component
// ---------------------------------------------------------------------------

/// The values of a brick under a component, in the order of the schema.
pub open spec fn row_of(values: Values, schema: Seq<SchemaEntryView>) -> Seq<ValueView> {
    Seq::new(schema.len(), |j: int| values[schema[j].name])
}

/// What the table holds for one component: the component, the indices of
/// the bricks that carry it, and for each of these the values of the
/// component's properties, in the order of the schema.
pub struct Section {
    pub component: ComponentView,
    pub members: Seq<nat>,
    pub rows: Seq<Seq<ValueView>>,
}

/// The section of a component over the bricks of a save.
pub open spec fn section_of(c: ComponentView, bricks: Seq<BrickView>) -> Section {
    let list = members(bricks, c.name);
    Section {
        component: c,
        members: list,
        rows: Seq::new(
            list.len(),
            |k: int| row_of(bricks[list[k] as int].components[c.name], c.properties),
        ),
    }
}

/// The sections of the components of a save, in their order.
pub open spec fn sections_of(components: Seq<ComponentView>, bricks: Seq<BrickView>) -> Seq<
    Section,
> {
    Seq::new(components.len(), |j: int| section_of(components[j], bricks))
}

impl Section {
    /// Members are bricks, in rising order, with a row each, and each row
    /// holds a value for each property.
    pub open spec fn wf(self, brick_count: nat) -> bool {
        &&& ascending(self.members)
        &&& forall|k: int| 0 <= k < self.members.len() ==> (#[trigger] self.members[k]) < brick_count
        &&& self.rows.len() == self.members.len()
        &&& forall|k: int|
            0 <= k < self.rows.len() ==> (#[trigger] self.rows[k]).len()
                == self.component.properties.len()
    }

    /// Whether every length and count of the section can be said.
    pub open spec fn fits(self) -> bool {
        &&& text_fits(self.component.name)
        &&& self.members.len() <= MAX_LEN
        &&& self.component.properties.len() <= MAX_LEN
        &&& forall|j: int|
            0 <= j < self.component.properties.len() ==> entry_fits(
                #[trigger] self.component.properties[j],
            )
        &&& forall|k: int, j: int|
            0 <= k < self.rows.len() && 0 <= j < self.rows[k].len() ==> value_fits(
                #[trigger] self.rows[k][j],
            )
    }
}

/// Whether the name and the type name of a declared property can be written.
pub open spec fn entry_fits(e: SchemaEntryView) -> bool {
    text_fits(e.name) && text_fits(e.kind)
}

/// A declared property: its name, then the name of its type.
pub open spec fn entry_bits(e: SchemaEntryView) -> Seq<bool> {
    text_bits(e.name) + text_bits(e.kind)
}

/// A declared property, as it is read.
pub open spec fn parse_entry(s: Seq<bool>) -> Parsed<SchemaEntryView> {
    let name = parse_text(s);
    let kind = parse_text(rest_of(name));
    if name is Some && kind is Some {
        Some((SchemaEntryView { name: item_of(name), kind: item_of(kind) }, rest_of(kind)))
    } else {
        None
    }
}

/// The index of a brick among `brick_count` bricks; one that is no brick is
/// refused.
pub open spec fn parse_member(s: Seq<bool>, brick_count: nat) -> Parsed<nat> {
    match parse_uint(s, index_width(brick_count)) {
        Some((v, r)) => if v < brick_count {
            Some((v, r))
        } else {
            None
        },
        None => None,
    }
}

/// How the index of a brick is written, as a function.
pub open spec fn member_writer(brick_count: nat) -> spec_fn(nat) -> Seq<bool> {
    |i: nat| uint_bits(i, index_width(brick_count))
}

/// How the index of a brick is read, as a function.
pub open spec fn member_reader(brick_count: nat) -> spec_fn(Seq<bool>) -> Parsed<nat> {
    |s: Seq<bool>| parse_member(s, brick_count)
}

/// How a declared property is written, as a function.
pub open spec fn entry_writer() -> spec_fn(SchemaEntryView) -> Seq<bool> {
    |e: SchemaEntryView| entry_bits(e)
}

/// How a declared property is read, as a function.
pub open spec fn entry_reader() -> spec_fn(Seq<bool>) -> Parsed<SchemaEntryView> {
    |s: Seq<bool>| parse_entry(s)
}

/// How a value is written, as a function.
pub open spec fn value_writer() -> spec_fn(ValueView) -> Seq<bool> {
    |v: ValueView| value_bits(v)
}

/// How a value is read, as a function.
pub open spec fn value_reader() -> spec_fn(Seq<bool>) -> Parsed<ValueView> {
    |s: Seq<bool>| parse_value(s)
}

/// The values of one brick, one after another.
pub open spec fn row_bits(row: Seq<ValueView>) -> Seq<bool> {
    repeat_bits(row, value_writer())
}

/// The values of a brick, as it is read.
pub open spec fn parse_row(s: Seq<bool>, n: nat) -> Parsed<Seq<ValueView>> {
    parse_repeat(s, n, value_reader())
}

/// How the values of a brick is written, as a function.
pub open spec fn row_writer() -> spec_fn(Seq<ValueView>) -> Seq<bool> {
    |row: Seq<ValueView>| row_bits(row)
}

/// How the values of a brick is read, as a function.
pub open spec fn row_reader(n: nat) -> spec_fn(Seq<bool>) -> Parsed<Seq<ValueView>> {
    |s: Seq<bool>| parse_row(s, n)
}

/// A section before it is padded: name, version, the table of members, the
/// table of declared properties, then the rows.
pub open spec fn section_body_bits(x: Section, brick_count: nat) -> Seq<bool> {
    text_bits(x.component.name) + i32_bits(x.component.version) + table_bits(
        x.members,
        member_writer(brick_count),
    ) + table_bits(x.component.properties, entry_writer()) + repeat_bits(x.rows, row_writer())
}

/// A section as it is written, padded to a byte boundary.
pub open spec fn section_bits(x: Section, brick_count: nat) -> Seq<bool> {
    padded(section_body_bits(x, brick_count))
}

/// A section as it is read. Members that do not rise are refused.
pub open spec fn parse_section(s: Seq<bool>, brick_count: nat) -> Parsed<Section> {
    let name = parse_text(s);
    let version = parse_i32(rest_of(name));
    let list = parse_table(rest_of(version), member_reader(brick_count));
    let schema = parse_table(rest_of(list), entry_reader());
    let rows = parse_repeat(
        rest_of(schema),
        item_of(list).len(),
        row_reader(item_of(schema).len()),
    );
    if name is Some && version is Some && list is Some && ascending(item_of(list))
        && schema is Some && rows is Some {
        Some(
            (
                Section {
                    component: ComponentView {
                        name: item_of(name),
                        version: item_of(version),
                        properties: item_of(schema),
                    },
                    members: item_of(list),
                    rows: item_of(rows),
                },
                realigned(rest_of(rows)),
            ),
        )
    } else {
        None
    }
}

/// How a section is written, as a function.
pub open spec fn section_writer(brick_count: nat) -> spec_fn(Section) -> Seq<bool> {
    |x: Section| section_bits(x, brick_count)
}

/// How a section is read, as a function.
pub open spec fn section_reader(brick_count: nat) -> spec_fn(Seq<bool>) -> Parsed<Section> {
    |s: Seq<bool>| parse_section(s, brick_count)
}

/// The component table: the count of the sections, then the sections.
pub open spec fn components_bits(sections: Seq<Section>, brick_count: nat) -> Seq<bool> {
    table_bits(sections, section_writer(brick_count))
}

/// A component table that fills `s`. Two sections of one name are refused.
pub open spec fn parse_components(s: Seq<bool>, brick_count: nat) -> Option<Seq<Section>> {
    match parse_table(s, section_reader(brick_count)) {
        Some((sections, r)) => if r.len() == 0 && distinct_names(declarations(sections)) {
            Some(sections)
        } else {
            None
        },
        None => None,
    }
}

// ---------------------------------------------------------------------------
// Reading undoes writing
// ---------------------------------------------------------------------------

/// What was written for a declared property is read back, whatever follows it.
pub proof fn lemma_parse_entry(e: SchemaEntryView, rest: Seq<bool>)
    requires
        entry_fits(e),
    ensures
        parse_entry(entry_bits(e) + rest) == Some((e, rest)),
{
    let r1 = text_bits(e.kind) + rest;
    assert(entry_bits(e) + rest =~= text_bits(e.name) + r1);
    lemma_parse_text(e.name, r1);
    lemma_parse_text(e.kind, rest);
}

/// What was written for the index of a brick is read back, whatever follows it.
pub proof fn lemma_parse_member(i: nat, brick_count: nat, rest: Seq<bool>)
    requires
        i < brick_count,
    ensures
        parse_member(uint_bits(i, index_width(brick_count)) + rest, brick_count) == Some(
            (i, rest),
        ),
{
    lemma_index_width(brick_count);
    lemma_parse_uint(i, index_width(brick_count), rest);
}

/// What was written for the values of a brick is read back, whatever follows it.
pub proof fn lemma_parse_row(row: Seq<ValueView>, rest: Seq<bool>)
    requires
        forall|j: int| 0 <= j < row.len() ==> value_fits(#[trigger] row[j]),
    ensures
        parse_row(row_bits(row) + rest, row.len()) == Some((row, rest)),
{
    assert forall|j: int, r: Seq<bool>| 0 <= j < row.len() implies #[trigger] value_reader()(
        value_writer()(row[j]) + r,
    ) == Some((row[j], r)) by {
        lemma_parse_value(row[j], r);
    }
    lemma_parse_repeat(row, value_writer(), value_reader(), rest, 1);
}

/// A section that was written is read back where whole bytes follow it.
pub proof fn lemma_parse_section(x: Section, brick_count: nat, rest: Seq<bool>)
    requires
        x.wf(brick_count),
        x.fits(),
        rest.len() % 8 == 0,
    ensures
        parse_section(section_bits(x, brick_count) + rest, brick_count) == Some((x, rest)),
        section_bits(x, brick_count).len() % 8 == 0,
{
    let n = brick_count;
    let body = section_body_bits(x, n);
    let padding = zeros(pad_len(body.len()));
    let r4 = padding + rest;
    let r3 = repeat_bits(x.rows, row_writer()) + r4;
    let r2 = table_bits(x.component.properties, entry_writer()) + r3;
    let r1 = table_bits(x.members, member_writer(n)) + r2;
    let r0 = i32_bits(x.component.version) + r1;
    assert(section_bits(x, n) + rest =~= text_bits(x.component.name) + r0);
    lemma_parse_text(x.component.name, r0);
    lemma_parse_i32(x.component.version, r1);
    assert forall|i: int, r: Seq<bool>| 0 <= i < x.members.len() implies #[trigger] member_reader(
        n,
    )(member_writer(n)(x.members[i]) + r) == Some((x.members[i], r)) by {
        lemma_parse_member(x.members[i], n, r);
    }
    lemma_parse_table(x.members, member_writer(n), member_reader(n), r2, 1);
    assert forall|i: int, r: Seq<bool>|
        0 <= i < x.component.properties.len() implies #[trigger] entry_reader()(
        entry_writer()(x.component.properties[i]) + r,
    ) == Some((x.component.properties[i], r)) by {
        lemma_parse_entry(x.component.properties[i], r);
    }
    lemma_parse_table(x.component.properties, entry_writer(), entry_reader(), r3, 1);
    let width = x.component.properties.len();
    assert forall|k: int, r: Seq<bool>| 0 <= k < x.rows.len() implies #[trigger] row_reader(
        width,
    )(row_writer()(x.rows[k]) + r) == Some((x.rows[k], r)) by {
        assert forall|j: int| 0 <= j < x.rows[k].len() implies value_fits(
            #[trigger] x.rows[k][j],
        ) by {}
        lemma_parse_row(x.rows[k], r);
    }
    lemma_parse_repeat(x.rows, row_writer(), row_reader(width), r4, 1);
    lemma_realigned_padding(body.len(), rest);
    lemma_padded_aligned(body);
}

/// A component table that was written is read back.
pub proof fn lemma_parse_components(sections: Seq<Section>, brick_count: nat)
    requires
        sections.len() <= MAX_LEN,
        distinct_names(declarations(sections)),
        forall|j: int|
            0 <= j < sections.len() ==> (#[trigger] sections[j]).wf(brick_count)
                && sections[j].fits(),
    ensures
        parse_components(components_bits(sections, brick_count), brick_count) == Some(sections),
        components_bits(sections, brick_count).len() % 8 == 0,
{
    let n = brick_count;
    let rest = Seq::<bool>::empty();
    assert forall|j: int| 0 <= j < sections.len() implies (#[trigger] section_writer(n)(
        sections[j],
    )).len() % 8 == 0 by {
        lemma_padded_aligned(section_body_bits(sections[j], n));
    }
    assert forall|j: int, r: Seq<bool>|
        0 <= j < sections.len() && r.len() % 8 == 0 implies #[trigger] section_reader(n)(
        section_writer(n)(sections[j]) + r,
    ) == Some((sections[j], r)) by {
        lemma_parse_section(sections[j], n, r);
    }
    lemma_parse_table(sections, section_writer(n), section_reader(n), rest, 8);
    assert(components_bits(sections, n) + rest =~= components_bits(sections, n));
}

// ---------------------------------------------------------------------------
// From sections back to bricks
// ---------------------------------------------------------------------------

/// The values that a row gives to the properties of a schema. Where a name
/// is declared twice, the later value counts.
pub open spec fn row_values(schema: Seq<SchemaEntryView>, row: Seq<ValueView>) -> Values
    decreases schema.len(),
{
    if schema.len() == 0 || row.len() != schema.len() {
        Map::empty()
    } else {
        row_values(schema.drop_last(), row.drop_last()).insert(schema.last().name, row.last())
    }
}

/// The components that the sections give to the brick of index `i`.
pub open spec fn attached(sections: Seq<Section>, i: nat) -> Map<Seq<char>, Values>
    decreases sections.len(),
{
    if sections.len() == 0 {
        Map::empty()
    } else {
        let before = attached(sections.drop_last(), i);
        let x = sections.last();
        if x.members.contains(i) {
            before.insert(
                x.component.name,
                row_values(x.component.properties, x.rows[x.members.index_of(i)]),
            )
        } else {
            before
        }
    }
}

/// The bricks with the components that the sections give them.
pub open spec fn with_sections(bare: Seq<BrickView>, sections: Seq<Section>) -> Seq<BrickView> {
    Seq::new(bare.len(), |i: int| bare[i].with_components(attached(sections, i as nat)))
}

/// The components that the sections are about.
pub open spec fn declarations(sections: Seq<Section>) -> Seq<ComponentView> {
    Seq::new(sections.len(), |j: int| sections[j].component)
}

// ---------------------------------------------------------------------------
// When bricks and components agree
// ---------------------------------------------------------------------------

/// Whether a component of this name is declared.
pub open spec fn declared(components: Seq<ComponentView>, name: Seq<char>) -> bool {
    exists|j: int| 0 <= j < components.len() && (#[trigger] components[j]).name == name
}

/// Whether a schema declares a property of this name.
pub open spec fn schema_has(schema: Seq<SchemaEntryView>, name: Seq<char>) -> bool {
    exists|j: int| 0 <= j < schema.len() && (#[trigger] schema[j]).name == name
}

/// Whether values are given for the properties of a schema and for no
/// others.
pub open spec fn values_match(values: Values, schema: Seq<SchemaEntryView>) -> bool {
    forall|p: Seq<char>| (#[trigger] values.dom().contains(p)) <==> schema_has(schema, p)
}

/// Whether a brick agrees with the components: each component that it
/// carries is declared, and under each it has a value for every declared
/// property and for no other.
pub open spec fn brick_agrees(b: BrickView, components: Seq<ComponentView>) -> bool {
    &&& forall|name: Seq<char>| #[trigger] has_component(b, name) ==> declared(components, name)
    &&& forall|j: int|
        0 <= j < components.len() && has_component(b, (#[trigger] components[j]).name)
            ==> values_match(b.components[components[j].name], components[j].properties)
}

/// Whether no two components have the same name.
pub open spec fn distinct_names(components: Seq<ComponentView>) -> bool {
    forall|a: int, b: int|
        0 <= a < b < components.len() ==> (#[trigger] components[a]).name != (
        #[trigger] components[b]).name
}

/// Whether bricks and components agree: no two components have the same
/// name, and every brick agrees with the components.
pub open spec fn components_agree(components: Seq<ComponentView>, bricks: Seq<BrickView>) -> bool {
    &&& distinct_names(components)
    &&& forall|i: int| 0 <= i < bricks.len() ==> brick_agrees(#[trigger] bricks[i], components)
}

/// A row gives a value to exactly the declared properties, and the row
/// made of some values gives these values back.
pub proof fn lemma_row_values(values: Values, schema: Seq<SchemaEntryView>)
    ensures
        forall|p: Seq<char>|
            (#[trigger] row_values(schema, row_of(values, schema)).dom().contains(p))
                <==> schema_has(schema, p),
        forall|p: Seq<char>|
            schema_has(schema, p) ==> #[trigger] row_values(schema, row_of(values, schema))[p]
                == values[p],
    decreases schema.len(),
{
    let row = row_of(values, schema);
    if schema.len() > 0 {
        let front = schema.drop_last();
        assert(row.drop_last() =~= row_of(values, front));
        lemma_row_values(values, front);
        let before = row_values(front, row_of(values, front));
        let last = schema.last();
        assert forall|p: Seq<char>|
            (#[trigger] row_values(schema, row).dom().contains(p)) <==> schema_has(schema, p) by {
            if schema_has(schema, p) {
                let j = choose|j: int| 0 <= j < schema.len() && (#[trigger] schema[j]).name == p;
                if j < front.len() {
                    assert(front[j].name == p);
                }
            }
            if schema_has(front, p) {
                let j = choose|j: int| 0 <= j < front.len() && (#[trigger] front[j]).name == p;
                assert(schema[j].name == p);
            }
            if p == last.name {
                assert(schema[schema.len() - 1].name == p);
            }
        }
        assert forall|p: Seq<char>| schema_has(schema, p) implies #[trigger] row_values(
            schema,
            row,
        )[p] == values[p] by {
            if p != last.name {
                let j = choose|j: int| 0 <= j < schema.len() && (#[trigger] schema[j]).name == p;
                assert(front[j].name == p);
            }
        }
    }
}

/// The row of a brick's values gives these values back where they match the
/// schema.
pub proof fn lemma_row_values_match(values: Values, schema: Seq<SchemaEntryView>)
    requires
        values_match(values, schema),
    ensures
        row_values(schema, row_of(values, schema)) == values,
{
    lemma_row_values(values, schema);
    assert(row_values(schema, row_of(values, schema)) =~= values);
}

/// The sections of a save give each brick the components that it carries
/// under declared names, with the values that it has.
pub proof fn lemma_attached_sections(
    components: Seq<ComponentView>,
    bricks: Seq<BrickView>,
    i: int,
)
    requires
        0 <= i < bricks.len(),
        forall|j: int|
            0 <= j < components.len() && has_component(bricks[i], (#[trigger] components[j]).name)
                ==> values_match(bricks[i].components[components[j].name], components[j].properties),
    ensures
        forall|name: Seq<char>|
            (#[trigger] attached(sections_of(components, bricks), i as nat).dom().contains(name))
                <==> (declared(components, name) && has_component(bricks[i], name)),
        forall|name: Seq<char>|
            declared(components, name) && has_component(bricks[i], name) ==> #[trigger] attached(
                sections_of(components, bricks),
                i as nat,
            )[name] == bricks[i].components[name],
    decreases components.len(),
{
    let sections = sections_of(components, bricks);
    let whole = attached(sections, i as nat);
    if components.len() == 0 {
        assert forall|name: Seq<char>| !declared(components, name) by {}
    } else {
        let front = components.drop_last();
        let c = components.last();
        let x = sections.last();
        let before = attached(sections_of(front, bricks), i as nat);
        assert(sections.drop_last() =~= sections_of(front, bricks));
        assert(x == section_of(c, bricks));
        assert(components[components.len() - 1] == c);
        assert forall|j: int|
            0 <= j < front.len() && has_component(
                bricks[i],
                (#[trigger] front[j]).name,
            ) implies values_match(bricks[i].components[front[j].name], front[j].properties) by {
            assert(front[j] == components[j]);
        }
        lemma_attached_sections(front, bricks, i);
        lemma_members(bricks, c.name);
        let carried = has_component(bricks[i], c.name);
        let listed = x.members.contains(i as nat);
        let k = x.members.index_of(i as nat);
        let given = row_values(c.properties, x.rows[k]);
        assert(whole == if listed {
            before.insert(c.name, given)
        } else {
            before
        });
        if listed {
            assert(0 <= k < x.members.len() && x.members[k] == i as nat);
            assert(has_component(bricks[x.members[k] as int], c.name));
            assert(x.rows[k] == row_of(bricks[i].components[c.name], c.properties));
            lemma_row_values_match(bricks[i].components[c.name], c.properties);
            assert(given == bricks[i].components[c.name]);
        }
        if carried {
            assert(has_component(bricks[i], c.name));
            assert(listed);
        }
        assert(listed == carried);
        assert forall|name: Seq<char>| declared(components, name) <==> (declared(front, name)
            || name == c.name) by {
            if declared(components, name) {
                let j = choose|j: int|
                    0 <= j < components.len() && (#[trigger] components[j]).name == name;
                if j < front.len() {
                    assert(front[j].name == name);
                }
            }
            if declared(front, name) {
                let j = choose|j: int| 0 <= j < front.len() && (#[trigger] front[j]).name == name;
                assert(components[j].name == name);
            }
            if name == c.name {
                assert(components[components.len() - 1].name == name);
            }
        }
        assert forall|name: Seq<char>|
            (#[trigger] whole.dom().contains(name)) <==> (declared(components, name)
                && has_component(bricks[i], name)) by {
            assert(before.dom().contains(name) <==> (declared(front, name) && has_component(
                bricks[i],
                name,
            )));
        }
        assert forall|name: Seq<char>|
            declared(components, name) && has_component(bricks[i], name) implies #[trigger] whole[name]
            == bricks[i].components[name] by {
            if name != c.name {
                assert(before.dom().contains(name));
                assert(before[name] == bricks[i].components[name]);
            }
        }
    }
}

/// Where bricks and components agree, the sections of the save give every
/// brick its components back.
pub proof fn lemma_with_sections(components: Seq<ComponentView>, bricks: Seq<BrickView>)
    requires
        components_agree(components, bricks),
    ensures
        with_sections(crate::brick::bare_bricks(bricks), sections_of(components, bricks))
            == bricks,
        declarations(sections_of(components, bricks)) == components,
{
    let sections = sections_of(components, bricks);
    let bare = crate::brick::bare_bricks(bricks);
    assert forall|i: int| 0 <= i < bricks.len() implies #[trigger] with_sections(
        bare,
        sections,
    )[i] == bricks[i] by {
        assert(brick_agrees(bricks[i], components));
        lemma_attached_sections(components, bricks, i);
        let given = attached(sections, i as nat);
        assert forall|name: Seq<char>|
            given.dom().contains(name) <==> bricks[i].components.dom().contains(name) by {
            if has_component(bricks[i], name) {
                assert(declared(components, name));
            }
        }
        assert forall|name: Seq<char>| given.dom().contains(name) implies given[name]
            == bricks[i].components[name] by {
            assert(has_component(bricks[i], name));
        }
        assert(given =~= bricks[i].components);
    }
    assert(with_sections(bare, sections) =~= bricks);
    assert(declarations(sections) =~= components);
}

/// A brick has a component of some name from the sections exactly where a
/// section of that name lists the brick.
pub proof fn lemma_attached_dom(sections: Seq<Section>, i: nat)
    ensures
        forall|name: Seq<char>|
            (#[trigger] attached(sections, i).dom().contains(name)) <==> exists|j: int|
                0 <= j < sections.len() && (#[trigger] sections[j]).component.name == name
                    && sections[j].members.contains(i),
    decreases sections.len(),
{
    if sections.len() > 0 {
        let front = sections.drop_last();
        let x = sections.last();
        lemma_attached_dom(front, i);
        assert forall|name: Seq<char>|
            (#[trigger] attached(sections, i).dom().contains(name)) <==> exists|j: int|
                0 <= j < sections.len() && (#[trigger] sections[j]).component.name == name
                    && sections[j].members.contains(i) by {
            if attached(front, i).dom().contains(name) {
                let j = choose|j: int|
                    0 <= j < front.len() && (#[trigger] front[j]).component.name == name
                        && front[j].members.contains(i);
                assert(sections[j] == front[j]);
            }
            if x.members.contains(i) && name == x.component.name {
                assert(sections[sections.len() - 1] == x);
            }
            if exists|j: int|
                0 <= j < sections.len() && (#[trigger] sections[j]).component.name == name
                    && sections[j].members.contains(i) {
                let j = choose|j: int|
                    0 <= j < sections.len() && (#[trigger] sections[j]).component.name == name
                        && sections[j].members.contains(i);
                if j < front.len() {
                    assert(front[j] == sections[j]);
                }
            }
        }
    }
}

/// Two rising lists of the same numbers are the same list.
pub proof fn lemma_ascending_same(a: Seq<nat>, b: Seq<nat>)
    requires
        ascending(a),
        ascending(b),
        forall|x: nat| a.contains(x) <==> b.contains(x),
    ensures
        a == b,
    decreases a.len(),
{
    if a.len() == 0 {
        if b.len() > 0 {
            assert(b.contains(b[0]));
            let k = choose|k: int| 0 <= k < a.len() && a[k] == b[0];
        }
        assert(a =~= b);
    } else {
        let top = a.last();
        assert(a.contains(a[a.len() - 1]));
        assert(b.contains(top));
        let at = choose|k: int| 0 <= k < b.len() && b[k] == top;
        assert(b.contains(b[b.len() - 1]));
        let back = choose|k: int| 0 <= k < a.len() && a[k] == b.last();
        assert(b.last() == top) by {
            if at < b.len() - 1 {
                assert(b[at] < b[b.len() - 1]);
            }
            if back < a.len() - 1 {
                assert(a[back] < a[a.len() - 1]);
            }
        }
        let a0 = a.drop_last();
        let b0 = b.drop_last();
        assert forall|x: nat| a0.contains(x) <==> b0.contains(x) by {
            if a0.contains(x) {
                let k = choose|k: int| 0 <= k < a0.len() && a0[k] == x;
                assert(a[k] == x);
                assert(a[k] < a[a.len() - 1]);
                assert(a.contains(x));
                let m = choose|m: int| 0 <= m < b.len() && b[m] == x;
                assert(m < b.len() - 1);
                assert(b0[m] == x);
            }
            if b0.contains(x) {
                let k = choose|k: int| 0 <= k < b0.len() && b0[k] == x;
                assert(b[k] == x);
                assert(b[k] < b[b.len() - 1]);
                assert(b.contains(x));
                let m = choose|m: int| 0 <= m < a.len() && a[m] == x;
                assert(m < a.len() - 1);
                assert(a0[m] == x);
            }
        }
        lemma_ascending_same(a0, b0);
        assert(a =~= a0.push(top));
        assert(b =~= b0.push(top));
    }
}

/// Whether each section is well formed for a save of `n` bricks.
pub open spec fn sections_wf(sections: Seq<Section>, n: nat) -> bool {
    forall|j: int| 0 <= j < sections.len() ==> (#[trigger] sections[j]).wf(n)
}

/// The bricks that carry a component after the sections were given to the
/// bricks are those that the component's section lists.
pub proof fn lemma_read_members(bare: Seq<BrickView>, sections: Seq<Section>, j: int)
    requires
        0 <= j < sections.len(),
        sections_wf(sections, bare.len()),
        distinct_names(declarations(sections)),
    ensures
        members(with_sections(bare, sections), sections[j].component.name)
            == sections[j].members,
{
    let bricks = with_sections(bare, sections);
    let name = sections[j].component.name;
    let listed = sections[j].members;
    let found = members(bricks, name);
    lemma_members(bricks, name);
    assert(sections[j].wf(bare.len()));
    assert forall|x: nat| found.contains(x) <==> listed.contains(x) by {
        lemma_attached_dom(sections, x);
        if found.contains(x) {
            let k = choose|k: int| 0 <= k < found.len() && found[k] == x;
            assert(found[k] < bricks.len());
            assert(has_component(bricks[found[k] as int], name));
            assert(attached(sections, x).dom().contains(name));
            let m = choose|m: int|
                0 <= m < sections.len() && (#[trigger] sections[m]).component.name == name
                    && sections[m].members.contains(x);
            assert(declarations(sections)[m].name == declarations(sections)[j].name);
            assert(m == j);
        }
        if listed.contains(x) {
            let k = choose|k: int| 0 <= k < listed.len() && listed[k] == x;
            assert(listed[k] < bare.len());
            assert(sections[j].component.name == name && sections[j].members.contains(x));
            assert(attached(sections, x).dom().contains(name));
            assert(has_component(bricks[x as int], name));
        }
    }
    lemma_ascending_same(found, listed);
}

/// A section that is read is well formed.
pub proof fn lemma_parse_section_wf(s: Seq<bool>, brick_count: nat)
    ensures
        parse_section(s, brick_count) is Some ==> item_of(parse_section(s, brick_count)).wf(
            brick_count,
        ),
{
    let n = brick_count;
    if parse_section(s, n) is Some {
        let name = parse_text(s);
        let version = parse_i32(rest_of(name));
        let list = parse_table(rest_of(version), member_reader(n));
        let schema = parse_table(rest_of(list), entry_reader());
        let width = item_of(schema).len();
        let rows = parse_repeat(rest_of(schema), item_of(list).len(), row_reader(width));
        let below = |v: nat| v < n;
        let counted = parse_count(rest_of(version));
        assert(list == parse_repeat(rest_of(counted), item_of(counted), member_reader(n)));
        lemma_parse_repeat_all(rest_of(counted), item_of(counted), member_reader(n), below);
        let full = |row: Seq<ValueView>| row.len() == width;
        assert forall|t: Seq<bool>| (#[trigger] row_reader(width)(t)) is Some implies full(
            item_of(row_reader(width)(t)),
        ) by {
            lemma_parse_repeat_all(t, width, value_reader(), |v: ValueView| true);
        }
        lemma_parse_repeat_all(rest_of(schema), item_of(list).len(), row_reader(width), full);
        let x = item_of(parse_section(s, n));
        assert(x.members == item_of(list));
        assert(x.rows == item_of(rows));
        assert forall|k: int| 0 <= k < x.members.len() implies (#[trigger] x.members[k]) < n by {
            assert(below(item_of(list)[k]));
        }
        assert forall|k: int| 0 <= k < x.rows.len() implies (#[trigger] x.rows[k]).len()
            == x.component.properties.len() by {
            assert(full(item_of(rows)[k]));
        }
    }
}

/// The sections of a component table that is read are well formed, and no
/// two of them have the same name.
pub proof fn lemma_parse_components_wf(s: Seq<bool>, brick_count: nat)
    ensures
        parse_components(s, brick_count) matches Some(sections) ==> sections_wf(
            sections,
            brick_count,
        ) && distinct_names(declarations(sections)),
{
    let n = brick_count;
    if parse_components(s, n) is Some {
        let counted = parse_count(s);
        let good = |x: Section| x.wf(n);
        assert forall|t: Seq<bool>| (#[trigger] section_reader(n)(t)) is Some implies good(
            item_of(section_reader(n)(t)),
        ) by {
            lemma_parse_section_wf(t, n);
        }
        lemma_parse_repeat_all(rest_of(counted), item_of(counted), section_reader(n), good);
        let sections = parse_components(s, n).unwrap();
        assert forall|j: int| 0 <= j < sections.len() implies (#[trigger] sections[j]).wf(n) by {
            assert(good(sections[j]));
        }
    }
}

/// The sections of a save are well formed.
pub proof fn lemma_sections_wf(components: Seq<ComponentView>, bricks: Seq<BrickView>, j: int)
    requires
        0 <= j < components.len(),
    ensures
        sections_of(components, bricks)[j].wf(bricks.len()),
{
    lemma_members(bricks, components[j].name);
}

} // verus!
