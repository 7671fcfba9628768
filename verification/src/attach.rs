//! Giving bricks the components that the sections of the component table
//! hold for them.

use crate::component::{
    ascending, attached, row_values, sections_wf, with_sections, Section,
};
use crate::save::{
    components_of, values_of, views, Brick, BrickComponent, Component, Property, SchemaEntry,
    Value,
};
use crate::section_read::{sections_view, Carried};
use vstd::prelude::*;

verus! {

/// Whether `c` members of a rising list are below `i` and the others are
/// not.
pub open spec fn cursor_ok(list: Seq<nat>, c: nat, i: nat) -> bool {
    &&& c <= list.len()
    &&& forall|k: int| 0 <= k < c ==> list[k] < i
    &&& forall|k: int| c <= k < list.len() ==> list[k] >= i
}

/// Whether each cursor stands where its section's members begin that are
/// not below `i`, or not below `i + 1` for the sections before `split`.
pub open spec fn cursors_at(sections: Seq<Section>, cursors: Seq<usize>, split: int, i: nat) -> bool {
    &&& cursors.len() == sections.len()
    &&& forall|j: int|
        0 <= j < sections.len() ==> cursor_ok(
            (#[trigger] sections[j]).members,
            cursors[j] as nat,
            if j < split {
                i + 1
            } else {
                i
            },
        )
}

/// A cursor either stands at the brick, which then is a member found
/// there, or the brick is no member; either way the cursor can move on to
/// the next brick.
proof fn lemma_cursor(list: Seq<nat>, c: nat, i: nat)
    requires
        ascending(list),
        cursor_ok(list, c, i),
    ensures
        c < list.len() && list[c as int] == i ==> list.contains(i) && list.index_of(i) == c
            && cursor_ok(list, c + 1, i + 1),
        !(c < list.len() && list[c as int] == i) ==> !list.contains(i) && cursor_ok(
            list,
            c,
            i + 1,
        ),
{
    if c < list.len() && list[c as int] == i {
        assert(list.contains(i));
        let k = list.index_of(i);
        assert(0 <= k < list.len() && list[k] == i);
        if k < c {
            assert(list[k] < list[c as int]);
        }
        if k > c {
            assert(list[c as int] < list[k]);
        }
        assert forall|m: int| c + 1 <= m < list.len() implies list[m] >= i + 1 by {
            assert(list[c as int] < list[m]);
        }
    } else {
        assert forall|m: int| c <= m < list.len() implies list[m] >= i + 1 by {
            if m > c {
                assert(list[c as int] < list[m]);
            }
        }
        if list.contains(i) {
            let k = choose|k: int| 0 <= k < list.len() && list[k] == i;
            assert(false);
        }
    }
}

/// The properties that a row gives under a schema.
fn make_properties(schema: &Vec<SchemaEntry>, row: &Vec<Value>) -> (props: Vec<Property>)
    requires
        row@.len() == schema@.len(),
    ensures
        values_of(props@) == row_values(views(schema@), views(row@)),
{
    let mut props: Vec<Property> = Vec::new();
    let mut j: usize = 0;
    proof {
        assert(views(schema@).take(0) =~= Seq::empty());
    }
    while j < schema.len()
        invariant
            j <= schema.len(),
            row@.len() == schema@.len(),
            values_of(props@) == row_values(
                views(schema@).take(j as int),
                views(row@).take(j as int),
            ),
        decreases schema.len() - j,
    {
        let ghost before = props@;
        let property = Property { name: schema[j].name.clone(), value: row[j].copy() };
        props.push(property);
        proof {
            assert(props@.drop_last() =~= before);
            assert(views(schema@).take(j + 1).drop_last() =~= views(schema@).take(j as int));
            assert(views(row@).take(j + 1).drop_last() =~= views(row@).take(j as int));
        }
        j = j + 1;
    }
    proof {
        assert(views(schema@).take(schema@.len() as int) =~= views(schema@));
        assert(views(row@).take(row@.len() as int) =~= views(row@));
    }
    props
}

/// The components of the brick of index `i`; the cursors move on to the
/// next brick.
fn gather(
    components: &Vec<Component>,
    carried: &Vec<Carried>,
    cursors: &mut Vec<usize>,
    i: usize,
    Ghost(n): Ghost<nat>,
) -> (out: Vec<BrickComponent>)
    requires
        components@.len() == carried@.len(),
        sections_wf(sections_view(components@, carried@), n),
        cursors_at(sections_view(components@, carried@), old(cursors)@, 0, i as nat),
    ensures
        components_of(out@) == attached(sections_view(components@, carried@), i as nat),
        cursors_at(sections_view(components@, carried@), final(cursors)@, 0, (i + 1) as nat),
{
    let ghost sections = sections_view(components@, carried@);
    let mut out: Vec<BrickComponent> = Vec::new();
    let mut j: usize = 0;
    proof {
        assert(sections.take(0) =~= Seq::<Section>::empty());
    }
    while j < components.len()
        invariant
            j <= components.len(),
            components@.len() == carried@.len(),
            sections == sections_view(components@, carried@),
            sections_wf(sections, n),
            cursors_at(sections, cursors@, j as int, i as nat),
            components_of(out@) == attached(sections.take(j as int), i as nat),
        decreases components.len() - j,
    {
        let c = cursors[j];
        let ghost x = sections[j as int];
        let ghost before = out@;
        let ghost old_cursors = cursors@;
        proof {
            assert(x.wf(n));
            assert(cursor_ok(x.members, c as nat, i as nat));
            lemma_cursor(x.members, c as nat, i as nat);
            assert(sections.take(j + 1).drop_last() =~= sections.take(j as int));
            assert(sections.take(j + 1).last() == x);
            assert(x.members.len() == carried@[j as int].members@.len());
            if c < x.members.len() {
                assert(x.members[c as int] == carried@[j as int].members@[c as int] as nat);
            }
        }
        if c < carried[j].members.len() && carried[j].members[c] == i {
            proof {
                assert(x.rows[c as int] == views(carried@[j as int].rows@[c as int]@));
                assert(x.rows[c as int].len() == x.component.properties.len());
            }
            let properties = make_properties(&components[j].properties, &carried[j].rows[c]);
            out.push(BrickComponent { name: components[j].name.clone(), properties });
            cursors.set(j, c + 1);
            proof {
                assert(out@.drop_last() =~= before);
            }
        }
        proof {
            assert forall|m: int| 0 <= m < sections.len() implies cursor_ok(
                (#[trigger] sections[m]).members,
                cursors@[m] as nat,
                if m < j + 1 {
                    (i + 1) as nat
                } else {
                    i as nat
                },
            ) by {
                if m != j {
                    assert(cursors@[m] == old_cursors[m]);
                    assert(cursor_ok(
                        sections[m].members,
                        old_cursors[m] as nat,
                        if m < j {
                            (i + 1) as nat
                        } else {
                            i as nat
                        },
                    ));
                }
            }
        }
        j = j + 1;
    }
    proof {
        assert(sections.take(components@.len() as int) =~= sections);
    }
    out
}

/// The bricks, each with the components that the sections hold for it.
pub fn attach(bricks: &Vec<Brick>, components: &Vec<Component>, carried: &Vec<Carried>) -> (out: Vec<
    Brick,
>)
    requires
        components@.len() == carried@.len(),
        sections_wf(sections_view(components@, carried@), bricks@.len()),
        forall|i: int| 0 <= i < bricks@.len() ==> (#[trigger] bricks@[i]).components@.len() == 0,
    ensures
        views(out@) == with_sections(views(bricks@), sections_view(components@, carried@)),
{
    let ghost sections = sections_view(components@, carried@);
    let ghost n = bricks@.len();
    let mut cursors: Vec<usize> = Vec::new();
    let mut j: usize = 0;
    while j < components.len()
        invariant
            j <= components.len(),
            cursors@.len() == j,
            forall|m: int| 0 <= m < j ==> cursors@[m] == 0,
        decreases components.len() - j,
    {
        cursors.push(0);
        j = j + 1;
    }
    let mut out: Vec<Brick> = Vec::new();
    let mut i: usize = 0;
    while i < bricks.len()
        invariant
            i <= bricks.len(),
            out@.len() == i,
            n == bricks@.len(),
            components@.len() == carried@.len(),
            sections == sections_view(components@, carried@),
            sections_wf(sections, n),
            cursors_at(sections, cursors@, 0, i as nat),
            forall|m: int| 0 <= m < bricks@.len() ==> (#[trigger] bricks@[m]).components@.len() == 0,
            forall|m: int|
                0 <= m < i ==> (#[trigger] out@[m])@ == bricks@[m]@.with_components(
                    attached(sections, m as nat),
                ),
        decreases bricks.len() - i,
    {
        let found = gather(components, carried, &mut cursors, i, Ghost(n));
        let b = &bricks[i];
        let brick = Brick {
            asset_name_index: b.asset_name_index,
            size: b.size,
            position: b.position,
            direction: b.direction,
            rotation: b.rotation,
            collision: b.collision,
            visibility: b.visibility,
            material_index: b.material_index,
            physical_index: b.physical_index,
            material_intensity: b.material_intensity,
            color: b.color,
            owner_index: b.owner_index,
            components: found,
        };
        out.push(brick);
        i = i + 1;
    }
    proof {
        assert(views(out@) =~= with_sections(views(bricks@), sections));
    }
    out
}

} // verus!
