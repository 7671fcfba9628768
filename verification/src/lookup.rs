//! Finding components and properties by name, and checking that bricks and
//! components agree.

use crate::component::{
    brick_agrees, components_agree, declared, distinct_names, has_component, members,
    schema_has, values_match,
};
use crate::save::{
    components_of, values_of, views, Brick, BrickComponent, Component, Property, SchemaEntry,
};
use vstd::prelude::*;

verus! {

/// A name is a key of the map of a list of properties where an entry of the
/// list has it.
pub proof fn lemma_values_of_dom(props: Seq<Property>)
    ensures
        forall|p: Seq<char>|
            (#[trigger] values_of(props).dom().contains(p)) <==> exists|k: int|
                0 <= k < props.len() && (#[trigger] props[k]).name@ == p,
    decreases props.len(),
{
    if props.len() > 0 {
        let front = props.drop_last();
        lemma_values_of_dom(front);
        assert forall|p: Seq<char>|
            (#[trigger] values_of(props).dom().contains(p)) <==> exists|k: int|
                0 <= k < props.len() && (#[trigger] props[k]).name@ == p by {
            if values_of(front).dom().contains(p) {
                let k = choose|k: int| 0 <= k < front.len() && (#[trigger] front[k]).name@ == p;
                assert(props[k].name@ == p);
            }
            if p == props.last().name@ {
                assert(props[props.len() - 1].name@ == p);
            }
            if exists|k: int| 0 <= k < props.len() && (#[trigger] props[k]).name@ == p {
                let k = choose|k: int| 0 <= k < props.len() && (#[trigger] props[k]).name@ == p;
                if k < front.len() {
                    assert(front[k].name@ == p);
                }
            }
        }
    }
}

/// The value under a name is that of the last entry with the name.
pub proof fn lemma_values_of_last(props: Seq<Property>, k: int)
    requires
        0 <= k < props.len(),
        forall|m: int| k < m < props.len() ==> (#[trigger] props[m]).name@ != props[k].name@,
    ensures
        values_of(props).dom().contains(props[k].name@),
        values_of(props)[props[k].name@] == props[k].value@,
    decreases props.len(),
{
    if k < props.len() - 1 {
        let front = props.drop_last();
        assert(front[k] == props[k]);
        assert forall|m: int| k < m < front.len() implies (#[trigger] front[m]).name@
            != front[k].name@ by {
            assert(front[m] == props[m]);
        }
        lemma_values_of_last(front, k);
        assert(props[props.len() - 1].name@ != props[k].name@);
    }
}

/// A name is a key of the map of a list of components where an entry of the
/// list has it.
pub proof fn lemma_components_of_dom(list: Seq<BrickComponent>)
    ensures
        forall|p: Seq<char>|
            (#[trigger] components_of(list).dom().contains(p)) <==> exists|k: int|
                0 <= k < list.len() && (#[trigger] list[k]).name@ == p,
    decreases list.len(),
{
    if list.len() > 0 {
        let front = list.drop_last();
        lemma_components_of_dom(front);
        assert forall|p: Seq<char>|
            (#[trigger] components_of(list).dom().contains(p)) <==> exists|k: int|
                0 <= k < list.len() && (#[trigger] list[k]).name@ == p by {
            if components_of(front).dom().contains(p) {
                let k = choose|k: int| 0 <= k < front.len() && (#[trigger] front[k]).name@ == p;
                assert(list[k].name@ == p);
            }
            if p == list.last().name@ {
                assert(list[list.len() - 1].name@ == p);
            }
            if exists|k: int| 0 <= k < list.len() && (#[trigger] list[k]).name@ == p {
                let k = choose|k: int| 0 <= k < list.len() && (#[trigger] list[k]).name@ == p;
                if k < front.len() {
                    assert(front[k].name@ == p);
                }
            }
        }
    }
}

/// The values under a name are those of the last entry with the name.
pub proof fn lemma_components_of_last(list: Seq<BrickComponent>, k: int)
    requires
        0 <= k < list.len(),
        forall|m: int| k < m < list.len() ==> (#[trigger] list[m]).name@ != list[k].name@,
    ensures
        components_of(list).dom().contains(list[k].name@),
        components_of(list)[list[k].name@] == values_of(list[k].properties@),
    decreases list.len(),
{
    if k < list.len() - 1 {
        let front = list.drop_last();
        assert(front[k] == list[k]);
        assert forall|m: int| k < m < front.len() implies (#[trigger] front[m]).name@
            != front[k].name@ by {
            assert(front[m] == list[m]);
        }
        lemma_components_of_last(front, k);
        assert(list[list.len() - 1].name@ != list[k].name@);
    }
}

/// The entry that gives a property its value: the last one of that name.
pub fn find_property(props: &Vec<Property>, name: &String) -> (r: Option<usize>)
    ensures
        match r {
            Some(k) => k < props@.len() && values_of(props@).dom().contains(name@) && values_of(
                props@,
            )[name@] == props@[k as int].value@,
            None => !values_of(props@).dom().contains(name@),
        },
{
    let mut k: usize = props.len();
    while k > 0
        invariant
            k <= props.len(),
            forall|m: int| k <= m < props@.len() ==> (#[trigger] props@[m]).name@ != name@,
        decreases k,
    {
        k = k - 1;
        if props[k].name == *name {
            proof {
                lemma_values_of_last(props@, k as int);
            }
            return Some(k);
        }
    }
    proof {
        lemma_values_of_dom(props@);
    }
    None
}

/// The entry that gives a brick its values under a component: the last one
/// of that name.
pub fn find_component(brick: &Brick, name: &String) -> (r: Option<usize>)
    ensures
        match r {
            Some(k) => k < brick.components@.len() && has_component(brick@, name@)
                && brick@.components[name@] == values_of(
                brick.components@[k as int].properties@,
            ),
            None => !has_component(brick@, name@),
        },
{
    let mut k: usize = brick.components.len();
    while k > 0
        invariant
            k <= brick.components.len(),
            forall|m: int|
                k <= m < brick.components@.len() ==> (#[trigger] brick.components@[m]).name@
                    != name@,
        decreases k,
    {
        k = k - 1;
        if brick.components[k].name == *name {
            proof {
                lemma_components_of_last(brick.components@, k as int);
            }
            return Some(k);
        }
    }
    proof {
        lemma_components_of_dom(brick.components@);
    }
    None
}

/// Whether a component of this name is declared.
pub fn is_declared(components: &Vec<Component>, name: &String) -> (ok: bool)
    ensures
        ok == declared(views(components@), name@),
{
    let mut j: usize = 0;
    while j < components.len()
        invariant
            j <= components.len(),
            forall|m: int| 0 <= m < j ==> (#[trigger] views(components@)[m]).name != name@,
        decreases components.len() - j,
    {
        if components[j].name == *name {
            assert(views(components@)[j as int].name == name@);
            return true;
        }
        j = j + 1;
    }
    false
}

/// Whether a schema declares a property of this name.
pub fn schema_lists(schema: &Vec<SchemaEntry>, name: &String) -> (ok: bool)
    ensures
        ok == schema_has(views(schema@), name@),
{
    let mut j: usize = 0;
    while j < schema.len()
        invariant
            j <= schema.len(),
            forall|m: int| 0 <= m < j ==> (#[trigger] views(schema@)[m]).name != name@,
        decreases schema.len() - j,
    {
        if schema[j].name == *name {
            assert(views(schema@)[j as int].name == name@);
            return true;
        }
        j = j + 1;
    }
    false
}

/// Whether a list of properties gives a value to every property of a
/// schema and to no other.
pub fn values_agree(props: &Vec<Property>, schema: &Vec<SchemaEntry>) -> (ok: bool)
    ensures
        ok == values_match(values_of(props@), views(schema@)),
{
    let ghost values = values_of(props@);
    let ghost declared = views(schema@);
    let mut j: usize = 0;
    while j < schema.len()
        invariant
            j <= schema.len(),
            values == values_of(props@),
            declared == views(schema@),
            forall|m: int| 0 <= m < j ==> values.dom().contains((#[trigger] declared[m]).name),
        decreases schema.len() - j,
    {
        if find_property(props, &schema[j].name).is_none() {
            proof {
                let p = schema@[j as int].name@;
                assert(declared[j as int].name == p);
                assert(schema_has(declared, p));
                assert(!values.dom().contains(p));
            }
            return false;
        }
        assert(declared[j as int].name == schema@[j as int].name@);
        j = j + 1;
    }
    let mut m: usize = 0;
    while m < props.len()
        invariant
            m <= props.len(),
            values == values_of(props@),
            declared == views(schema@),
            forall|j: int| 0 <= j < declared.len() ==> values.dom().contains(
                (#[trigger] declared[j]).name,
            ),
            forall|k: int| 0 <= k < m ==> schema_has(declared, (#[trigger] props@[k]).name@),
        decreases props.len() - m,
    {
        if !schema_lists(schema, &props[m].name) {
            proof {
                let p = props@[m as int].name@;
                lemma_values_of_dom(props@);
                assert(values.dom().contains(p));
                assert(!schema_has(declared, p));
            }
            return false;
        }
        m = m + 1;
    }
    proof {
        lemma_values_of_dom(props@);
        assert forall|p: Seq<char>| (#[trigger] values.dom().contains(p)) <==> schema_has(
            declared,
            p,
        ) by {
            if values.dom().contains(p) {
                let k = choose|k: int| 0 <= k < props@.len() && (#[trigger] props@[k]).name@ == p;
                assert(schema_has(declared, props@[k].name@));
            }
            if schema_has(declared, p) {
                let j = choose|j: int| 0 <= j < declared.len() && (#[trigger] declared[j]).name == p;
                assert(values.dom().contains(declared[j].name));
            }
        }
    }
    true
}

/// Whether a brick agrees with the components.
pub fn brick_checks(brick: &Brick, components: &Vec<Component>) -> (ok: bool)
    ensures
        ok == brick_agrees(brick@, views(components@)),
{
    let ghost all = views(components@);
    let mut m: usize = 0;
    while m < brick.components.len()
        invariant
            m <= brick.components.len(),
            all == views(components@),
            forall|k: int| 0 <= k < m ==> declared(all, (#[trigger] brick.components@[k]).name@),
        decreases brick.components.len() - m,
    {
        if !is_declared(components, &brick.components[m].name) {
            proof {
                let name = brick.components@[m as int].name@;
                lemma_components_of_dom(brick.components@);
                assert(has_component(brick@, name));
                assert(!declared(all, name));
            }
            return false;
        }
        m = m + 1;
    }
    let mut j: usize = 0;
    while j < components.len()
        invariant
            j <= components.len(),
            all == views(components@),
            forall|k: int|
                0 <= k < brick.components@.len() ==> declared(
                    all,
                    (#[trigger] brick.components@[k]).name@,
                ),
            forall|i: int|
                0 <= i < j && has_component(brick@, (#[trigger] all[i]).name) ==> values_match(
                    brick@.components[all[i].name],
                    all[i].properties,
                ),
        decreases components.len() - j,
    {
        assert(all[j as int] == components@[j as int]@);
        match find_component(brick, &components[j].name) {
            Some(k) => {
                if !values_agree(&brick.components[k].properties, &components[j].properties) {
                    proof {
                        assert(has_component(brick@, all[j as int].name));
                        assert(!values_match(
                            brick@.components[all[j as int].name],
                            all[j as int].properties,
                        ));
                    }
                    return false;
                }
            },
            None => {},
        }
        j = j + 1;
    }
    proof {
        lemma_components_of_dom(brick.components@);
        assert forall|name: Seq<char>| #[trigger] has_component(brick@, name) implies declared(
            all,
            name,
        ) by {
            let k = choose|k: int|
                0 <= k < brick.components@.len() && (#[trigger] brick.components@[k]).name@
                    == name;
            assert(declared(all, brick.components@[k].name@));
        }
    }
    true
}

/// Whether no two components have the same name.
pub fn names_distinct(components: &Vec<Component>) -> (ok: bool)
    ensures
        ok == distinct_names(views(components@)),
{
    let ghost all = views(components@);
    let mut b: usize = 0;
    while b < components.len()
        invariant
            b <= components.len(),
            all == views(components@),
            forall|x: int, y: int|
                0 <= x < y < b ==> (#[trigger] all[x]).name != (#[trigger] all[y]).name,
        decreases components.len() - b,
    {
        let mut a: usize = 0;
        while a < b
            invariant
                a <= b,
                b < components.len(),
                all == views(components@),
                forall|x: int| 0 <= x < a ==> (#[trigger] all[x]).name != all[b as int].name,
            decreases b - a,
        {
            if components[a].name == components[b].name {
                proof {
                    assert(all[a as int].name == all[b as int].name);
                }
                return false;
            }
            a = a + 1;
        }
        b = b + 1;
    }
    true
}

/// Whether bricks and components agree.
pub fn check_components(components: &Vec<Component>, bricks: &Vec<Brick>) -> (ok: bool)
    ensures
        ok == components_agree(views(components@), views(bricks@)),
{
    if !names_distinct(components) {
        return false;
    }
    let mut i: usize = 0;
    while i < bricks.len()
        invariant
            i <= bricks.len(),
            distinct_names(views(components@)),
            forall|k: int|
                0 <= k < i ==> brick_agrees(#[trigger] views(bricks@)[k], views(components@)),
        decreases bricks.len() - i,
    {
        if !brick_checks(&bricks[i], components) {
            assert(!brick_agrees(views(bricks@)[i as int], views(components@)));
            return false;
        }
        i = i + 1;
    }
    true
}

/// The numbers of a list of indices.
pub open spec fn indices(list: Seq<usize>) -> Seq<nat> {
    Seq::new(list.len(), |k: int| list[k] as nat)
}

/// The indices of the bricks that carry a component, in rising order.
pub fn member_list(bricks: &Vec<Brick>, name: &String) -> (list: Vec<usize>)
    ensures
        indices(list@) == members(views(bricks@), name@),
{
    let ghost all = views(bricks@);
    let mut list: Vec<usize> = Vec::new();
    let mut i: usize = 0;
    proof {
        assert(indices(list@) =~= members(all.take(0), name@));
    }
    while i < bricks.len()
        invariant
            i <= bricks.len(),
            all == views(bricks@),
            indices(list@) == members(all.take(i as int), name@),
        decreases bricks.len() - i,
    {
        let ghost before = indices(list@);
        let carried = find_component(&bricks[i], name).is_some();
        proof {
            assert(all.take(i + 1).drop_last() =~= all.take(i as int));
            assert(all.take(i + 1).last() == bricks@[i as int]@);
        }
        if carried {
            list.push(i);
            proof {
                assert(indices(list@) =~= before.push(i as nat));
            }
        }
        i = i + 1;
    }
    proof {
        assert(all.take(bricks@.len() as int) =~= all);
    }
    list
}

} // verus!
