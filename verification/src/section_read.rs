//! Reading the component table.

use crate::bits::bytes_bits;
use crate::brick::{index_width, IndexField};
use crate::component::{
    ascending, declarations, entry_reader, sections_wf, member_reader, parse_components, parse_row,
    parse_section, row_reader, section_reader, value_reader, Section,
};
use crate::lookup::{indices, names_distinct};
use crate::repeat::{
    after, item_of, lemma_parse_repeat_done, lemma_parse_repeat_step, parse_repeat, parse_table,
    Parsed,
};
use crate::save::{views, Component, SchemaEntry, SchemaEntryView, Value, ValueView};
use crate::stream::BitSource;
use crate::value::read_value;
use vstd::prelude::*;

verus! {

/// What a section holds beside its component: the bricks that carry the
/// component and, for each, its values in the order of the schema.
#[derive(Clone, Debug, PartialEq, Eq)]
pub struct Carried {
    pub members: Vec<usize>,
    pub rows: Vec<Vec<Value>>,
}

/// The rows as values of mathematics.
pub open spec fn rows_view(rows: Seq<Vec<Value>>) -> Seq<Seq<ValueView>> {
    Seq::new(rows.len(), |k: int| views(rows[k]@))
}

/// The section that a component and what is carried under it make.
pub open spec fn section_view(component: Component, carried: Carried) -> Section {
    Section {
        component: component@,
        members: indices(carried.members@),
        rows: rows_view(carried.rows@),
    }
}

/// The sections that components and what is carried under them make.
pub open spec fn sections_view(components: Seq<Component>, carried: Seq<Carried>) -> Seq<Section> {
    Seq::new(components.len(), |j: int| section_view(components[j], carried[j]))
}

/// Nothing read yet is no obstacle to what is read next.
proof fn lemma_after_nothing<T>(more: Parsed<Seq<T>>)
    ensures
        after(Seq::<T>::empty(), more) == more,
{
    if more is Some {
        assert(Seq::<T>::empty() + item_of(more) =~= item_of(more));
    }
}

fn read_members(src: &mut BitSource, n: usize, width: u32) -> (r: Option<Vec<usize>>)
    requires
        width == index_width(n as nat),
        width <= 64,
    ensures
        match r {
            Some(v) => parse_table(old(src)@, member_reader(n as nat)) == Some(
                (indices(v@), final(src)@),
            ) && forall|k: int| 0 <= k < v@.len() ==> (#[trigger] v@[k]) < n,
            None => parse_table(old(src)@, member_reader(n as nat)) is None,
        },
{
    let ghost start = src@;
    let ghost p = member_reader(n as nat);
    let count = src.read_count()?;
    let mut out: Vec<usize> = Vec::new();
    let mut k: usize = 0;
    proof {
        assert(indices(out@) =~= Seq::<nat>::empty());
        lemma_after_nothing(parse_repeat(src@, count as nat, p));
    }
    while k < count
        invariant
            k <= count,
            start == old(src)@,
            p == member_reader(n as nat),
            width == index_width(n as nat),
            width <= 64,
            forall|m: int| 0 <= m < out@.len() ==> (#[trigger] out@[m]) < n,
            parse_table(start, p) == after(
                indices(out@),
                parse_repeat(src@, (count - k) as nat, p),
            ),
        decreases count - k,
    {
        proof {
            lemma_parse_repeat_step(indices(out@), src@, (count - k) as nat, p);
        }
        let ghost done = indices(out@);
        let v = src.read_uint(width)?;
        if v >= n as u64 {
            return None;
        }
        out.push(v as usize);
        proof {
            assert(indices(out@) =~= done.push(v as nat));
        }
        k = k + 1;
    }
    proof {
        lemma_parse_repeat_done(indices(out@), src@, p);
    }
    Some(out)
}

/// Whether each index of a list is larger than the one before it.
pub fn is_ascending(list: &Vec<usize>) -> (ok: bool)
    ensures
        ok == ascending(indices(list@)),
{
    if list.len() < 2 {
        return true;
    }
    let mut k: usize = 1;
    while k < list.len()
        invariant
            1 <= k <= list.len(),
            forall|a: int, b: int| 0 <= a < b < k ==> list@[a] < list@[b],
        decreases list.len() - k,
    {
        if list[k - 1] >= list[k] {
            proof {
                assert(indices(list@)[k - 1] >= indices(list@)[k as int]);
            }
            return false;
        }
        proof {
            assert forall|a: int, b: int| 0 <= a < b < k + 1 implies list@[a] < list@[b] by {
                if b == k && a < k - 1 {
                    assert(list@[a] < list@[k - 1]);
                }
            }
        }
        k = k + 1;
    }
    true
}

fn read_schema(src: &mut BitSource) -> (r: Option<Vec<SchemaEntry>>)
    ensures
        match r {
            Some(v) => parse_table(old(src)@, entry_reader()) == Some((views(v@), final(src)@)),
            None => parse_table(old(src)@, entry_reader()) is None,
        },
{
    let ghost start = src@;
    let ghost p = entry_reader();
    let count = src.read_count()?;
    let mut out: Vec<SchemaEntry> = Vec::new();
    let mut k: usize = 0;
    proof {
        assert(views(out@) =~= Seq::<SchemaEntryView>::empty());
        lemma_after_nothing(parse_repeat(src@, count as nat, p));
    }
    while k < count
        invariant
            k <= count,
            start == old(src)@,
            p == entry_reader(),
            parse_table(start, p) == after(views(out@), parse_repeat(src@, (count - k) as nat, p)),
        decreases count - k,
    {
        proof {
            lemma_parse_repeat_step(views(out@), src@, (count - k) as nat, p);
        }
        let ghost done = views(out@);
        let name = src.read_string()?;
        let kind = src.read_string()?;
        let entry = SchemaEntry { name, kind };
        let ghost entry_view = entry@;
        out.push(entry);
        proof {
            assert(views(out@) =~= done.push(entry_view));
        }
        k = k + 1;
    }
    proof {
        lemma_parse_repeat_done(views(out@), src@, p);
    }
    Some(out)
}

fn read_row(src: &mut BitSource, n: usize) -> (r: Option<Vec<Value>>)
    ensures
        match r {
            Some(v) => v@.len() == n && parse_row(old(src)@, n as nat) == Some(
                (views(v@), final(src)@),
            ),
            None => parse_row(old(src)@, n as nat) is None,
        },
{
    let ghost start = src@;
    let ghost p = value_reader();
    let mut out: Vec<Value> = Vec::new();
    let mut k: usize = 0;
    proof {
        assert(views(out@) =~= Seq::<ValueView>::empty());
        lemma_after_nothing(parse_repeat(src@, n as nat, p));
    }
    while k < n
        invariant
            k <= n,
            out@.len() == k,
            start == old(src)@,
            p == value_reader(),
            parse_repeat(start, n as nat, p) == after(
                views(out@),
                parse_repeat(src@, (n - k) as nat, p),
            ),
        decreases n - k,
    {
        proof {
            lemma_parse_repeat_step(views(out@), src@, (n - k) as nat, p);
        }
        let ghost done = views(out@);
        let value = read_value(src)?;
        let ghost value_view = value@;
        out.push(value);
        proof {
            assert(views(out@) =~= done.push(value_view));
        }
        k = k + 1;
    }
    proof {
        lemma_parse_repeat_done(views(out@), src@, p);
    }
    Some(out)
}

fn read_rows(src: &mut BitSource, count: usize, width: usize) -> (r: Option<Vec<Vec<Value>>>)
    ensures
        match r {
            Some(v) => v@.len() == count && (forall|k: int|
                0 <= k < v@.len() ==> (#[trigger] v@[k])@.len() == width) && parse_repeat(
                old(src)@,
                count as nat,
                row_reader(width as nat),
            ) == Some((rows_view(v@), final(src)@)),
            None => parse_repeat(old(src)@, count as nat, row_reader(width as nat)) is None,
        },
{
    let ghost start = src@;
    let ghost p = row_reader(width as nat);
    let mut out: Vec<Vec<Value>> = Vec::new();
    let mut k: usize = 0;
    proof {
        assert(rows_view(out@) =~= Seq::<Seq<ValueView>>::empty());
        lemma_after_nothing(parse_repeat(src@, count as nat, p));
    }
    while k < count
        invariant
            k <= count,
            out@.len() == k,
            start == old(src)@,
            p == row_reader(width as nat),
            forall|m: int| 0 <= m < out@.len() ==> (#[trigger] out@[m])@.len() == width,
            parse_repeat(start, count as nat, p) == after(
                rows_view(out@),
                parse_repeat(src@, (count - k) as nat, p),
            ),
        decreases count - k,
    {
        proof {
            lemma_parse_repeat_step(rows_view(out@), src@, (count - k) as nat, p);
        }
        let ghost done = rows_view(out@);
        let row = read_row(src, width)?;
        let ghost row_view = views(row@);
        out.push(row);
        proof {
            assert(rows_view(out@) =~= done.push(row_view));
        }
        k = k + 1;
    }
    proof {
        lemma_parse_repeat_done(rows_view(out@), src@, p);
    }
    Some(out)
}

/// Reads a section of the table of a save of `n` bricks.
pub(crate) fn read_section(src: &mut BitSource, n: usize, width: u32) -> (r: Option<(Component, Carried)>)
    requires
        width == index_width(n as nat),
        width <= 64,
    ensures
        match r {
            Some((c, x)) => section_view(c, x).wf(n as nat) && parse_section(old(src)@, n as nat)
                == Some((section_view(c, x), final(src)@)),
            None => parse_section(old(src)@, n as nat) is None,
        },
{
    let name = src.read_string()?;
    let version = src.read_i32()?;
    let members = read_members(src, n, width)?;
    if !is_ascending(&members) {
        return None;
    }
    let properties = read_schema(src)?;
    let rows = read_rows(src, members.len(), properties.len())?;
    src.byte_align();
    let component = Component { name, version, properties };
    let carried = Carried { members, rows };
    proof {
        let x = section_view(component, carried);
        assert(x.members.len() == carried.members@.len());
        assert forall|k: int| 0 <= k < x.members.len() implies (#[trigger] x.members[k])
            < n as nat by {
            assert(carried.members@[k] < n);
        }
        assert forall|k: int| 0 <= k < x.rows.len() implies (#[trigger] x.rows[k]).len()
            == x.component.properties.len() by {
            assert(carried.rows@[k]@.len() == properties@.len());
        }
    }
    Some((component, carried))
}

/// Reads a component table that fills the source, for a save of `n` bricks.
pub(crate) fn read_component_table(src: &mut BitSource, n: usize) -> (r: Option<
    (Vec<Component>, Vec<Carried>),
>)
    ensures
        match r {
            Some((cs, xs)) => cs@.len() == xs@.len() && sections_wf(
                sections_view(cs@, xs@),
                n as nat,
            ) && parse_components(old(src)@, n as nat) == Some(sections_view(cs@, xs@)),
            None => parse_components(old(src)@, n as nat) is None,
        },
{
    let ghost start = src@;
    let ghost p = section_reader(n as nat);
    let width = IndexField::of(n).width;
    let count = src.read_count()?;
    let mut cs: Vec<Component> = Vec::new();
    let mut xs: Vec<Carried> = Vec::new();
    let mut j: usize = 0;
    proof {
        assert(sections_view(cs@, xs@) =~= Seq::<Section>::empty());
        lemma_after_nothing(parse_repeat(src@, count as nat, p));
    }
    while j < count
        invariant
            j <= count,
            cs@.len() == xs@.len(),
            start == old(src)@,
            p == section_reader(n as nat),
            width == index_width(n as nat),
            width <= 64,
            sections_wf(sections_view(cs@, xs@), n as nat),
            parse_table(start, p) == after(
                sections_view(cs@, xs@),
                parse_repeat(src@, (count - j) as nat, p),
            ),
        decreases count - j,
    {
        proof {
            lemma_parse_repeat_step(sections_view(cs@, xs@), src@, (count - j) as nat, p);
        }
        let ghost done = sections_view(cs@, xs@);
        let (component, carried) = read_section(src, n, width)?;
        let ghost x = section_view(component, carried);
        cs.push(component);
        xs.push(carried);
        proof {
            assert(sections_view(cs@, xs@) =~= done.push(x));
            assert forall|m: int| 0 <= m < done.push(x).len() implies (#[trigger] done.push(
                x,
            )[m]).wf(n as nat) by {
                if m < done.len() {
                    assert(done.push(x)[m] == done[m]);
                }
            }
        }
        j = j + 1;
    }
    proof {
        lemma_parse_repeat_done(sections_view(cs@, xs@), src@, p);
    }
    proof {
        assert(declarations(sections_view(cs@, xs@)) =~= views(cs@));
    }
    if !names_distinct(&cs) {
        return None;
    }
    match src.read_bit() {
        Some(_) => None,
        None => Some((cs, xs)),
    }
}

/// The component table that the content of a block holds, for a save of
/// `n` bricks: the components and, for each, what is carried under it.
/// Content that holds more than the table is refused.
pub fn decode_component_table(payload: Vec<u8>, n: usize) -> (r: Option<
    (Vec<Component>, Vec<Carried>),
>)
    ensures
        match r {
            Some((cs, xs)) => cs@.len() == xs@.len() && sections_wf(
                sections_view(cs@, xs@),
                n as nat,
            ) && parse_components(bytes_bits(payload@), n as nat) == Some(
                sections_view(cs@, xs@),
            ),
            None => parse_components(bytes_bits(payload@), n as nat) is None,
        },
{
    let mut source = BitSource::new(payload);
    read_component_table(&mut source, n)
}

} // verus!
