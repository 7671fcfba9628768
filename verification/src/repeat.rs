//! Runs of items written one after another, and tables with their count.

use crate::scalar::{count_bits, lemma_parse_count, parse_count, MAX_LEN};
use vstd::prelude::*;

verus! {

/// What reading one item gives: the item and the bits behind it.
pub type Parsed<T> = Option<(T, Seq<bool>)>;

/// The bits behind what was read; none where nothing was read.
pub open spec fn rest_of<T>(p: Parsed<T>) -> Seq<bool> {
    match p {
        Some((_, r)) => r,
        None => Seq::empty(),
    }
}

/// What was read, where something was.
pub open spec fn item_of<T>(p: Parsed<T>) -> T {
    match p {
        Some((x, _)) => x,
        None => arbitrary(),
    }
}

/// The items written one after another, each as `f` writes it.
pub open spec fn repeat_bits<T>(items: Seq<T>, f: spec_fn(T) -> Seq<bool>) -> Seq<bool>
    decreases items.len(),
{
    if items.len() == 0 {
        Seq::empty()
    } else {
        f(items[0]) + repeat_bits(items.drop_first(), f)
    }
}

/// `n` items read one after another, each as `p` reads it.
pub open spec fn parse_repeat<T>(s: Seq<bool>, n: nat, p: spec_fn(Seq<bool>) -> Parsed<T>) -> Parsed<
    Seq<T>,
>
    decreases n,
{
    if n == 0 {
        Some((Seq::empty(), s))
    } else {
        match p(s) {
            Some((x, r)) => match parse_repeat(r, (n - 1) as nat, p) {
                Some((xs, r2)) => Some((seq![x] + xs, r2)),
                None => None,
            },
            None => None,
        }
    }
}

/// A table: the count of its items, then the items.
pub open spec fn table_bits<T>(items: Seq<T>, f: spec_fn(T) -> Seq<bool>) -> Seq<bool> {
    count_bits(items.len()) + repeat_bits(items, f)
}

/// A table read: its count, then as many items.
pub open spec fn parse_table<T>(s: Seq<bool>, p: spec_fn(Seq<bool>) -> Parsed<T>) -> Parsed<Seq<T>> {
    match parse_count(s) {
        Some((n, r)) => parse_repeat(r, n, p),
        None => None,
    }
}

/// `done` put before the items of `more`.
pub open spec fn after<T>(done: Seq<T>, more: Parsed<Seq<T>>) -> Parsed<Seq<T>> {
    match more {
        Some((xs, r)) => Some((done + xs, r)),
        None => None,
    }
}

/// Reading `n` items is reading one and then the others.
pub proof fn lemma_parse_repeat_step<T>(
    done: Seq<T>,
    s: Seq<bool>,
    n: nat,
    p: spec_fn(Seq<bool>) -> Parsed<T>,
)
    requires
        n > 0,
    ensures
        p(s) is None ==> after(done, parse_repeat(s, n, p)) is None,
        p(s) matches Some((x, r)) ==> after(done, parse_repeat(s, n, p)) == after(
            done.push(x),
            parse_repeat(r, (n - 1) as nat, p),
        ),
{
    match p(s) {
        Some((x, r)) => {
            match parse_repeat(r, (n - 1) as nat, p) {
                Some((xs, r2)) => {
                    assert(done + (seq![x] + xs) =~= done.push(x) + xs);
                },
                None => {},
            }
        },
        None => {},
    }
}

/// Once no item is left to read, what was read is the result.
pub proof fn lemma_parse_repeat_done<T>(done: Seq<T>, s: Seq<bool>, p: spec_fn(Seq<bool>) -> Parsed<T>)
    ensures
        after(done, parse_repeat(s, 0, p)) == Some((done, s)),
{
    assert(done + Seq::<T>::empty() =~= done);
}

/// Writing the items from the `i`-th on is writing the `i`-th and then the
/// others.
pub proof fn lemma_repeat_bits_step<T>(items: Seq<T>, f: spec_fn(T) -> Seq<bool>, i: int)
    requires
        0 <= i < items.len(),
    ensures
        repeat_bits(items.skip(i), f) == f(items[i]) + repeat_bits(items.skip(i + 1), f),
{
    assert(items.skip(i).drop_first() =~= items.skip(i + 1));
}

/// Nothing is written for the items behind the last, and all items are those from the first on.
pub proof fn lemma_repeat_bits_empty<T>(items: Seq<T>, f: spec_fn(T) -> Seq<bool>)
    ensures
        repeat_bits(items.skip(items.len() as int), f) == Seq::<bool>::empty(),
        items.skip(0) == items,
{
    assert(items.skip(0) =~= items);
}

/// Items that are each read back from what was written for them, whatever
/// follows, are read back as a run. `unit` is 1, or 8 where reading an item
/// relies on a byte boundary behind it.
pub proof fn lemma_parse_repeat<T>(
    items: Seq<T>,
    f: spec_fn(T) -> Seq<bool>,
    p: spec_fn(Seq<bool>) -> Parsed<T>,
    rest: Seq<bool>,
    unit: nat,
)
    requires
        unit == 1 || unit == 8,
        rest.len() % unit == 0,
        forall|i: int| 0 <= i < items.len() ==> (#[trigger] f(items[i])).len() % unit == 0,
        forall|i: int, r: Seq<bool>|
            0 <= i < items.len() && r.len() % unit == 0 ==> #[trigger] p(f(items[i]) + r) == Some(
                (items[i], r),
            ),
    ensures
        parse_repeat(repeat_bits(items, f) + rest, items.len(), p) == Some((items, rest)),
        repeat_bits(items, f).len() % unit == 0,
    decreases items.len(),
{
    if items.len() == 0 {
        assert(repeat_bits(items, f) + rest =~= rest);
        assert(items =~= Seq::<T>::empty());
    } else {
        let tail = items.drop_first();
        assert forall|i: int| 0 <= i < tail.len() implies (#[trigger] f(tail[i])).len() % unit
            == 0 by {
            assert(tail[i] == items[i + 1]);
        }
        assert forall|i: int, r: Seq<bool>|
            0 <= i < tail.len() && r.len() % unit == 0 implies #[trigger] p(f(tail[i]) + r) == Some(
            (tail[i], r),
        ) by {
            assert(tail[i] == items[i + 1]);
        }
        lemma_parse_repeat(tail, f, p, rest, unit);
        let head = f(items[0]);
        let behind = repeat_bits(tail, f) + rest;
        assert(head.len() % unit == 0);
        assert(repeat_bits(items, f) + rest =~= head + behind);
        assert(p(head + behind) == Some((items[0], behind)));
        assert(seq![items[0]] + tail =~= items);
    }
}

/// What holds of every item that `p` reads holds of each item of a run
/// that is read, and the run has as many items as were asked for.
pub proof fn lemma_parse_repeat_all<T>(
    s: Seq<bool>,
    n: nat,
    p: spec_fn(Seq<bool>) -> Parsed<T>,
    good: spec_fn(T) -> bool,
)
    requires
        forall|t: Seq<bool>| (#[trigger] p(t)) is Some ==> good(item_of(p(t))),
    ensures
        parse_repeat(s, n, p) is Some ==> item_of(parse_repeat(s, n, p)).len() == n
            && forall|i: int|
            0 <= i < n ==> good(#[trigger] item_of(parse_repeat(s, n, p))[i]),
    decreases n,
{
    if n > 0 {
        match p(s) {
            Some((x, r)) => {
                lemma_parse_repeat_all(r, (n - 1) as nat, p, good);
                assert(good(item_of(p(s))));
            },
            None => {},
        }
    }
}

/// A table of such items is read back too.
pub proof fn lemma_parse_table<T>(
    items: Seq<T>,
    f: spec_fn(T) -> Seq<bool>,
    p: spec_fn(Seq<bool>) -> Parsed<T>,
    rest: Seq<bool>,
    unit: nat,
)
    requires
        items.len() <= MAX_LEN,
        unit == 1 || unit == 8,
        rest.len() % unit == 0,
        forall|i: int| 0 <= i < items.len() ==> (#[trigger] f(items[i])).len() % unit == 0,
        forall|i: int, r: Seq<bool>|
            0 <= i < items.len() && r.len() % unit == 0 ==> #[trigger] p(f(items[i]) + r) == Some(
                (items[i], r),
            ),
    ensures
        parse_table(table_bits(items, f) + rest, p) == Some((items, rest)),
        table_bits(items, f).len() % unit == 0,
{
    lemma_parse_repeat(items, f, p, rest, unit);
    assert(table_bits(items, f) + rest =~= count_bits(items.len()) + (repeat_bits(items, f)
        + rest));
    lemma_parse_count(items.len(), repeat_bits(items, f) + rest);
    crate::endian::lemma_le_bytes_len(items.len(), 4);
    crate::bits::lemma_bytes_bits_len(crate::endian::le_bytes(items.len(), 4));
}

} // verus!
