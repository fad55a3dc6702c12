//! Records in the order of their keys.
//!
//! Records with the same key keep the order in which they were given.
use crate::layers::traits::{lemma_selected_source, record_views, selected};
use crate::types::key::{Key, KeyView};
use crate::types::order::{
    lemma_before_asymmetric, lemma_before_irreflexive, lemma_before_total,
    lemma_before_transitive,
};
use crate::types::value::{Value, ValueView};
use vstd::prelude::*;

verus! {

/// Whether a record with key `a` has to stand before one with key `b`:
/// going up, where `a` comes before `b`; going down, where `b` comes
/// before `a`.
pub open spec fn precedes(a: KeyView, b: KeyView, up: bool) -> bool {
    if up {
        a.before(b)
    } else {
        b.before(a)
    }
}

/// Whether no record stands behind one that it has to stand before.
pub open spec fn ordered(items: Seq<(KeyView, ValueView)>, up: bool) -> bool {
    forall|i: int, j: int|
        0 <= i < j < items.len() ==> !precedes((#[trigger] items[j]).0, (#[trigger] items[i]).0, up)
}

/// Records in order with one more put in: behind every record that it
/// does not have to stand before, so behind those with its own key.
pub open spec fn placed(items: Seq<(KeyView, ValueView)>, item: (KeyView, ValueView), up: bool) -> Seq<
    (KeyView, ValueView),
>
    decreases items.len(),
{
    if items.len() == 0 {
        seq![item]
    } else if precedes(item.0, items.last().0, up) {
        placed(items.drop_last(), item, up).push(items.last())
    } else {
        items.push(item)
    }
}

/// The records in the order of their keys, ascending or descending; those
/// with the same key in the order in which they stand.
pub open spec fn sorted(items: Seq<(KeyView, ValueView)>, up: bool) -> Seq<(KeyView, ValueView)>
    decreases items.len(),
{
    if items.len() == 0 {
        items
    } else {
        placed(sorted(items.drop_last(), up), items.last(), up)
    }
}

/// What does not have to stand before a second thing, which does not have
/// to stand before a third, does not have to stand before the third.
pub proof fn lemma_precedes_chain(a: KeyView, b: KeyView, c: KeyView, up: bool)
    requires
        !precedes(b, a, up),
        !precedes(c, b, up),
    ensures
        !precedes(c, a, up),
{
    lemma_before_total(a, b);
    lemma_before_total(b, c);
    lemma_before_irreflexive(a);
    if a.before(b) && b.before(c) {
        lemma_before_transitive(a, b, c);
        lemma_before_asymmetric(a, c);
    }
    if b.before(a) && c.before(b) {
        lemma_before_transitive(c, b, a);
        lemma_before_asymmetric(c, a);
    }
    if a.before(b) {
        lemma_before_asymmetric(a, b);
    }
    if b.before(c) {
        lemma_before_asymmetric(b, c);
    }
    if b.before(a) {
        lemma_before_asymmetric(b, a);
    }
    if c.before(b) {
        lemma_before_asymmetric(c, b);
    }
}

/// Putting a record into records in order leaves them in order.
pub proof fn lemma_placed_ordered(
    items: Seq<(KeyView, ValueView)>,
    item: (KeyView, ValueView),
    up: bool,
) -> (at: int)
    requires
        ordered(items, up),
    ensures
        0 <= at <= items.len(),
        placed(items, item, up) == items.insert(at, item),
        ordered(placed(items, item, up), up),
    decreases items.len(),
{
    let out = placed(items, item, up);
    if items.len() == 0 {
        0
    } else if precedes(item.0, items.last().0, up) {
        let front = items.drop_last();
        assert(ordered(front, up));
        let at = lemma_placed_ordered(front, item, up);
        assert forall|i: int, j: int| 0 <= i < j < out.len() implies !precedes(
            (#[trigger] out[j]).0,
            (#[trigger] out[i]).0,
            up,
        ) by {
            if j >= placed(front, item, up).len() && i == at {
                lemma_before_asymmetric(
                    if up {
                        item.0
                    } else {
                        items.last().0
                    },
                    if up {
                        items.last().0
                    } else {
                        item.0
                    },
                );
            }
        }
        at
    } else {
        assert forall|i: int, j: int| 0 <= i < j < out.len() implies !precedes(
            (#[trigger] out[j]).0,
            (#[trigger] out[i]).0,
            up,
        ) by {
            if j >= items.len() && i < items.len() - 1 {
                lemma_precedes_chain(items[i].0, items.last().0, item.0, up);
            }
        }
        items.len() as int
    }
}

/// Sorted records are in order.
pub proof fn lemma_sorted_ordered(items: Seq<(KeyView, ValueView)>, up: bool)
    ensures
        ordered(sorted(items, up), up),
    decreases items.len(),
{
    if items.len() > 0 {
        lemma_sorted_ordered(items.drop_last(), up);
        lemma_placed_ordered(sorted(items.drop_last(), up), items.last(), up);
    }
}

/// Sorting neither drops a record nor adds one: every record is there as
/// often as before.
pub proof fn lemma_sorted_same_records(items: Seq<(KeyView, ValueView)>, up: bool)
    ensures
        sorted(items, up).to_multiset() == items.to_multiset(),
        sorted(items, up).len() == items.len(),
    decreases items.len(),
{
    broadcast use vstd::seq_lib::group_to_multiset_ensures;

    if items.len() > 0 {
        let front = items.drop_last();
        let last = items.last();
        lemma_sorted_same_records(front, up);
        lemma_sorted_ordered(front, up);
        lemma_placed_ordered(sorted(front, up), last, up);
        assert(front.push(last) =~= items);
    }
}

/// Whether the record with key `a` has to stand before the one with key `b`.
fn goes_first(a: &Key, b: &Key, up: bool) -> (r: bool)
    ensures
        r == precedes(a@, b@, up),
{
    if up {
        a.before(b)
    } else {
        b.before(a)
    }
}

/// Whether every record has to stand before all that follow it: the keys
/// differ and are in order.
pub open spec fn strictly(items: Seq<(KeyView, ValueView)>, up: bool) -> bool {
    forall|i: int, j: int|
        0 <= i < j < items.len() ==> precedes((#[trigger] items[i]).0, (#[trigger] items[j]).0, up)
}

/// Records that are in order stay as they are when they are sorted.
pub proof fn lemma_sorted_of_ordered(items: Seq<(KeyView, ValueView)>, up: bool)
    requires
        ordered(items, up),
    ensures
        sorted(items, up) == items,
    decreases items.len(),
{
    if items.len() > 0 {
        let front = items.drop_last();
        assert(ordered(front, up)) by {
            assert forall|i: int, j: int| 0 <= i < j < front.len() implies !precedes(
                (#[trigger] front[j]).0,
                (#[trigger] front[i]).0,
                up,
            ) by {
                assert(!precedes(items[j].0, items[i].0, up));
            }
        }
        lemma_sorted_of_ordered(front, up);
        if front.len() > 0 {
            assert(!precedes(items[items.len() - 1].0, items[front.len() - 1].0, up));
        }
        assert(front.push(items.last()) =~= items);
    }
}

/// A record that has to stand before all others goes to the front.
pub proof fn lemma_placed_front(
    items: Seq<(KeyView, ValueView)>,
    item: (KeyView, ValueView),
    up: bool,
)
    requires
        forall|i: int| 0 <= i < items.len() ==> precedes(item.0, (#[trigger] items[i]).0, up),
    ensures
        placed(items, item, up) == seq![item] + items,
    decreases items.len(),
{
    if items.len() > 0 {
        let front = items.drop_last();
        assert(precedes(item.0, items[items.len() - 1].0, up));
        assert forall|i: int| 0 <= i < front.len() implies precedes(
            item.0,
            (#[trigger] front[i]).0,
            up,
        ) by {
            assert(front[i] == items[i]);
        }
        lemma_placed_front(front, item, up);
        assert((seq![item] + front).push(items.last()) =~= seq![item] + items);
    } else {
        assert(seq![item] + items =~= seq![item]);
    }
}

/// Records that stand strictly in the opposite order are turned round
/// when they are sorted.
pub proof fn lemma_sorted_reversed(items: Seq<(KeyView, ValueView)>, up: bool)
    requires
        strictly(items, !up),
    ensures
        sorted(items, up) == items.reverse(),
    decreases items.len(),
{
    if items.len() > 0 {
        let front = items.drop_last();
        let last = items.last();
        assert(strictly(front, !up)) by {
            assert forall|i: int, j: int| 0 <= i < j < front.len() implies precedes(
                (#[trigger] front[i]).0,
                (#[trigger] front[j]).0,
                !up,
            ) by {
                assert(precedes(items[i].0, items[j].0, !up));
            }
        }
        lemma_sorted_reversed(front, up);
        let turned = front.reverse();
        assert forall|i: int| 0 <= i < turned.len() implies precedes(
            last.0,
            (#[trigger] turned[i]).0,
            up,
        ) by {
            assert(turned[i] == items[front.len() - 1 - i]);
            assert(precedes(items[front.len() - 1 - i].0, items[items.len() - 1].0, !up));
        }
        lemma_placed_front(turned, last, up);
        assert(seq![last] + turned =~= items.reverse());
    } else {
        assert(items.reverse() =~= items);
    }
}

/// What is selected from records that stand strictly in order stands
/// strictly in order.
pub proof fn lemma_selected_strict(
    items: Seq<(KeyView, ValueView)>,
    base: Option<KeyView>,
    side: bool,
    up: bool,
)
    requires
        strictly(items, up),
    ensures
        strictly(selected(items, base, side), up),
    decreases items.len(),
{
    if items.len() > 0 {
        let front = items.drop_last();
        let chosen = selected(front, base, side);
        assert(strictly(front, up)) by {
            assert forall|i: int, j: int| 0 <= i < j < front.len() implies precedes(
                (#[trigger] front[i]).0,
                (#[trigger] front[j]).0,
                up,
            ) by {
                assert(precedes(items[i].0, items[j].0, up));
            }
        }
        lemma_selected_strict(front, base, side, up);
        let out = selected(items, base, side);
        assert forall|i: int, j: int| 0 <= i < j < out.len() implies precedes(
            (#[trigger] out[i]).0,
            (#[trigger] out[j]).0,
            up,
        ) by {
            if j < chosen.len() {
                assert(precedes(chosen[i].0, chosen[j].0, up));
            } else {
                let m = lemma_selected_source(front, base, side, i);
                assert(precedes(items[m].0, items[items.len() - 1].0, up));
            }
        }
    }
}

/// Records that stand strictly in order are in order.
pub proof fn lemma_strictly_ordered(items: Seq<(KeyView, ValueView)>, up: bool)
    requires
        strictly(items, up),
    ensures
        ordered(items, up),
{
    assert forall|i: int, j: int| 0 <= i < j < items.len() implies !precedes(
        (#[trigger] items[j]).0,
        (#[trigger] items[i]).0,
        up,
    ) by {
        assert(precedes(items[i].0, items[j].0, up));
        if up {
            lemma_before_asymmetric(items[i].0, items[j].0);
        } else {
            lemma_before_asymmetric(items[j].0, items[i].0);
        }
    }
}

/// Two rows of records as one: the records of either row in the order in
/// which they stand there, no record behind one of the other row that it
/// has to stand before, and of two records with the same key the one of
/// the first row in front.
pub open spec fn merged(a: Seq<(KeyView, ValueView)>, b: Seq<(KeyView, ValueView)>, up: bool) -> Seq<
    (KeyView, ValueView),
>
    decreases a.len() + b.len(),
{
    if a.len() == 0 {
        b
    } else if b.len() == 0 {
        a
    } else if precedes(b.last().0, a.last().0, up) {
        merged(a.drop_last(), b, up).push(a.last())
    } else {
        merged(a, b.drop_last(), up).push(b.last())
    }
}

/// Merging a row with a single record puts the record into the row.
proof fn lemma_merged_one(a: Seq<(KeyView, ValueView)>, item: (KeyView, ValueView), up: bool)
    ensures
        merged(a, seq![item], up) == placed(a, item, up),
    decreases a.len(),
{
    let one = seq![item];
    if a.len() > 0 {
        if precedes(item.0, a.last().0, up) {
            lemma_merged_one(a.drop_last(), item, up);
        } else {
            assert(merged(a, one.drop_last(), up) == a);
        }
    }
}

/// Putting a record into the second row and merging gives what merging
/// and putting the record in gives.
proof fn lemma_merged_placed(
    a: Seq<(KeyView, ValueView)>,
    b: Seq<(KeyView, ValueView)>,
    item: (KeyView, ValueView),
    up: bool,
)
    ensures
        merged(a, placed(b, item, up), up) == placed(merged(a, b, up), item, up),
    decreases a.len() + b.len(),
{
    let with = placed(b, item, up);
    let both = merged(a, b, up);
    if b.len() == 0 {
        lemma_merged_one(a, item, up);
    } else if a.len() > 0 {
        let last_a = a.last();
        let last_b = b.last();
        if precedes(item.0, last_b.0, up) {
            assert(with.drop_last() =~= placed(b.drop_last(), item, up));
            if precedes(last_b.0, last_a.0, up) {
                let rest = merged(a.drop_last(), b, up);
                lemma_merged_placed(a.drop_last(), b, item, up);
                lemma_precedes_transitive(item.0, last_b.0, last_a.0, up);
                assert(both.drop_last() =~= rest);
            } else {
                let rest = merged(a, b.drop_last(), up);
                lemma_merged_placed(a, b.drop_last(), item, up);
                assert(both.drop_last() =~= rest);
            }
        } else {
            assert(with.drop_last() =~= b);
            if precedes(item.0, last_a.0, up) {
                let rest = merged(a.drop_last(), b, up);
                lemma_merged_placed(a.drop_last(), b, item, up);
                if !precedes(last_b.0, last_a.0, up) {
                    lemma_precedes_chain(last_a.0, last_b.0, item.0, up);
                }
                assert(both.drop_last() =~= rest);
            }
        }
    }
}

/// Merging two sorted rows gives the sorted row of all their records.
pub proof fn lemma_merged_sorted(
    a: Seq<(KeyView, ValueView)>,
    b: Seq<(KeyView, ValueView)>,
    up: bool,
)
    ensures
        merged(sorted(a, up), sorted(b, up), up) == sorted(a + b, up),
    decreases b.len(),
{
    if b.len() > 0 {
        let front = b.drop_last();
        lemma_merged_sorted(a, front, up);
        lemma_merged_placed(sorted(a, up), sorted(front, up), b.last(), up);
        assert((a + b).drop_last() =~= a + front);
    }
}

/// What has to stand before a second thing, which has to stand before a
/// third, has to stand before the third.
pub proof fn lemma_precedes_transitive(a: KeyView, b: KeyView, c: KeyView, up: bool)
    requires
        precedes(a, b, up),
        precedes(b, c, up),
    ensures
        precedes(a, c, up),
{
    if up {
        lemma_before_transitive(a, b, c);
    } else {
        lemma_before_transitive(c, b, a);
    }
}

/// The items in the opposite order.
pub fn reversed<T>(items: Vec<T>) -> (out: Vec<T>)
    ensures
        out@ == items@.reverse(),
{
    let ghost given = items@;
    let mut rest = items;
    let mut out: Vec<T> = Vec::new();
    while rest.len() > 0
        invariant
            rest@ == given.take(rest.len() as int),
            out@.len() + rest@.len() == given.len(),
            forall|i: int| 0 <= i < out@.len() ==> out@[i] == given[given.len() - 1 - i],
        decreases rest.len(),
    {
        match rest.pop() {
            Some(item) => {
                out.push(item);
            },
            None => {},
        }
    }
    out
}

/// Two rows of records as one: see `merged`.
fn merge(a: Vec<(Key, Value)>, b: Vec<(Key, Value)>, up: bool) -> (out: Vec<(Key, Value)>)
    ensures
        record_views(out@) == merged(record_views(a@), record_views(b@), up),
{
    let ghost goal = merged(record_views(a@), record_views(b@), up);
    let mut a = a;
    let mut b = b;
    let mut turned: Vec<(Key, Value)> = Vec::new();
    while a.len() > 0 || b.len() > 0
        invariant
            goal == merged(record_views(a@), record_views(b@), up) + record_views(turned@).reverse(),
        decreases a.len() + b.len(),
    {
        let ghost held_a = record_views(a@);
        let ghost held_b = record_views(b@);
        let from_a = if a.len() == 0 {
            false
        } else if b.len() == 0 {
            true
        } else {
            goes_first(&b[b.len() - 1].0, &a[a.len() - 1].0, up)
        };
        let taken = if from_a {
            a.pop()
        } else {
            b.pop()
        };
        match taken {
            Some(item) => {
                proof {
                    if from_a {
                        assert(record_views(a@) =~= held_a.drop_last());
                    } else {
                        assert(record_views(b@) =~= held_b.drop_last());
                    }
                }
                turned.push(item);
            },
            None => {},
        }
    }
    reversed(turned)
}

/// Puts the records in the order of their keys, ascending or descending;
/// those with the same key stay in the order in which they were given.
pub fn sort_records(items: Vec<(Key, Value)>, up: bool) -> (out: Vec<(Key, Value)>)
    ensures
        record_views(out@) == sorted(record_views(items@), up),
    decreases items@.len(),
{
    let ghost given = record_views(items@);
    let n = items.len();
    if n <= 1 {
        proof {
            if n == 1 {
                assert(sorted(given.drop_last(), up) =~= Seq::<(KeyView, ValueView)>::empty());
            }
        }
        return items;
    }
    let mut left = items;
    let right = left.split_off(n / 2);
    proof {
        assert(record_views(left@) + record_views(right@) =~= given);
        lemma_merged_sorted(record_views(left@), record_views(right@), up);
    }
    let low = sort_records(left, up);
    let high = sort_records(right, up);
    merge(low, high, up)
}

} // verus!
