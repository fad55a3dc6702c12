//! The contract that every layer meets.
use crate::errors::Error;
use crate::layers::sorting::sorted;
use crate::types::key::{Key, KeyView};
use crate::types::value::{Value, ValueView};
use vstd::prelude::*;

verus! {

/// Where a layer keeps its records: the parts of the address that it was
/// asked for by.
#[derive(Debug)]
pub struct Location {
    /// The scheme, which names the kind of layer.
    pub scheme: String,
    /// The host, where it is a domain name.
    pub domain: Option<String>,
    /// The path.
    pub path: String,
}

/// The views of a list of records, in the same order.
pub open spec fn record_views(items: Seq<(Key, Value)>) -> Seq<(KeyView, ValueView)> {
    Seq::new(items.len(), |i: int| (items[i].0@, items[i].1@))
}

/// The view of an optional value.
pub open spec fn value_view(value: Option<Value>) -> Option<ValueView> {
    match value {
        Some(v) => Some(v@),
        None => None,
    }
}

/// Whether `base`, where there is one, is `key` or comes before it.
pub open spec fn from_base(base: Option<KeyView>, key: KeyView) -> bool {
    match base {
        Some(b) => b.at_most(key),
        None => true,
    }
}

/// Whether `key` is `base`, where there is one, or comes before it.
pub open spec fn up_to_base(base: Option<KeyView>, key: KeyView) -> bool {
    match base {
        Some(b) => key.at_most(b),
        None => true,
    }
}

/// Whether a key lies on the asked side of `base`: at or behind it going
/// up, at or before it going down.
pub open spec fn within(base: Option<KeyView>, key: KeyView, up: bool) -> bool {
    if up {
        from_base(base, key)
    } else {
        up_to_base(base, key)
    }
}

/// The records whose key lies on the asked side of `base`, in the order
/// in which they stand.
pub open spec fn selected(items: Seq<(KeyView, ValueView)>, base: Option<KeyView>, up: bool) -> Seq<
    (KeyView, ValueView),
>
    decreases items.len(),
{
    if items.len() == 0 {
        items
    } else {
        let rest = selected(items.drop_last(), base, up);
        if within(base, items.last().0, up) {
            rest.push(items.last())
        } else {
            rest
        }
    }
}

/// The value of the last record with the given key.
pub open spec fn last_with(items: Seq<(KeyView, ValueView)>, key: KeyView) -> Option<ValueView>
    decreases items.len(),
{
    if items.len() == 0 {
        None
    } else if items.last().0 == key {
        Some(items.last().1)
    } else {
        last_with(items.drop_last(), key)
    }
}

/// The view of an optional key.
pub open spec fn key_view(key: Option<&Key>) -> Option<KeyView> {
    match key {
        Some(k) => Some(k@),
        None => None,
    }
}

/// A store of records behind one set of operations, whatever keeps them.
///
/// What a layer holds is a row of records, `records`. Reading is stated
/// over that row alone: a key has the value of its last record, and the
/// ordered listings are the chosen records, sorted. A deleted key is not
/// forgotten: its value is the mark `DELETED`, which is handed out like
/// any other value.
pub trait Layer: Sized {
    /// What holds of every layer between two operations.
    spec fn inv(&self) -> bool;

    /// The records of the layer in the order of `iter`.
    spec fn records(&self) -> Seq<(KeyView, ValueView)>;

    /// Whether the layer, as it is, finds a record again once it is put.
    spec fn keeps(&self, key: KeyView, value: ValueView) -> bool;

    /// Opens the layer at a location for the process `pid`. `existing`
    /// holds the bytes of the file that the location names, where there is
    /// one.
    fn open(location: &Location, existing: Option<Vec<u8>>, pid: u32) -> (r: Result<Self, Error>)
        ensures
            r matches Ok(layer) ==> layer.inv(),
    ;

    /// The value of a key: `None` where the layer has no record of the
    /// key, `DELETED` where the key was deleted.
    fn get(&mut self, key: &Key) -> (r: Option<Value>)
        requires
            old(self).inv(),
        ensures
            final(self).inv(),
            value_view(r) == last_with(old(self).records(), key@),
            final(self).records() == old(self).records(),
    ;

    /// Binds a value to a key, in place of what the key had. What is
    /// returned, if anything, is what the key had.
    fn put(&mut self, key: &Key, value: Value) -> (r: Option<Value>)
        requires
            old(self).inv(),
            key@.fits(),
            value@.fits(),
        ensures
            final(self).inv(),
            r matches Some(prior) ==> last_with(old(self).records(), key@) == Some(prior@),
            old(self).keeps(key@, value@) ==> last_with(final(self).records(), key@) == Some(
                value@,
            ),
            old(self).keeps(key@, value@) ==> forall|k: KeyView|
                k != key@ ==> #[trigger] last_with(final(self).records(), k) == last_with(
                    old(self).records(),
                    k,
                ),
    ;

    /// Deletes a key: from now on its value is `DELETED`, where the layer
    /// had the key or keeps a record of the deletion.
    fn del(&mut self, key: &Key)
        requires
            old(self).inv(),
            key@.fits(),
        ensures
            final(self).inv(),
            old(self).keeps(key@, ValueView::Deleted) ==> (last_with(final(self).records(), key@)
                is None && last_with(old(self).records(), key@) is None) || last_with(
                final(self).records(),
                key@,
            ) == Some(ValueView::Deleted),
            old(self).keeps(key@, ValueView::Deleted) ==> forall|k: KeyView|
                k != key@ ==> #[trigger] last_with(final(self).records(), k) == last_with(
                    old(self).records(),
                    k,
                ),
    ;

    /// All records, in the layer's own order.
    fn iter(&mut self) -> (items: Vec<(Key, Value)>)
        requires
            old(self).inv(),
        ensures
            final(self).inv(),
            record_views(items@) == old(self).records(),
            final(self).records() == old(self).records(),
    ;

    /// The records with a key at or behind `base`, by ascending key; all
    /// records where there is no `base`. Records with the same key come
    /// in the order of `iter`.
    fn forward(&mut self, base: Option<&Key>) -> (items: Vec<(Key, Value)>)
        requires
            old(self).inv(),
        ensures
            final(self).inv(),
            record_views(items@) == sorted(
                selected(old(self).records(), key_view(base), true),
                true,
            ),
            final(self).records() == old(self).records(),
    ;

    /// The records with a key at or before `base`, by descending key; all
    /// records where there is no `base`. Records with the same key come
    /// in the order of `iter`.
    fn backward(&mut self, base: Option<&Key>) -> (items: Vec<(Key, Value)>)
        requires
            old(self).inv(),
        ensures
            final(self).inv(),
            record_views(items@) == sorted(
                selected(old(self).records(), key_view(base), false),
                false,
            ),
            final(self).records() == old(self).records(),
    ;

    /// Removes the records and what they were kept in.
    fn unlink(&mut self)
        requires
            old(self).inv(),
        ensures
            final(self).inv(),
            final(self).records() == Seq::<(KeyView, ValueView)>::empty(),
    ;

    /// Drops what the layer keeps only for the sake of deleted keys: a
    /// key keeps its value, or had the value `DELETED` and has none any
    /// more.
    fn compact(&mut self)
        requires
            old(self).inv(),
        ensures
            final(self).inv(),
            forall|k: KeyView| #[trigger]
                last_with(final(self).records(), k) == last_with(old(self).records(), k) || (
                last_with(old(self).records(), k) == Some(ValueView::Deleted) && last_with(
                    final(self).records(),
                    k,
                ) is None),
    ;
}

/// Whether `key` lies on the asked side of `base`.
pub fn on_side(base: Option<&Key>, key: &Key, up: bool) -> (r: bool)
    ensures
        r == within(key_view(base), key@, up),
{
    match base {
        Some(b) => if up {
            b.at_most(key)
        } else {
            key.at_most(b)
        },
        None => true,
    }
}

/// Selecting from two rows that stand one behind the other selects from
/// each of them.
pub proof fn lemma_selected_concat(
    a: Seq<(KeyView, ValueView)>,
    b: Seq<(KeyView, ValueView)>,
    base: Option<KeyView>,
    up: bool,
)
    ensures
        selected(a + b, base, up) == selected(a, base, up) + selected(b, base, up),
    decreases b.len(),
{
    if b.len() == 0 {
        assert(a + b =~= a);
        assert(selected(a, base, up) + selected(b, base, up) =~= selected(a, base, up));
    } else {
        lemma_selected_concat(a, b.drop_last(), base, up);
        assert((a + b).drop_last() =~= a + b.drop_last());
        let front = selected(a, base, up) + selected(b.drop_last(), base, up);
        assert(front.push(b.last()) =~= selected(a, base, up) + selected(
            b.drop_last(),
            base,
            up,
        ).push(b.last()));
    }
}

/// Selecting from a row that is turned round gives what is selected from
/// the row, turned round.
pub proof fn lemma_selected_reverse(
    items: Seq<(KeyView, ValueView)>,
    base: Option<KeyView>,
    up: bool,
)
    ensures
        selected(items.reverse(), base, up) == selected(items, base, up).reverse(),
    decreases items.len(),
{
    if items.len() == 0 {
        assert(items.reverse() =~= items);
        assert(selected(items, base, up).reverse() =~= selected(items, base, up));
    } else {
        let front = items.drop_last();
        let last = seq![items.last()];
        lemma_selected_reverse(front, base, up);
        lemma_selected_concat(last, front.reverse(), base, up);
        assert(items.reverse() =~= last + front.reverse());
        assert(last.drop_last() =~= Seq::<(KeyView, ValueView)>::empty());
        assert(selected(last.drop_last(), base, up) =~= Seq::<(KeyView, ValueView)>::empty());
        assert(last.last() == items.last());
        let chosen = selected(front, base, up);
        if within(base, items.last().0, up) {
            assert(selected(last, base, up) =~= last);
            assert(chosen.push(items.last()).reverse() =~= last + chosen.reverse());
        } else {
            assert(selected(last, base, up) =~= Seq::<(KeyView, ValueView)>::empty());
            assert(selected(last, base, up) + chosen.reverse() =~= chosen.reverse());
        }
    }
}

/// A record that is selected stands in the row that it is selected from.
pub proof fn lemma_selected_source(
    items: Seq<(KeyView, ValueView)>,
    base: Option<KeyView>,
    up: bool,
    j: int,
) -> (m: int)
    requires
        0 <= j < selected(items, base, up).len(),
    ensures
        0 <= m < items.len(),
        items[m] == selected(items, base, up)[j],
    decreases items.len(),
{
    let front = items.drop_last();
    if j < selected(front, base, up).len() {
        lemma_selected_source(front, base, up, j)
    } else {
        items.len() - 1
    }
}

/// In a row where no key stands twice, a key has the value of its record.
pub proof fn lemma_last_with_found(items: Seq<(KeyView, ValueView)>, i: int)
    requires
        0 <= i < items.len(),
        forall|a: int, b: int|
            0 <= a < b < items.len() ==> (#[trigger] items[a]).0 != (#[trigger] items[b]).0,
    ensures
        last_with(items, items[i].0) == Some(items[i].1),
    decreases items.len(),
{
    if i < items.len() - 1 {
        let front = items.drop_last();
        assert(items[i].0 != items[items.len() - 1].0);
        assert forall|a: int, b: int| 0 <= a < b < front.len() implies (#[trigger] front[a]).0 != (
        #[trigger] front[b]).0 by {
            assert(items[a].0 != items[b].0);
        }
        lemma_last_with_found(front, i);
    }
}

/// A key that stands in no record of a row has no value there.
pub proof fn lemma_last_with_absent(items: Seq<(KeyView, ValueView)>, key: KeyView)
    requires
        forall|i: int| 0 <= i < items.len() ==> (#[trigger] items[i]).0 != key,
    ensures
        last_with(items, key) is None,
    decreases items.len(),
{
    if items.len() > 0 {
        let front = items.drop_last();
        assert(items[items.len() - 1].0 != key);
        assert forall|i: int| 0 <= i < front.len() implies (#[trigger] front[i]).0 != key by {
            assert(front[i] == items[i]);
        }
        lemma_last_with_absent(front, key);
    }
}

} // verus!
