//! The layer that keeps its records in memory.
use crate::errors::Error;
use crate::layers::sorting::{
    lemma_selected_strict, lemma_sorted_of_ordered, lemma_sorted_reversed,
    lemma_strictly_ordered, precedes, sorted, strictly,
};
use crate::layers::traits::{
    key_view, last_with, lemma_last_with_absent, lemma_last_with_found, lemma_selected_reverse,
    on_side, record_views, selected, value_view, Layer, Location,
};
use crate::types::key::{Key, KeyView};
use crate::types::order::{
    lemma_before_irreflexive, lemma_before_total, lemma_before_transitive,
};
use crate::types::value::{Value, ValueView};
use vstd::assert_sets_equal;
use vstd::map::*;
use vstd::prelude::*;

verus! {

/// A key that the layer has seen, and the value that it has now; `None`
/// where the key was deleted.
#[derive(Debug)]
struct Slot {
    key: Key,
    value: Option<Value>,
}

/// A slot as a mathematical value.
pub struct SlotView {
    pub key: KeyView,
    pub value: Option<ValueView>,
}

impl View for Slot {
    type V = SlotView;

    closed spec fn view(&self) -> SlotView {
        SlotView { key: self.key@, value: value_view(self.value) }
    }
}

/// The value that is handed out for a slot: its own, or the mark of a
/// deleted key.
pub open spec fn shown(value: Option<ValueView>) -> ValueView {
    match value {
        Some(v) => v,
        None => ValueView::Deleted,
    }
}

/// The layer in memory.
///
/// It remembers every key that it was given, also after the key is
/// deleted, until it is compacted.
#[derive(Debug, Default)]
pub struct MemLayer {
    slots: Vec<Slot>,
}

/// The layer in memory as a mathematical value: its slots, by ascending key.
pub struct MemView {
    pub slots: Seq<SlotView>,
}

impl MemView {
    /// Whether the slots stand by ascending key, no key twice.
    pub open spec fn ascending(self) -> bool {
        forall|i: int, j: int|
            0 <= i < j < self.slots.len() ==> (#[trigger] self.slots[i]).key.before(
                (#[trigger] self.slots[j]).key,
            )
    }

    /// Whether the layer has seen a key.
    pub open spec fn holds(self, key: KeyView) -> bool {
        exists|i: int| 0 <= i < self.slots.len() && (#[trigger] self.slots[i]).key == key
    }

    /// Where the slot of a key is.
    pub open spec fn place(self, key: KeyView) -> int {
        choose|i: int| 0 <= i < self.slots.len() && (#[trigger] self.slots[i]).key == key
    }

    /// The keys that the layer has seen, each with the value that it has
    /// now; `None` for a deleted key.
    pub open spec fn state(self) -> Map<KeyView, Option<ValueView>> {
        Map::new(|k: KeyView| self.holds(k), |k: KeyView| self.slots[self.place(k)].value)
    }

    /// The keys that the layer has seen.
    pub open spec fn seen(self) -> Set<KeyView> {
        self.state().dom()
    }

    /// The keys that have a value, each with its value.
    pub open spec fn live(self) -> Map<KeyView, ValueView> {
        Map::new(
            |k: KeyView| self.state().contains_key(k) && self.state()[k] is Some,
            |k: KeyView| self.state()[k]->0,
        )
    }

    /// What `get` gives for a key.
    pub open spec fn lookup(self, key: KeyView) -> Option<ValueView> {
        if self.state().contains_key(key) {
            Some(shown(self.state()[key]))
        } else {
            None
        }
    }

    /// The records by ascending key.
    pub open spec fn listed(self) -> Seq<(KeyView, ValueView)> {
        Seq::new(self.slots.len(), |i: int| (self.slots[i].key, shown(self.slots[i].value)))
    }

    /// The records by descending key.
    pub open spec fn listed_down(self) -> Seq<(KeyView, ValueView)> {
        Seq::new(
            self.slots.len(),
            |i: int|
                (
                    self.slots[self.slots.len() - 1 - i].key,
                    shown(self.slots[self.slots.len() - 1 - i].value),
                ),
        )
    }
}

/// In slots that stand by ascending key, the slot of a key is the only
/// one with that key.
pub proof fn lemma_place(layer: MemView, i: int)
    requires
        layer.ascending(),
        0 <= i < layer.slots.len(),
    ensures
        layer.holds(layer.slots[i].key),
        layer.place(layer.slots[i].key) == i,
        layer.state().contains_key(layer.slots[i].key),
        layer.state()[layer.slots[i].key] == layer.slots[i].value,
{
    let key = layer.slots[i].key;
    assert(layer.slots[layer.place(key)].key == key);
    lemma_before_irreflexive(key);
}

impl View for MemLayer {
    type V = MemView;

    closed spec fn view(&self) -> MemView {
        MemView { slots: Seq::new(self.slots@.len(), |i: int| self.slots@[i]@) }
    }
}

impl MemLayer {
    /// A layer without records.
    pub fn new() -> (layer: MemLayer)
        ensures
            layer@.slots.len() == 0,
            layer@.ascending(),
    {
        MemLayer { slots: Vec::new() }
    }

    /// Where the slot of `key` is, or where it would have to go, and
    /// whether it is there.
    fn find(&self, key: &Key) -> (r: (usize, bool))
        requires
            self@.ascending(),
        ensures
            r.0 <= self@.slots.len(),
            forall|i: int| 0 <= i < r.0 ==> (#[trigger] self@.slots[i]).key.before(key@),
            forall|i: int|
                r.0 <= i < self@.slots.len() ==> !(#[trigger] self@.slots[i]).key.before(key@),
            r.1 == self@.holds(key@),
            r.1 ==> r.0 < self@.slots.len() && self@.slots[r.0 as int].key == key@,
            !r.1 ==> forall|i: int|
                r.0 <= i < self@.slots.len() ==> key@.before((#[trigger] self@.slots[i]).key),
    {
        let mut at: usize = 0;
        let mut end: usize = self.slots.len();
        while at < end
            invariant
                at <= end <= self.slots.len(),
                self@.ascending(),
                forall|i: int| 0 <= i < at ==> (#[trigger] self@.slots[i]).key.before(key@),
                forall|i: int|
                    end <= i < self@.slots.len() ==> !(#[trigger] self@.slots[i]).key.before(key@),
            decreases end - at,
        {
            let mid = at + (end - at) / 2;
            if self.slots[mid].key.before(key) {
                proof {
                    let view = self@;
                    assert forall|i: int| 0 <= i < mid + 1 implies (#[trigger] view.slots[i]).key.before(
                        key@,
                    ) by {
                        if i < mid {
                            lemma_before_transitive(
                                view.slots[i].key,
                                view.slots[mid as int].key,
                                key@,
                            );
                        }
                    }
                }
                at = mid + 1;
            } else {
                proof {
                    let view = self@;
                    assert forall|i: int| mid <= i < view.slots.len() implies !(
                    #[trigger] view.slots[i]).key.before(key@) by {
                        if i > mid && view.slots[i].key.before(key@) {
                            lemma_before_transitive(
                                view.slots[mid as int].key,
                                view.slots[i].key,
                                key@,
                            );
                        }
                    }
                }
                end = mid;
            }
        }
        let found = at < self.slots.len() && self.slots[at].key.same(key);
        proof {
            let view = self@;
            let stop = at as int;
            lemma_before_irreflexive(key@);
            if found {
                assert(view.slots[stop].key == key@);
            } else {
                assert forall|i: int| stop <= i < view.slots.len() implies key@.before(
                    (#[trigger] view.slots[i]).key,
                ) by {
                    lemma_before_total(key@, view.slots[i].key);
                }
            }
        }
        (at, found)
    }

    /// The record in the slot at `at`.
    fn record(&self, at: usize) -> (r: (Key, Value))
        requires
            at < self@.slots.len(),
        ensures
            r.0@ == self@.slots[at as int].key,
            r.1@ == shown(self@.slots[at as int].value),
    {
        let slot = &self.slots[at];
        let value = match &slot.value {
            Some(v) => v.duplicate(),
            None => Value::DELETED,
        };
        (slot.key.duplicate(), value)
    }

    /// The records on the asked side of `base`, going up or down.
    fn select(&self, base: Option<&Key>, up: bool) -> (items: Vec<(Key, Value)>)
        ensures
            record_views(items@) == selected(
                if up {
                    self@.listed()
                } else {
                    self@.listed_down()
                },
                key_view(base),
                up,
            ),
    {
        let ghost all = if up {
            self@.listed()
        } else {
            self@.listed_down()
        };
        let n = self.slots.len();
        let mut items: Vec<(Key, Value)> = Vec::new();
        let mut i: usize = 0;
        while i < n
            invariant
                i <= n,
                n == self@.slots.len(),
                all == (if up {
                    self@.listed()
                } else {
                    self@.listed_down()
                }),
                record_views(items@) == selected(all.take(i as int), key_view(base), up),
            decreases n - i,
        {
            let at = if up {
                i
            } else {
                n - 1 - i
            };
            let record = self.record(at);
            proof {
                let next = all.take(i + 1);
                assert(next.drop_last() =~= all.take(i as int));
            }
            if on_side(base, &record.0, up) {
                items.push(record);
            }
            i = i + 1;
        }
        assert(all.take(n as int) =~= all);
        items
    }
}

impl Layer for MemLayer {
    open spec fn inv(&self) -> bool {
        self@.ascending()
    }

    open spec fn records(&self) -> Seq<(KeyView, ValueView)> {
        self@.listed_down()
    }

    open spec fn keeps(&self, key: KeyView, value: ValueView) -> bool {
        true
    }

    /// A new layer without records, wherever the location points.
    fn open(location: &Location, existing: Option<Vec<u8>>, pid: u32) -> (r: Result<Self, Error>)
        ensures
            r matches Ok(layer) && layer@.slots.len() == 0,
    {
        Ok(MemLayer::new())
    }

    /// The value that the layer has for the key: its own, `DELETED` for a
    /// key that was deleted, `None` for a key that the layer has not seen.
    fn get(&mut self, key: &Key) -> (r: Option<Value>)
        ensures
            final(self)@ == old(self)@,
            value_view(r) == old(self)@.lookup(key@),
    {
        let (at, found) = self.find(key);
        proof {
            lemma_found(self@, key@);
        }
        if found {
            proof {
                lemma_place(self@, at as int);
            }
            Some(self.record(at).1)
        } else {
            None
        }
    }

    /// Binds `value` to `key` and returns the value that the key had, if
    /// it had one that was not deleted.
    fn put(&mut self, key: &Key, value: Value) -> (r: Option<Value>)
        ensures
            final(self)@.state() == old(self)@.state().insert(key@, Some(value@)),
            value_view(r) == (if old(self)@.live().contains_key(key@) {
                Some(old(self)@.live()[key@])
            } else {
                None
            }),
    {
        let (at, found) = self.find(key);
        let ghost before = self@;
        let ghost slot = SlotView { key: key@, value: Some(value@) };
        let r = if found {
            proof {
                lemma_place(before, at as int);
                lemma_update(before, at as int, Some(value@));
            }
            let held = self.slots.remove(at);
            self.slots.insert(at, Slot { key: held.key, value: Some(value) });
            assert(self@.slots =~= before.slots.update(at as int, slot));
            held.value
        } else {
            proof {
                lemma_insert(before, at as int, slot);
            }
            self.slots.insert(at, Slot { key: key.duplicate(), value: Some(value) });
            assert(self@.slots =~= before.slots.insert(at as int, slot));
            None
        };
        proof {
            lemma_found_all(before, self@);
        }
        r
    }

    /// Deletes `key`: a key that the layer has seen has no value from now
    /// on, and a key that it has not seen stays unseen.
    fn del(&mut self, key: &Key)
        ensures
            final(self)@.state() == (if old(self)@.state().contains_key(key@) {
                old(self)@.state().insert(key@, None)
            } else {
                old(self)@.state()
            }),
    {
        let (at, found) = self.find(key);
        let ghost before = self@;
        if found {
            proof {
                lemma_place(before, at as int);
                lemma_update(before, at as int, None);
            }
            let held = self.slots.remove(at);
            self.slots.insert(at, Slot { key: held.key, value: None });
            assert(self@.slots =~= before.slots.update(
                at as int,
                SlotView { key: key@, value: None },
            ));
        }
        proof {
            lemma_found_all(before, self@);
        }
    }

    /// All records by descending key.
    fn iter(&mut self) -> (items: Vec<(Key, Value)>)
        ensures
            final(self)@ == old(self)@,
    {
        let items = self.select(None, false);
        proof {
            lemma_selected_all(self@.listed_down(), false);
        }
        items
    }

    /// The records with a key at or behind `base`, by ascending key.
    fn forward(&mut self, base: Option<&Key>) -> (items: Vec<(Key, Value)>)
        ensures
            final(self)@ == old(self)@,
            record_views(items@) == selected(old(self)@.listed(), key_view(base), true),
    {
        proof {
            lemma_upward(self@, key_view(base));
        }
        self.select(base, true)
    }

    /// The records with a key at or before `base`, by descending key.
    fn backward(&mut self, base: Option<&Key>) -> (items: Vec<(Key, Value)>)
        ensures
            final(self)@ == old(self)@,
            record_views(items@) == selected(old(self)@.listed_down(), key_view(base), false),
    {
        proof {
            lemma_downward(self@, key_view(base));
        }
        self.select(base, false)
    }

    /// Forgets every key.
    fn unlink(&mut self)
        ensures
            final(self)@.slots.len() == 0,
    {
        self.slots.clear();
        assert(self@.listed_down() =~= Seq::<(KeyView, ValueView)>::empty());
    }

    /// Forgets the deleted keys: the keys that have a value keep it, and
    /// no other key is seen any more.
    fn compact(&mut self)
        ensures
            final(self)@.slots == retained(old(self)@.slots),
            final(self)@.live() == old(self)@.live(),
            final(self)@.seen() == old(self)@.live().dom(),
    {
        let ghost before = self@;
        let n = self.slots.len();
        let mut kept: Vec<Slot> = Vec::new();
        let mut i: usize = 0;
        while i < n
            invariant
                i <= n,
                n == self.slots.len(),
                self@ == before,
                slot_views(kept@) == retained(before.slots.take(i as int)),
            decreases n - i,
        {
            let slot = &self.slots[i];
            proof {
                let next = before.slots.take(i + 1);
                assert(next.drop_last() =~= before.slots.take(i as int));
            }
            match &slot.value {
                Some(v) => {
                    let copy = Slot { key: slot.key.duplicate(), value: Some(v.duplicate()) };
                    kept.push(copy);
                },
                None => {},
            }
            i = i + 1;
        }
        assert(before.slots.take(n as int) =~= before.slots);
        self.slots = kept;
        proof {
            let after = self@;
            lemma_compacted(before);
            lemma_found_all(before, after);
            assert forall|k: KeyView|
                after.lookup(k) == before.lookup(k) || (before.lookup(k) == Some(
                    ValueView::Deleted,
                ) && after.lookup(k) is None) by {
                assert(after.seen().contains(k) == before.live().dom().contains(k));
                assert(after.live().contains_key(k) == before.live().contains_key(k));
                if before.live().contains_key(k) {
                    assert(after.live()[k] == before.live()[k]);
                }
            }
        }
    }
}

/// Without a base every record is selected.
pub proof fn lemma_selected_all(items: Seq<(KeyView, ValueView)>, up: bool)
    ensures
        selected(items, None, up) == items,
    decreases items.len(),
{
    if items.len() > 0 {
        lemma_selected_all(items.drop_last(), up);
    }
}

/// Giving the slot at `at` another value changes the value of its key and
/// nothing else, and leaves the slots in order.
pub proof fn lemma_update(layer: MemView, at: int, value: Option<ValueView>)
    requires
        layer.ascending(),
        0 <= at < layer.slots.len(),
    ensures
        ({
            let slot = SlotView { key: layer.slots[at].key, value };
            let next = MemView { slots: layer.slots.update(at, slot) };
            next.ascending() && next.state() == layer.state().insert(slot.key, value)
        }),
{
    let slot = SlotView { key: layer.slots[at].key, value };
    let next = MemView { slots: layer.slots.update(at, slot) };
    assert(next.ascending()) by {
        assert forall|i: int, j: int| 0 <= i < j < next.slots.len() implies (
        #[trigger] next.slots[i]).key.before((#[trigger] next.slots[j]).key) by {
        }
    }
    let goal = layer.state().insert(slot.key, value);
    assert_maps_equal!(next.state(), goal, k => {
        if next.holds(k) {
            let i = next.place(k);
            lemma_place(next, i);
            lemma_place(layer, i);
        }
        if layer.holds(k) {
            let i = layer.place(k);
            lemma_place(layer, i);
            lemma_place(next, i);
        }
        if k == slot.key {
            lemma_place(next, at);
        }
    });
}

/// Putting a slot where its key belongs adds the key with its value and
/// changes nothing else, and leaves the slots in order.
pub proof fn lemma_insert(layer: MemView, at: int, slot: SlotView)
    requires
        layer.ascending(),
        0 <= at <= layer.slots.len(),
        forall|i: int| 0 <= i < at ==> (#[trigger] layer.slots[i]).key.before(slot.key),
        forall|i: int|
            at <= i < layer.slots.len() ==> slot.key.before((#[trigger] layer.slots[i]).key),
    ensures
        ({
            let next = MemView { slots: layer.slots.insert(at, slot) };
            next.ascending() && next.state() == layer.state().insert(slot.key, slot.value)
        }),
{
    let next = MemView { slots: layer.slots.insert(at, slot) };
    assert(next.ascending());
    let goal = layer.state().insert(slot.key, slot.value);
    assert_maps_equal!(next.state(), goal, k => {
        lemma_before_irreflexive(slot.key);
        if next.holds(k) {
            let i = next.place(k);
            lemma_place(next, i);
            if i < at {
                lemma_place(layer, i);
            } else if i > at {
                lemma_place(layer, i - 1);
            }
        }
        if layer.holds(k) {
            let i = layer.place(k);
            lemma_place(layer, i);
            if i < at {
                lemma_place(next, i);
            } else {
                lemma_place(next, i + 1);
            }
        }
        if k == slot.key {
            lemma_place(next, at);
        }
    });
}

/// The views of a row of slots.
spec fn slot_views(slots: Seq<Slot>) -> Seq<SlotView> {
    Seq::new(slots.len(), |i: int| slots[i]@)
}

/// The slots that have a value, in the order in which they stand.
pub open spec fn retained(slots: Seq<SlotView>) -> Seq<SlotView>
    decreases slots.len(),
{
    if slots.len() == 0 {
        slots
    } else {
        let rest = retained(slots.drop_last());
        if slots.last().value is Some {
            rest.push(slots.last())
        } else {
            rest
        }
    }
}

/// A slot that is retained has a value and stood among the slots.
pub proof fn lemma_retained_source(slots: Seq<SlotView>, j: int) -> (m: int)
    requires
        0 <= j < retained(slots).len(),
    ensures
        0 <= m < slots.len(),
        slots[m] == retained(slots)[j],
        slots[m].value is Some,
    decreases slots.len(),
{
    let front = slots.drop_last();
    if j < retained(front).len() {
        lemma_retained_source(front, j)
    } else {
        slots.len() - 1
    }
}

/// A slot with a value is retained.
pub proof fn lemma_retained_target(slots: Seq<SlotView>, m: int) -> (j: int)
    requires
        0 <= m < slots.len(),
        slots[m].value is Some,
    ensures
        0 <= j < retained(slots).len(),
        retained(slots)[j] == slots[m],
    decreases slots.len(),
{
    let front = slots.drop_last();
    if m < front.len() {
        lemma_retained_target(front, m)
    } else {
        retained(slots).len() - 1
    }
}

/// Slots in order stay in order when those without a value are dropped.
pub proof fn lemma_retained_ascending(slots: Seq<SlotView>)
    requires
        (MemView { slots }).ascending(),
    ensures
        (MemView { slots: retained(slots) }).ascending(),
    decreases slots.len(),
{
    if slots.len() > 0 {
        let front = slots.drop_last();
        let out = retained(slots);
        assert((MemView { slots: front }).ascending());
        lemma_retained_ascending(front);
        assert forall|a: int, b: int| 0 <= a < b < out.len() implies (#[trigger] out[a]).key.before(
            (#[trigger] out[b]).key,
        ) by {
            if b >= retained(front).len() {
                lemma_retained_source(front, a);
            }
        }
    }
}

/// After the deleted keys are dropped, the keys that have a value have it
/// as before, and no other key is seen.
pub proof fn lemma_compacted(layer: MemView)
    requires
        layer.ascending(),
    ensures
        ({
            let next = MemView { slots: retained(layer.slots) };
            next.ascending() && next.live() == layer.live() && next.seen() == layer.live().dom()
        }),
{
    let next = MemView { slots: retained(layer.slots) };
    lemma_retained_ascending(layer.slots);
    assert forall|k: KeyView| #[trigger]
        next.holds(k) == (layer.holds(k) && layer.state()[k] is Some) && (next.holds(k)
            ==> next.state()[k] == layer.state()[k]) by {
        if next.holds(k) {
            let j = next.place(k);
            lemma_place(next, j);
            let m = lemma_retained_source(layer.slots, j);
            lemma_place(layer, m);
        }
        if layer.holds(k) {
            let m = layer.place(k);
            lemma_place(layer, m);
            if layer.slots[m].value is Some {
                let j = lemma_retained_target(layer.slots, m);
                lemma_place(next, j);
            }
        }
    }
    assert_maps_equal!(next.live(), layer.live(), k => {
    });
    assert_sets_equal!(next.seen(), layer.live().dom(), k => {
    });
}

/// Two layers that have seen the same keys with the same values have the
/// same slots, up to any place that both reach.
proof fn lemma_same_state_same_prefix(a: MemView, b: MemView, upto: int)
    requires
        a.ascending(),
        b.ascending(),
        a.state() == b.state(),
        0 <= upto <= a.slots.len(),
    ensures
        upto <= b.slots.len(),
        forall|i: int| 0 <= i < upto ==> a.slots[i] == b.slots[i],
    decreases upto,
{
    if upto > 0 {
        let i = upto - 1;
        lemma_same_state_same_prefix(a, b, i);
        let key = a.slots[i].key;
        lemma_place(a, i);
        let m = b.place(key);
        lemma_place(b, m);
        lemma_before_irreflexive(key);
        if m > i {
            let other = b.slots[i].key;
            lemma_place(b, i);
            let n = a.place(other);
            lemma_place(a, n);
            lemma_before_irreflexive(other);
            if n > i {
                lemma_before_transitive(other, key, other);
            }
        }
    }
}

/// A layer is what it has seen: two layers that have seen the same keys
/// with the same values have the same slots in the same order, so they
/// list the same records.
pub proof fn lemma_state_decides(a: MemView, b: MemView)
    requires
        a.ascending(),
        b.ascending(),
        a.state() == b.state(),
    ensures
        a.slots == b.slots,
{
    lemma_same_state_same_prefix(a, b, a.slots.len() as int);
    lemma_same_state_same_prefix(b, a, b.slots.len() as int);
}

/// A record that is listed is a key that the layer has seen, with what
/// the layer gives for it; the records that follow have later keys; and
/// listing downwards is listing upwards from the end.
pub proof fn lemma_listed(layer: MemView, i: int)
    requires
        layer.ascending(),
        0 <= i < layer.slots.len(),
    ensures
        layer.seen().contains(layer.listed()[i].0),
        layer.lookup(layer.listed()[i].0) == Some(layer.listed()[i].1),
        forall|j: int| i < j < layer.slots.len() ==> layer.listed()[i].0.before(
            (#[trigger] layer.listed()[j]).0,
        ),
        layer.listed_down()[i] == layer.listed()[layer.slots.len() - 1 - i],
{
    lemma_place(layer, i);
}

/// Every key that the layer has seen is listed.
pub proof fn lemma_seen_listed(layer: MemView, key: KeyView) -> (i: int)
    requires
        layer.seen().contains(key),
    ensures
        0 <= i < layer.slots.len(),
        layer.listed()[i].0 == key,
{
    layer.place(key)
}

/// The records stand strictly by key, upwards in one listing and
/// downwards in the other, and either listing is the other turned round.
pub proof fn lemma_listed_strict(layer: MemView)
    requires
        layer.ascending(),
    ensures
        strictly(layer.listed(), true),
        strictly(layer.listed_down(), false),
        layer.listed_down().reverse() == layer.listed(),
{
    let up = layer.listed();
    let down = layer.listed_down();
    let n = layer.slots.len() as int;
    assert forall|i: int, j: int| 0 <= i < j < up.len() implies precedes(
        (#[trigger] up[i]).0,
        (#[trigger] up[j]).0,
        true,
    ) by {
        assert(layer.slots[i].key.before(layer.slots[j].key));
    }
    assert forall|i: int, j: int| 0 <= i < j < down.len() implies precedes(
        (#[trigger] down[i]).0,
        (#[trigger] down[j]).0,
        false,
    ) by {
        assert(layer.slots[n - 1 - j].key.before(layer.slots[n - 1 - i].key));
    }
    assert(down.reverse() =~= up);
}

/// What the layer gives for a key is the value of the key's record.
pub proof fn lemma_found(layer: MemView, key: KeyView)
    requires
        layer.ascending(),
    ensures
        last_with(layer.listed_down(), key) == layer.lookup(key),
{
    let down = layer.listed_down();
    let n = layer.slots.len() as int;
    lemma_listed_strict(layer);
    assert forall|a: int, b: int| 0 <= a < b < down.len() implies (#[trigger] down[a]).0 != (
    #[trigger] down[b]).0 by {
        assert(precedes(down[a].0, down[b].0, false));
        lemma_before_irreflexive(down[a].0);
    }
    if layer.holds(key) {
        let i = layer.place(key);
        lemma_place(layer, i);
        assert(down[n - 1 - i] == (key, shown(layer.slots[i].value)));
        lemma_last_with_found(down, n - 1 - i);
    } else {
        assert forall|i: int| 0 <= i < down.len() implies (#[trigger] down[i]).0 != key by {
            lemma_place(layer, n - 1 - i);
        }
        lemma_last_with_absent(down, key);
    }
}

/// What two layers give for their keys is the value of the keys' records.
proof fn lemma_found_all(a: MemView, b: MemView)
    requires
        a.ascending(),
        b.ascending(),
    ensures
        forall|k: KeyView| #[trigger] last_with(a.listed_down(), k) == a.lookup(k),
        forall|k: KeyView| #[trigger] last_with(b.listed_down(), k) == b.lookup(k),
{
    assert forall|k: KeyView| #[trigger] last_with(a.listed_down(), k) == a.lookup(k) by {
        lemma_found(a, k);
    }
    assert forall|k: KeyView| #[trigger] last_with(b.listed_down(), k) == b.lookup(k) by {
        lemma_found(b, k);
    }
}

/// Listing upwards from a base gives the records from the base on, sorted
/// upwards.
pub proof fn lemma_upward(layer: MemView, base: Option<KeyView>)
    requires
        layer.ascending(),
    ensures
        selected(layer.listed(), base, true) == sorted(
            selected(layer.listed_down(), base, true),
            true,
        ),
{
    let down = layer.listed_down();
    lemma_listed_strict(layer);
    lemma_selected_strict(down, base, true, false);
    lemma_sorted_reversed(selected(down, base, true), true);
    lemma_selected_reverse(down, base, true);
}

/// Listing downwards from a base gives the records up to the base, sorted
/// downwards.
pub proof fn lemma_downward(layer: MemView, base: Option<KeyView>)
    requires
        layer.ascending(),
    ensures
        selected(layer.listed_down(), base, false) == sorted(
            selected(layer.listed_down(), base, false),
            false,
        ),
{
    let down = layer.listed_down();
    lemma_listed_strict(layer);
    lemma_selected_strict(down, base, false, false);
    lemma_strictly_ordered(selected(down, base, false), false);
    lemma_sorted_of_ordered(selected(down, base, false), false);
}

} // verus!
