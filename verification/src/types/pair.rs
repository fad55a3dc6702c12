//! The record: a key and the value bound to it.
use crate::errors::Error;
use crate::types::key::{Key, KeyView};
use crate::types::traits::{unpack_iter, views, Packer};
use crate::types::value::{Value, ValueView};
use vstd::prelude::*;

verus! {

/// A key and the value bound to it. Its packed form is the key's followed
/// by the value's.
#[derive(Debug, PartialEq)]
pub struct Pair {
    pub key: Key,
    pub value: Value,
}

/// A record as a mathematical value.
pub struct PairView {
    pub key: KeyView,
    pub value: ValueView,
}

impl View for Pair {
    type V = PairView;

    open spec fn view(&self) -> PairView {
        PairView { key: self.key@, value: self.value@ }
    }
}

impl PairView {
    /// Whether both halves have a binary form.
    pub open spec fn fits(self) -> bool {
        self.key.fits() && self.value.fits()
    }

    /// Whether both halves are read back from their bytes as they are.
    pub open spec fn exact(self) -> bool {
        self.key.exact() && self.value.exact()
    }

    /// The packed form: the key's, then the value's.
    pub open spec fn frame(self) -> Seq<u8> {
        self.key.frame() + self.value.raw()
    }

    /// The record at the front of a byte string and the bytes behind it.
    pub open spec fn of_frame(data: Seq<u8>) -> Option<(PairView, Seq<u8>)> {
        match KeyView::of_frame(data) {
            Some((key, after_key)) => match ValueView::of_frame(after_key) {
                Some((value, rest)) => Some((PairView { key, value }, rest)),
                None => None,
            },
            None => None,
        }
    }

    /// The records that a byte string holds one after the other, up to its
    /// end or to the first byte that starts none.
    pub open spec fn of_frames(data: Seq<u8>) -> Seq<PairView>
        decreases data.len(),
    {
        if data.len() == 0 {
            Seq::empty()
        } else {
            match PairView::of_frame(data) {
                Some((pair, rest)) => if rest.len() < data.len() {
                    seq![pair] + PairView::of_frames(rest)
                } else {
                    Seq::empty()
                },
                None => Seq::empty(),
            }
        }
    }
}

impl Pair {
    /// The record that binds `value` to `key`.
    pub fn new(key: Key, value: Value) -> (pair: Pair)
        ensures
            pair.key == key,
            pair.value == value,
    {
        Self { key, value }
    }

    /// Reads records off the front of `data` for as long as there is one.
    pub fn unpack_iter(data: &[u8]) -> (pairs: Vec<Pair>)
        ensures
            views(pairs@) == PairView::of_frames(data@),
    {
        unpack_iter::<Pair>(data)
    }
}

impl Packer for Pair {
    open spec fn packable(v: PairView) -> bool {
        v.fits()
    }

    open spec fn exact(v: PairView) -> bool {
        v.exact()
    }

    open spec fn packed(v: PairView) -> Seq<u8> {
        v.frame()
    }

    open spec fn unpacked(data: Seq<u8>) -> Option<(PairView, Seq<u8>)> {
        PairView::of_frame(data)
    }

    open spec fn unpacked_all(data: Seq<u8>) -> Seq<PairView> {
        PairView::of_frames(data)
    }

    proof fn lemma_unpacked_all(data: Seq<u8>) {
    }

    proof fn lemma_unpacked_rest(data: Seq<u8>) {
        Key::lemma_unpacked_rest(data);
        if let Some((_, after_key)) = KeyView::of_frame(data) {
            Value::lemma_unpacked_rest(after_key);
        }
    }

    proof fn lemma_round_trip(v: PairView, tail: Seq<u8>) {
        lemma_frame_round_trip(v, tail);
    }

    fn pack(&self) -> (data: Vec<u8>) {
        let mut data: Vec<u8> = self.key.pack();
        let mut value = self.value.pack();
        data.append(&mut value);
        data
    }

    fn unpack<'a>(data: &'a [u8]) -> (r: Result<(Self, &'a [u8]), Error>) {
        match Key::unpack(data) {
            Ok((key, after_key)) => match Value::unpack(after_key) {
                Ok((value, rest)) => Ok((Pair { key, value }, rest)),
                Err(e) => Err(e),
            },
            Err(e) => Err(e),
        }
    }
}

/// A record whose halves are exact is read back from the front of any byte
/// string that starts with its packed form, and what follows is left over.
pub proof fn lemma_frame_round_trip(pair: PairView, tail: Seq<u8>)
    requires
        pair.fits(),
        pair.exact(),
    ensures
        PairView::of_frame(pair.frame() + tail) == Some((pair, tail)),
{
    crate::types::key::lemma_frame_round_trip(pair.key, pair.value.raw() + tail);
    crate::types::value::lemma_frame_round_trip(pair.value, tail);
    assert(pair.frame() + tail =~= pair.key.frame() + (pair.value.raw() + tail));
}

/// What is read off the front of a byte string is read off the same way
/// when more bytes follow, and those bytes are then left over too.
pub proof fn lemma_frame_extends(data: Seq<u8>, tail: Seq<u8>)
    requires
        PairView::of_frame(data) is Some,
    ensures
        PairView::of_frame(data) matches Some((item, rest)) && PairView::of_frame(data + tail) == Some(
            (item, rest + tail),
        ),
{
    crate::types::key::lemma_frame_extends(data, tail);
    let after_key = (KeyView::of_frame(data)->0).1;
    crate::types::value::lemma_frame_extends(after_key, tail);
}

/// Whether a byte string is records from front to end, with nothing left
/// over and nothing damaged.
pub open spec fn whole(data: Seq<u8>) -> bool
    decreases data.len(),
{
    data.len() == 0 || (PairView::of_frame(data) matches Some((_, rest)) && rest.len() < data.len()
        && whole(rest))
}

/// A record with exact halves that is written behind a byte string that is
/// records from front to end is read back as the last record, behind those
/// that were there.
pub proof fn lemma_appended(data: Seq<u8>, pair: PairView)
    requires
        whole(data),
        pair.fits(),
        pair.exact(),
    ensures
        whole(data + pair.frame()),
        PairView::of_frames(data + pair.frame()) == PairView::of_frames(data).push(pair),
    decreases data.len(),
{
    let frame = pair.frame();
    let more = data + frame;
    if data.len() == 0 {
        lemma_frame_round_trip(pair, Seq::empty());
        Pair::lemma_unpacked_rest(more);
        assert(whole(Seq::<u8>::empty()));
        assert(PairView::of_frames(Seq::<u8>::empty()) =~= Seq::<PairView>::empty());
    } else {
        let rest = (PairView::of_frame(data)->0).1;
        lemma_frame_extends(data, frame);
        lemma_appended(rest, pair);
    }
}

} // verus!
