//! The value: the payload half of a record, of any length.
use crate::errors::Error;
use crate::types::traits::{unpack_iter, views, Converter, Packer};
use vstd::prelude::*;
use vstd::slice::{slice_subrange, slice_to_vec};
use vstd::utf8::encode_utf8;

verus! {

/// What a key is bound to: nothing, a mark that the key was deleted, or bytes.
///
/// The mark is a value like the others: it is written, read back and handed
/// out wherever values are.
#[derive(Debug, Clone, PartialEq)]
pub enum Value {
    /// No payload.
    EMPTY,
    /// The key was deleted.
    DELETED,
    /// The payload.
    RAW(Vec<u8>),
}

/// A value as a mathematical value.
pub enum ValueView {
    Empty,
    Deleted,
    Raw(Seq<u8>),
}

impl View for Value {
    type V = ValueView;

    open spec fn view(&self) -> ValueView {
        match self {
            Value::EMPTY => ValueView::Empty,
            Value::DELETED => ValueView::Deleted,
            Value::RAW(data) => ValueView::Raw(data@),
        }
    }
}

/// The lengths that the header can tell apart: 2^24.
pub open spec fn length_span() -> nat {
    0x100_0000
}

/// The four bytes in front of a payload: the 32-bit word with the kind in
/// its high byte and the low 24 bits of the length below it, the low byte
/// first.
pub open spec fn header(tag: u8, length: nat) -> Seq<u8> {
    seq![
        (length % 256) as u8,
        (length / 256 % 256) as u8,
        (length / 65536 % 256) as u8,
        tag,
    ]
}

/// The length that a header states.
pub open spec fn stated_length(data: Seq<u8>) -> nat {
    (data[0] as nat) + 256 * (data[1] as nat) + 65536 * (data[2] as nat)
}

impl ValueView {
    /// The discriminant of the kind, as the header writes it.
    pub open spec fn tag(self) -> u8 {
        match self {
            ValueView::Empty => 0,
            ValueView::Deleted => 1,
            ValueView::Raw(_) => 2,
        }
    }

    /// The payload; empty but for `Raw`.
    pub open spec fn payload(self) -> Seq<u8> {
        match self {
            ValueView::Raw(data) => data,
            _ => Seq::empty(),
        }
    }

    /// The length of the payload.
    pub open spec fn size(self) -> nat {
        self.payload().len()
    }

    /// Whether the length of the binary form fits in a machine word.
    pub open spec fn fits(self) -> bool {
        4 + self.size() <= usize::MAX
    }

    /// Whether the value is read back from its bytes as it is: the header
    /// has room for its length.
    pub open spec fn exact(self) -> bool {
        self.size() < length_span()
    }

    /// The binary form: the header, then the payload.
    pub open spec fn raw(self) -> Seq<u8> {
        header(self.tag(), self.size()) + self.payload()
    }

    /// The value at the front of a byte string: the header says what it is
    /// and how long, and the payload has to be there in full.
    pub open spec fn of_raw(data: Seq<u8>) -> Option<ValueView> {
        if data.len() < 4 {
            None
        } else {
            let length = stated_length(data);
            if data[3] == 0 && length == 0 {
                Some(ValueView::Empty)
            } else if data[3] == 1 && length == 0 {
                Some(ValueView::Deleted)
            } else if data[3] == 2 && data.len() >= 4 + length {
                Some(ValueView::Raw(data.subrange(4, 4 + length as int)))
            } else {
                None
            }
        }
    }

    /// The value at the front of a byte string and the bytes behind it.
    pub open spec fn of_frame(data: Seq<u8>) -> Option<(ValueView, Seq<u8>)> {
        match ValueView::of_raw(data) {
            Some(value) => Some((value, data.skip(4 + value.size() as int))),
            None => None,
        }
    }

    /// The values that a byte string holds one after the other, up to its
    /// end or to the first byte that starts none.
    pub open spec fn of_frames(data: Seq<u8>) -> Seq<ValueView>
        decreases data.len(),
    {
        if data.len() == 0 {
            Seq::empty()
        } else {
            match ValueView::of_frame(data) {
                Some((value, rest)) => if rest.len() < data.len() {
                    seq![value] + ValueView::of_frames(rest)
                } else {
                    Seq::empty()
                },
                None => Seq::empty(),
            }
        }
    }
}

impl Value {
    /// The length of the payload.
    pub fn len(&self) -> (n: usize)
        ensures
            n == self@.size(),
    {
        match self {
            Value::EMPTY => 0,
            Value::DELETED => 0,
            Value::RAW(data) => data.len(),
        }
    }

    /// Turns the value into the mark of a deleted key.
    pub fn delete(&mut self)
        ensures
            final(self)@ == ValueView::Deleted,
    {
        *self = Value::DELETED
    }

    /// The value with the given bytes as its payload.
    pub fn raw(data: &[u8]) -> (value: Value)
        ensures
            value@ == ValueView::Raw(data@),
    {
        Value::RAW(slice_to_vec(data))
    }

    /// The value with the bytes of the given text as its payload.
    pub fn text(s: &str) -> (value: Value)
        ensures
            value@ == ValueView::Raw(encode_utf8(s@)),
    {
        Value::raw(s.as_bytes())
    }

    /// Whether the length of the binary form fits in a machine word. Only
    /// such a value can be written as bytes.
    pub fn fits(&self) -> (r: bool)
        ensures
            r == self@.fits(),
    {
        self.len() <= usize::MAX - 4
    }

    /// A value that holds the same as this one.
    pub fn duplicate(&self) -> (value: Value)
        ensures
            value@ == self@,
    {
        match self {
            Value::EMPTY => Value::EMPTY,
            Value::DELETED => Value::DELETED,
            Value::RAW(data) => Value::RAW(data.clone()),
        }
    }

    /// Reads values off the front of `data` for as long as there is one.
    pub fn unpack_iter(data: &[u8]) -> (values: Vec<Value>)
        ensures
            views(values@) == ValueView::of_frames(data@),
    {
        unpack_iter::<Value>(data)
    }
}

impl Converter for Value {
    open spec fn convertible(v: ValueView) -> bool {
        v.fits()
    }

    open spec fn raw(v: ValueView) -> Seq<u8> {
        v.raw()
    }

    open spec fn raw_value(data: Seq<u8>) -> Option<ValueView> {
        ValueView::of_raw(data)
    }

    fn cap(&self) -> (n: usize) {
        4 + self.len()
    }

    fn to_bytes(&self) -> (data: Vec<u8>) {
        let typ: u8 = match self {
            Value::EMPTY => 0,
            Value::DELETED => 1,
            Value::RAW(_) => 2,
        };
        let n: usize = self.len();
        let mut data: Vec<u8> = Vec::new();
        data.push((n % 256) as u8);
        data.push((n / 256 % 256) as u8);
        data.push((n / 65536 % 256) as u8);
        data.push(typ);
        match self {
            Value::RAW(raw) => {
                data.extend_from_slice(raw.as_slice());
            },
            _ => {},
        }
        data
    }

    fn from_bytes(data: &[u8]) -> (r: Result<Self, Error>) {
        if data.len() < 4 {
            return Err(Error::InvalidArgument);
        }
        let b0: usize = data[0] as usize;
        let b1: usize = data[1] as usize;
        let b2: usize = data[2] as usize;
        let size: usize = b0 + 256 * b1 + 65536 * b2;
        let typ: u8 = data[3];
        if typ == 0 && size == 0 {
            Ok(Value::EMPTY)
        } else if typ == 1 && size == 0 {
            Ok(Value::DELETED)
        } else if typ == 2 {
            if data.len() - 4 < size {
                return Err(Error::InvalidArgument);
            }
            let raw = slice_to_vec(slice_subrange(data, 4, 4 + size));
            Ok(Value::RAW(raw))
        } else {
            Err(Error::InvalidArgument)
        }
    }
}

impl Packer for Value {
    open spec fn packable(v: ValueView) -> bool {
        v.fits()
    }

    open spec fn packed(v: ValueView) -> Seq<u8> {
        v.raw()
    }

    open spec fn unpacked(data: Seq<u8>) -> Option<(ValueView, Seq<u8>)> {
        ValueView::of_frame(data)
    }

    open spec fn unpacked_all(data: Seq<u8>) -> Seq<ValueView> {
        ValueView::of_frames(data)
    }

    open spec fn exact(v: ValueView) -> bool {
        v.exact()
    }

    proof fn lemma_unpacked_all(data: Seq<u8>) {
    }

    proof fn lemma_round_trip(v: ValueView, tail: Seq<u8>) {
        lemma_frame_round_trip(v, tail);
    }

    proof fn lemma_unpacked_rest(data: Seq<u8>) {
    }

    fn pack(&self) -> (data: Vec<u8>) {
        self.to_bytes()
    }

    fn unpack<'a>(data: &'a [u8]) -> (r: Result<(Self, &'a [u8]), Error>) {
        match Value::from_bytes(data) {
            Ok(value) => {
                let size = 4 + value.len();
                let rest = slice_subrange(data, size, data.len());
                Ok((value, rest))
            },
            Err(e) => Err(e),
        }
    }
}

/// A value whose length the header has room for is read back from the front
/// of any byte string that starts with its binary form, and what follows is
/// left over.
pub proof fn lemma_frame_round_trip(value: ValueView, tail: Seq<u8>)
    requires
        value.exact(),
    ensures
        ValueView::of_frame(value.raw() + tail) == Some((value, tail)),
{
    let data = value.raw() + tail;
    let n = value.size();
    assert(data.subrange(4, 4 + n as int) =~= value.payload());
}

/// What is read off the front of a byte string is read off the same way
/// when more bytes follow, and those bytes are then left over too.
pub proof fn lemma_frame_extends(data: Seq<u8>, tail: Seq<u8>)
    requires
        ValueView::of_frame(data) is Some,
    ensures
        ValueView::of_frame(data) matches Some((item, rest)) && ValueView::of_frame(data + tail) == Some(
            (item, rest + tail),
        ),
{
    let more = data + tail;
    let n = stated_length(data);
    if data[3] == 2 {
        assert(more.subrange(4, 4 + n as int) =~= data.subrange(4, 4 + n as int));
    }
}

} // verus!
