//! What a type of the store has to offer to be written as bytes and read back.
use crate::errors::Error;
use vstd::prelude::*;

verus! {

/// A type with a raw binary form: the data alone, without a word on what it
/// is. Whoever reads such bytes has to know what they hold.
pub trait Converter: Sized + View {
    /// The values that have a raw form.
    spec fn convertible(v: Self::V) -> bool;

    /// The raw form of a value.
    spec fn raw(v: Self::V) -> Seq<u8>;

    /// The value that a byte string holds in raw form, if it holds one.
    spec fn raw_value(data: Seq<u8>) -> Option<Self::V>;

    /// The length of the raw form.
    fn cap(&self) -> (n: usize)
        requires
            Self::convertible(self@),
        ensures
            n == Self::raw(self@).len(),
    ;

    /// Writes the value in raw form.
    fn to_bytes(&self) -> (data: Vec<u8>)
        requires
            Self::convertible(self@),
        ensures
            data@ == Self::raw(self@),
    ;

    /// Reads a value from its raw form; `InvalidArgument` where the bytes
    /// hold none.
    fn from_bytes(data: &[u8]) -> (r: Result<Self, Error>)
        ensures
            match r {
                Ok(v) => Self::raw_value(data@) == Some(v@),
                Err(e) => Self::raw_value(data@) is None && e is InvalidArgument,
            },
    ;
}

/// A type with a self-describing binary form: the bytes say what they hold,
/// so a reader can take one value off the front of a longer byte string.
pub trait Packer: Sized + View {
    /// The values that have a packed form.
    spec fn packable(v: Self::V) -> bool;

    /// The values that are read back from their packed form as they are.
    spec fn exact(v: Self::V) -> bool;

    /// The packed form of a value.
    spec fn packed(v: Self::V) -> Seq<u8>;

    /// The value at the front of a byte string and the bytes behind it, if
    /// the front holds a value.
    spec fn unpacked(data: Seq<u8>) -> Option<(Self::V, Seq<u8>)>;

    /// Every value that can be read off the front of `data`, one after the
    /// other, until the input ends or its front holds no value.
    spec fn unpacked_all(data: Seq<u8>) -> Seq<Self::V>;

    /// `unpacked_all` reads one value, then goes on with what is left.
    proof fn lemma_unpacked_all(data: Seq<u8>)
        ensures
            Self::unpacked_all(data) == (if data.len() == 0 {
                Seq::empty()
            } else {
                match Self::unpacked(data) {
                    Some((v, rest)) => if rest.len() < data.len() {
                        seq![v] + Self::unpacked_all(rest)
                    } else {
                        Seq::empty()
                    },
                    None => Seq::empty(),
                }
            }),
    ;

    /// What is taken off the front is never empty, and what is left is the
    /// end of the input.
    proof fn lemma_unpacked_rest(data: Seq<u8>)
        ensures
            Self::unpacked(data) matches Some((_, rest)) ==> rest.len() < data.len() && rest
                == data.skip(data.len() - rest.len()),
    ;

    /// An exact value is read back from the front of any byte string that
    /// starts with its packed form, and what follows is left over.
    proof fn lemma_round_trip(v: Self::V, tail: Seq<u8>)
        requires
            Self::packable(v),
            Self::exact(v),
        ensures
            Self::unpacked(Self::packed(v) + tail) == Some((v, tail)),
    ;

    /// Writes the value in packed form.
    fn pack(&self) -> (data: Vec<u8>)
        requires
            Self::packable(self@),
        ensures
            data@ == Self::packed(self@),
    ;

    /// Reads one value off the front and returns it with the bytes that
    /// follow; `InvalidArgument` where the front holds none.
    fn unpack<'a>(data: &'a [u8]) -> (r: Result<(Self, &'a [u8]), Error>)
        ensures
            match r {
                Ok((v, rest)) => Self::unpacked(data@) == Some((v@, rest@)),
                Err(e) => Self::unpacked(data@) is None && e is InvalidArgument,
            },
    ;
}

/// Reads values off the front of `data` for as long as there is one: up to
/// the end of the input, or up to the first byte that starts none.
pub fn unpack_iter<T: Packer>(data: &[u8]) -> (items: Vec<T>)
    ensures
        views(items@) == T::unpacked_all(data@),
{
    let mut items: Vec<T> = Vec::new();
    let mut remains: &[u8] = data;
    let mut done: bool = false;
    while !done && remains.len() > 0
        invariant
            views(items@) + (if done {
                Seq::empty()
            } else {
                T::unpacked_all(remains@)
            }) == T::unpacked_all(data@),
        decreases (if done { 0 } else { 1 + remains@.len() }),
    {
        proof {
            T::lemma_unpacked_rest(remains@);
            T::lemma_unpacked_all(remains@);
        }
        match T::unpack(remains) {
            Ok((value, rest)) => {
                items.push(value);
                remains = rest;
            },
            Err(_) => {
                done = true;
            },
        }
    }
    proof {
        T::lemma_unpacked_all(remains@);
    }
    items
}

/// The views of a sequence of values, in the same order.
pub open spec fn views<T: View>(items: Seq<T>) -> Seq<T::V> {
    Seq::new(items.len(), |i: int| items[i]@)
}

/// The packed forms of a sequence of values, one after the other.
pub open spec fn packed_all<T: Packer>(items: Seq<T::V>) -> Seq<u8>
    decreases items.len(),
{
    if items.len() == 0 {
        Seq::empty()
    } else {
        T::packed(items[0]) + packed_all::<T>(items.skip(1))
    }
}

/// Reading the packed forms of exact values, written one after the other,
/// gives back those values: as many, the same, in the same order.
pub proof fn lemma_unpacked_all_of_packed_all<T: Packer>(items: Seq<T::V>)
    requires
        forall|i: int| 0 <= i < items.len() ==> T::packable(#[trigger] items[i]) && T::exact(items[i]),
    ensures
        T::unpacked_all(packed_all::<T>(items)) == items,
    decreases items.len(),
{
    let data = packed_all::<T>(items);
    T::lemma_unpacked_all(data);
    if items.len() > 0 {
        let first = items[0];
        let others = items.skip(1);
        let tail = packed_all::<T>(others);
        T::lemma_round_trip(first, tail);
        T::lemma_unpacked_rest(data);
        lemma_unpacked_all_of_packed_all::<T>(others);
    }
}

} // verus!
