//! The key: the searchable, sortable half of a record.
use crate::errors::Error;
use crate::types::native::{
    int_from_native, int_to_native, lemma_low_first_len, lemma_signed_round_trip,
    lemma_span_values, lemma_word_round_trip, native_bytes, native_value, pattern_of, signed_of,
    uid_from_native, uid_to_native,
};
use crate::types::traits::{unpack_iter, views, Converter, Packer};
use vstd::endian::endianness;
use vstd::prelude::*;
use vstd::slice::{slice_subrange, slice_to_vec};
use vstd::utf8::{
    decode_utf8, encode_utf8, encode_utf8_decode_utf8, encode_utf8_valid_utf8, valid_utf8,
};

verus! {

/// A key of one of five kinds, each with a raw form of fixed length.
///
/// Keys are ordered by kind first (`BOOL` before `INT` before `UID` before
/// `STR` before `TEXT`) and by what they hold second, so keys of different
/// kinds are never equal.
#[derive(Debug, Clone, Eq, PartialEq, Ord, PartialOrd, Hash)]
pub enum Key {
    /// A truth value.
    BOOL(bool),
    /// A 64-bit signed integer.
    INT(i64),
    /// A 128-bit unsigned integer.
    UID(u128),
    /// A short text, kept in 64 bytes.
    STR(String),
    /// A longer text, kept in 256 bytes.
    TEXT(String),
}

/// A key as a mathematical value.
pub enum KeyView {
    Bool(bool),
    Int(i64),
    Uid(u128),
    Str(Seq<char>),
    Text(Seq<char>),
}

impl View for Key {
    type V = KeyView;

    open spec fn view(&self) -> KeyView {
        match self {
            Key::BOOL(b) => KeyView::Bool(*b),
            Key::INT(i) => KeyView::Int(*i),
            Key::UID(u) => KeyView::Uid(*u),
            Key::STR(s) => KeyView::Str(s@),
            Key::TEXT(s) => KeyView::Text(s@),
        }
    }
}

/// The text that `String::from_utf8_lossy` makes of bytes that are not UTF-8.
pub uninterp spec fn lossy_text(bytes: Seq<u8>) -> Seq<char>;

/// The text that a byte string is read as: what it spells where it is
/// UTF-8, and a repaired reading of it where it is not.
pub open spec fn text_of(bytes: Seq<u8>) -> Seq<char> {
    if valid_utf8(bytes) {
        decode_utf8(bytes)
    } else {
        lossy_text(bytes)
    }
}

/// `count` NUL bytes.
pub open spec fn zeros(count: nat) -> Seq<u8> {
    Seq::new(count, |i: int| 0u8)
}

/// `bytes` filled up with NUL bytes to `cap` bytes.
pub open spec fn padded(bytes: Seq<u8>, cap: nat) -> Seq<u8> {
    bytes + zeros((cap - bytes.len()) as nat)
}

/// `data` without the NUL bytes at its end.
pub open spec fn trimmed(data: Seq<u8>) -> Seq<u8>
    decreases data.len(),
{
    if data.len() == 0 || data.last() != 0 {
        data
    } else {
        trimmed(data.drop_last())
    }
}

/// The length of the raw form of the kind with discriminant `tag`.
pub open spec fn cap_of_tag(tag: u8) -> Option<nat> {
    if tag == 0 {
        Some(1)
    } else if tag == 1 {
        Some(8)
    } else if tag == 2 {
        Some(16)
    } else if tag == 3 {
        Some(64)
    } else if tag == 4 {
        Some(256)
    } else {
        None
    }
}

impl KeyView {
    /// The discriminant of the kind, as the packed form writes it.
    pub open spec fn tag(self) -> u8 {
        match self {
            KeyView::Bool(_) => 0,
            KeyView::Int(_) => 1,
            KeyView::Uid(_) => 2,
            KeyView::Str(_) => 3,
            KeyView::Text(_) => 4,
        }
    }

    /// The length of the raw form.
    pub open spec fn capacity(self) -> nat {
        match self {
            KeyView::Bool(_) => 1,
            KeyView::Int(_) => 8,
            KeyView::Uid(_) => 16,
            KeyView::Str(_) => 64,
            KeyView::Text(_) => 256,
        }
    }

    /// What the key holds, before it is filled up to its capacity.
    pub open spec fn content(self) -> Seq<u8> {
        match self {
            KeyView::Bool(b) => seq![if b { 1u8 } else { 0u8 }],
            KeyView::Int(i) => native_bytes(pattern_of(i), 8),
            KeyView::Uid(u) => native_bytes(u as nat, 16),
            KeyView::Str(s) => encode_utf8(s),
            KeyView::Text(s) => encode_utf8(s),
        }
    }

    /// Whether what the key holds fits in the capacity of its kind: a
    /// text may be too long, anything else fits.
    pub open spec fn fits(self) -> bool {
        match self {
            KeyView::Str(s) => encode_utf8(s).len() <= 64,
            KeyView::Text(s) => encode_utf8(s).len() <= 256,
            _ => true,
        }
    }

    /// Whether the key is read back from its bytes as it is: a text is, if
    /// its last byte is not NUL.
    pub open spec fn exact(self) -> bool {
        match self {
            KeyView::Str(s) => encode_utf8(s).len() == 0 || encode_utf8(s).last() != 0,
            KeyView::Text(s) => encode_utf8(s).len() == 0 || encode_utf8(s).last() != 0,
            _ => true,
        }
    }

    /// The raw form: what the key holds, filled up with NUL bytes.
    pub open spec fn raw(self) -> Seq<u8> {
        padded(self.content(), self.capacity())
    }

    /// The key that a byte string holds in raw form. The length tells the kind.
    pub open spec fn of_raw(data: Seq<u8>) -> Option<KeyView> {
        if data.len() == 1 {
            Some(KeyView::Bool(data[0] != 0))
        } else if data.len() == 8 {
            Some(KeyView::Int(signed_of(native_value(data))))
        } else if data.len() == 16 {
            Some(KeyView::Uid(native_value(data) as u128))
        } else if data.len() == 64 {
            Some(KeyView::Str(text_of(trimmed(data))))
        } else if data.len() == 256 {
            Some(KeyView::Text(text_of(trimmed(data))))
        } else {
            None
        }
    }

    /// The key that stands for a text: short texts are `Str`, longer ones `Text`.
    pub open spec fn of_text(text: Seq<char>) -> KeyView {
        if encode_utf8(text).len() < 64 {
            KeyView::Str(text)
        } else {
            KeyView::Text(text)
        }
    }

    /// The packed form: the discriminant, then the raw form.
    pub open spec fn frame(self) -> Seq<u8> {
        seq![self.tag()] + self.raw()
    }

    /// The keys that a byte string holds one after the other, up to its end
    /// or to the first byte that starts none.
    pub open spec fn of_frames(data: Seq<u8>) -> Seq<KeyView>
        decreases data.len(),
    {
        if data.len() == 0 {
            Seq::empty()
        } else {
            match KeyView::of_frame(data) {
                Some((key, rest)) => if rest.len() < data.len() {
                    seq![key] + KeyView::of_frames(rest)
                } else {
                    Seq::empty()
                },
                None => Seq::empty(),
            }
        }
    }

    /// The key at the front of a byte string and the bytes behind it.
    pub open spec fn of_frame(data: Seq<u8>) -> Option<(KeyView, Seq<u8>)> {
        if data.len() < 2 {
            None
        } else {
            match cap_of_tag(data[0]) {
                Some(cap) => if data.len() - 1 < cap {
                    None
                } else {
                    match KeyView::of_raw(data.subrange(1, 1 + cap as int)) {
                        Some(key) => Some((key, data.skip(1 + cap as int))),
                        None => None,
                    }
                },
                None => None,
            }
        }
    }
}

/// `String::from_utf8_lossy`: the text that the bytes spell where they are
/// UTF-8; where they are not, a text that depends on the bytes alone.
#[verifier::external_body]
fn text_from_bytes(bytes: &[u8]) -> (text: String)
    ensures
        valid_utf8(bytes@) ==> text@ == decode_utf8(bytes@),
        !valid_utf8(bytes@) ==> text@ == lossy_text(bytes@),
{
    String::from_utf8_lossy(bytes).into_owned()
}

/// The bytes of a text, filled up with NUL bytes to `cap` bytes.
fn padded_text(text: &String, cap: usize) -> (data: Vec<u8>)
    requires
        encode_utf8(text@).len() <= cap,
    ensures
        data@ == padded(encode_utf8(text@), cap as nat),
{
    let bytes = text.as_str().as_bytes();
    let mut data: Vec<u8> = slice_to_vec(bytes);
    let ghost content = encode_utf8(text@);
    while data.len() < cap
        invariant
            content.len() <= data.len() <= cap,
            data@ == content + zeros((data.len() - content.len()) as nat),
        decreases cap - data.len(),
    {
        data.push(0u8);
    }
    data
}

/// The text in a raw form: what the bytes before the NUL bytes at the end
/// are read as.
fn trimmed_text(data: &[u8]) -> (text: String)
    ensures
        text@ == text_of(trimmed(data@)),
{
    let mut end: usize = data.len();
    assert(data@.take(end as int) =~= data@);
    while end > 0 && data[end - 1] == 0
        invariant
            end <= data.len(),
            trimmed(data@) == trimmed(data@.take(end as int)),
        decreases end,
    {
        assert(data@.take(end as int).drop_last() =~= data@.take(end - 1));
        end = end - 1;
    }
    let content = slice_subrange(data, 0, end);
    text_from_bytes(content)
}

impl Converter for Key {
    open spec fn convertible(v: KeyView) -> bool {
        v.fits()
    }

    open spec fn raw(v: KeyView) -> Seq<u8> {
        v.raw()
    }

    open spec fn raw_value(data: Seq<u8>) -> Option<KeyView> {
        KeyView::of_raw(data)
    }

    fn cap(&self) -> (n: usize) {
        proof {
            lemma_raw_len(self@);
        }
        match self {
            Key::BOOL(_) => 1,
            Key::INT(_) => 8,
            Key::UID(_) => 16,
            Key::STR(_) => 64,
            Key::TEXT(_) => 256,
        }
    }

    fn to_bytes(&self) -> (data: Vec<u8>) {
        match self {
            Key::BOOL(b) => {
                let data: Vec<u8> = vec![if *b { 1u8 } else { 0u8 }];
                data
            },
            Key::INT(i) => {
                let data = int_to_native(*i);
                proof {
                    lemma_native_len(pattern_of(*i), 8);
                }
                data
            },
            Key::UID(u) => {
                let data = uid_to_native(*u);
                proof {
                    lemma_native_len(*u as nat, 16);
                }
                data
            },
            Key::STR(s) => padded_text(s, 64),
            Key::TEXT(s) => padded_text(s, 256),
        }
    }

    fn from_bytes(data: &[u8]) -> (r: Result<Self, Error>) {
        let n = data.len();
        if n == 1 {
            Ok(Key::BOOL(data[0] != 0))
        } else if n == 8 {
            Ok(Key::INT(int_from_native(data)))
        } else if n == 16 {
            Ok(Key::UID(uid_from_native(data)))
        } else if n == 64 {
            Ok(Key::STR(trimmed_text(data)))
        } else if n == 256 {
            Ok(Key::TEXT(trimmed_text(data)))
        } else {
            Err(Error::InvalidArgument)
        }
    }
}

impl Packer for Key {
    open spec fn packable(v: KeyView) -> bool {
        v.fits()
    }

    open spec fn packed(v: KeyView) -> Seq<u8> {
        v.frame()
    }

    open spec fn unpacked(data: Seq<u8>) -> Option<(KeyView, Seq<u8>)> {
        KeyView::of_frame(data)
    }

    open spec fn unpacked_all(data: Seq<u8>) -> Seq<KeyView> {
        KeyView::of_frames(data)
    }

    open spec fn exact(v: KeyView) -> bool {
        v.exact()
    }

    proof fn lemma_unpacked_all(data: Seq<u8>) {
    }

    proof fn lemma_round_trip(v: KeyView, tail: Seq<u8>) {
        lemma_frame_round_trip(v, tail);
    }

    proof fn lemma_unpacked_rest(data: Seq<u8>) {
    }

    fn pack(&self) -> (data: Vec<u8>) {
        let typ: u8 = match self {
            Key::BOOL(_) => 0,
            Key::INT(_) => 1,
            Key::UID(_) => 2,
            Key::STR(_) => 3,
            Key::TEXT(_) => 4,
        };
        let mut data: Vec<u8> = vec![typ];
        let mut raw = self.to_bytes();
        data.append(&mut raw);
        data
    }

    fn unpack<'a>(data: &'a [u8]) -> (r: Result<(Self, &'a [u8]), Error>) {
        if data.len() < 2 {
            return Err(Error::InvalidArgument);
        }
        let typ: u8 = data[0];
        let size: usize = if typ == 0 {
            1
        } else if typ == 1 {
            8
        } else if typ == 2 {
            16
        } else if typ == 3 {
            64
        } else if typ == 4 {
            256
        } else {
            return Err(Error::InvalidArgument);
        };
        if data.len() - 1 < size {
            return Err(Error::InvalidArgument);
        }
        let body = slice_subrange(data, 1, 1 + size);
        let rest = slice_subrange(data, 1 + size, data.len());
        match Key::from_bytes(body) {
            Ok(key) => Ok((key, rest)),
            Err(e) => Err(e),
        }
    }
}

impl Key {
    /// Reads keys off the front of `data` for as long as there is one.
    pub fn unpack_iter(data: &[u8]) -> (keys: Vec<Key>)
        ensures
            views(keys@) == KeyView::of_frames(data@),
    {
        unpack_iter::<Key>(data)
    }

    /// The key for a text: `STR` for fewer than 64 bytes, `TEXT` for 64 to
    /// 255 bytes. A longer text is no key.
    pub fn text(s: &str) -> (key: Key)
        requires
            encode_utf8(s@).len() < 256,
        ensures
            key@ == KeyView::of_text(s@),
            key@.fits(),
    {
        if s.len() < 64 {
            Key::STR(s.to_owned())
        } else {
            Key::TEXT(s.to_owned())
        }
    }

    /// The key for a text, or `None` for a text of 256 bytes or more.
    pub fn try_text(s: &str) -> (key: Option<Key>)
        ensures
            encode_utf8(s@).len() < 256 ==> (key matches Some(k) && k@ == KeyView::of_text(s@)),
            encode_utf8(s@).len() >= 256 ==> key is None,
    {
        if s.as_bytes().len() < 256 {
            Some(Key::text(s))
        } else {
            None
        }
    }

    /// Whether what the key holds fits in the capacity of its kind. Only
    /// such a key can be written as bytes.
    pub fn fits(&self) -> (r: bool)
        ensures
            r == self@.fits(),
    {
        match self {
            Key::STR(s) => s.as_str().as_bytes().len() <= 64,
            Key::TEXT(s) => s.as_str().as_bytes().len() <= 256,
            _ => true,
        }
    }

    /// A key that holds the same as this one.
    pub fn duplicate(&self) -> (key: Key)
        ensures
            key@ == self@,
    {
        match self {
            Key::BOOL(b) => Key::BOOL(*b),
            Key::INT(i) => Key::INT(*i),
            Key::UID(u) => Key::UID(*u),
            Key::STR(s) => Key::STR(s.clone()),
            Key::TEXT(s) => Key::TEXT(s.clone()),
        }
    }
}

/// The bytes of a number in this machine's order are as many as asked for.
pub proof fn lemma_native_len(value: nat, width: nat)
    ensures
        native_bytes(value, width).len() == width,
{
    lemma_low_first_len(value, width);
}

/// The raw form of a key that fits is as long as the capacity of its kind.
pub proof fn lemma_raw_len(key: KeyView)
    requires
        key.fits(),
    ensures
        key.raw().len() == key.capacity(),
{
    match key {
        KeyView::Int(i) => lemma_native_len(pattern_of(i), 8),
        KeyView::Uid(u) => lemma_native_len(u as nat, 16),
        _ => {},
    }
}

/// Filling up with NUL bytes and taking them off again gives back bytes
/// that do not end in NUL.
pub proof fn lemma_trimmed_padded(bytes: Seq<u8>, cap: nat)
    requires
        bytes.len() <= cap,
        bytes.len() == 0 || bytes.last() != 0,
    ensures
        trimmed(padded(bytes, cap)) == bytes,
    decreases cap - bytes.len(),
{
    let all = padded(bytes, cap);
    if bytes.len() < cap {
        assert(all.drop_last() =~= padded(bytes, (cap - 1) as nat));
        lemma_trimmed_padded(bytes, (cap - 1) as nat);
    }
}

/// A key that fits and is exact is read back from its raw form.
pub proof fn lemma_raw_round_trip(key: KeyView)
    requires
        key.fits(),
        key.exact(),
    ensures
        KeyView::of_raw(key.raw()) == Some(key),
{
    lemma_span_values();
    match key {
        KeyView::Bool(b) => {},
        KeyView::Int(i) => {
            lemma_signed_round_trip(i);
            lemma_word_round_trip(pattern_of(i), 8, endianness());
        },
        KeyView::Uid(u) => {
            lemma_word_round_trip(u as nat, 16, endianness());
        },
        KeyView::Str(s) => {
            lemma_trimmed_padded(encode_utf8(s), 64);
            encode_utf8_valid_utf8(s);
            encode_utf8_decode_utf8(s);
        },
        KeyView::Text(s) => {
            lemma_trimmed_padded(encode_utf8(s), 256);
            encode_utf8_valid_utf8(s);
            encode_utf8_decode_utf8(s);
        },
    }
}

/// A key that fits and is exact is read back from the front of any byte
/// string that starts with its packed form, and what follows is left over.
pub proof fn lemma_frame_round_trip(key: KeyView, tail: Seq<u8>)
    requires
        key.fits(),
        key.exact(),
    ensures
        KeyView::of_frame(key.frame() + tail) == Some((key, tail)),
{
    let data = key.frame() + tail;
    let cap = key.capacity();
    lemma_raw_round_trip(key);
    assert(data.subrange(1, 1 + cap as int) =~= key.raw());
}

/// What is read off the front of a byte string is read off the same way
/// when more bytes follow, and those bytes are then left over too.
pub proof fn lemma_frame_extends(data: Seq<u8>, tail: Seq<u8>)
    requires
        KeyView::of_frame(data) is Some,
    ensures
        KeyView::of_frame(data) matches Some((item, rest)) && KeyView::of_frame(data + tail) == Some(
            (item, rest + tail),
        ),
{
    let cap = cap_of_tag(data[0])->0;
    let more = data + tail;
    assert(more.subrange(1, 1 + cap as int) =~= data.subrange(1, 1 + cap as int));
}

} // verus!
