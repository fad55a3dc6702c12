//! Keys and values from plain Rust values.
//!
//! A key from a text has no conversion of this kind, because a text can be
//! too long for a key: see `Key::text` and `Key::try_text`.
use crate::types::key::Key;
use crate::types::value::{Value, ValueView};
use vstd::prelude::*;
use vstd::std_specs::convert::FromSpecImpl;
use vstd::utf8::encode_utf8;

verus! {

impl From<bool> for Key {
    fn from(b: bool) -> (key: Key) {
        Key::BOOL(b)
    }
}

impl FromSpecImpl<bool> for Key {
    open spec fn obeys_from_spec() -> bool {
        true
    }

    open spec fn from_spec(b: bool) -> Key {
        Key::BOOL(b)
    }
}

impl From<i8> for Key {
    fn from(i: i8) -> (key: Key) {
        Key::INT(i as i64)
    }
}

impl FromSpecImpl<i8> for Key {
    open spec fn obeys_from_spec() -> bool {
        true
    }

    open spec fn from_spec(i: i8) -> Key {
        Key::INT(i as i64)
    }
}

impl From<u8> for Key {
    fn from(i: u8) -> (key: Key) {
        Key::INT(i as i64)
    }
}

impl FromSpecImpl<u8> for Key {
    open spec fn obeys_from_spec() -> bool {
        true
    }

    open spec fn from_spec(i: u8) -> Key {
        Key::INT(i as i64)
    }
}

impl From<i16> for Key {
    fn from(i: i16) -> (key: Key) {
        Key::INT(i as i64)
    }
}

impl FromSpecImpl<i16> for Key {
    open spec fn obeys_from_spec() -> bool {
        true
    }

    open spec fn from_spec(i: i16) -> Key {
        Key::INT(i as i64)
    }
}

impl From<u16> for Key {
    fn from(i: u16) -> (key: Key) {
        Key::INT(i as i64)
    }
}

impl FromSpecImpl<u16> for Key {
    open spec fn obeys_from_spec() -> bool {
        true
    }

    open spec fn from_spec(i: u16) -> Key {
        Key::INT(i as i64)
    }
}

impl From<i32> for Key {
    fn from(i: i32) -> (key: Key) {
        Key::INT(i as i64)
    }
}

impl FromSpecImpl<i32> for Key {
    open spec fn obeys_from_spec() -> bool {
        true
    }

    open spec fn from_spec(i: i32) -> Key {
        Key::INT(i as i64)
    }
}

impl From<u32> for Key {
    fn from(i: u32) -> (key: Key) {
        Key::INT(i as i64)
    }
}

impl FromSpecImpl<u32> for Key {
    open spec fn obeys_from_spec() -> bool {
        true
    }

    open spec fn from_spec(i: u32) -> Key {
        Key::INT(i as i64)
    }
}

impl From<i64> for Key {
    fn from(i: i64) -> (key: Key) {
        Key::INT(i)
    }
}

impl FromSpecImpl<i64> for Key {
    open spec fn obeys_from_spec() -> bool {
        true
    }

    open spec fn from_spec(i: i64) -> Key {
        Key::INT(i)
    }
}

impl From<u128> for Key {
    fn from(uid: u128) -> (key: Key) {
        Key::UID(uid)
    }
}

impl FromSpecImpl<u128> for Key {
    open spec fn obeys_from_spec() -> bool {
        true
    }

    open spec fn from_spec(uid: u128) -> Key {
        Key::UID(uid)
    }
}

impl From<usize> for Key {
    fn from(uid: usize) -> (key: Key) {
        Key::UID(uid as u128)
    }
}

impl FromSpecImpl<usize> for Key {
    open spec fn obeys_from_spec() -> bool {
        true
    }

    open spec fn from_spec(uid: usize) -> Key {
        Key::UID(uid as u128)
    }
}

impl From<&[u8]> for Value {
    fn from(data: &[u8]) -> (value: Value)
        ensures
            value@ == ValueView::Raw(data@),
    {
        Value::raw(data)
    }
}

impl FromSpecImpl<&[u8]> for Value {
    /// The conversion is stated by what the value holds, not by which
    /// value it is.
    open spec fn obeys_from_spec() -> bool {
        false
    }

    open spec fn from_spec(data: &[u8]) -> Value {
        choose|value: Value| value@ == ValueView::Raw(data@)
    }
}

impl From<&str> for Value {
    fn from(data: &str) -> (value: Value)
        ensures
            value@ == ValueView::Raw(encode_utf8(data@)),
    {
        Value::text(data)
    }
}

impl FromSpecImpl<&str> for Value {
    /// The conversion is stated by what the value holds, not by which
    /// value it is.
    open spec fn obeys_from_spec() -> bool {
        false
    }

    open spec fn from_spec(data: &str) -> Value {
        choose|value: Value| value@ == ValueView::Raw(encode_utf8(data@))
    }
}

impl From<String> for Value {
    fn from(data: String) -> (value: Value)
        ensures
            value@ == ValueView::Raw(encode_utf8(data@)),
    {
        Value::text(data.as_str())
    }
}

impl FromSpecImpl<String> for Value {
    /// The conversion is stated by what the value holds, not by which
    /// value it is.
    open spec fn obeys_from_spec() -> bool {
        false
    }

    open spec fn from_spec(data: String) -> Value {
        choose|value: Value| value@ == ValueView::Raw(encode_utf8(data@))
    }
}

} // verus!
