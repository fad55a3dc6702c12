//! Fixed-width integers as bytes, in the byte order of the machine.
use vstd::endian::{endianness, Endian};
use vstd::prelude::*;

verus! {

/// How many numbers `width` bytes can tell apart.
pub open spec fn span(width: nat) -> nat
    decreases width,
{
    if width == 0 {
        1
    } else {
        256 * span((width - 1) as nat)
    }
}

/// The `width` low bytes of `value`, the least significant one first.
pub open spec fn low_first(value: nat, width: nat) -> Seq<u8>
    decreases width,
{
    if width == 0 {
        Seq::empty()
    } else {
        seq![(value % 256) as u8] + low_first(value / 256, (width - 1) as nat)
    }
}

/// The number that `bytes` spell, the least significant byte first.
pub open spec fn low_first_value(bytes: Seq<u8>) -> nat
    decreases bytes.len(),
{
    if bytes.len() == 0 {
        0
    } else {
        bytes[0] as nat + 256 * low_first_value(bytes.skip(1))
    }
}

/// The `width` low bytes of `value` in the given byte order.
pub open spec fn word_bytes(value: nat, width: nat, order: Endian) -> Seq<u8> {
    match order {
        Endian::Little => low_first(value, width),
        Endian::Big => low_first(value, width).reverse(),
    }
}

/// The number that `bytes` spell in the given byte order.
pub open spec fn word_value(bytes: Seq<u8>, order: Endian) -> nat {
    match order {
        Endian::Little => low_first_value(bytes),
        Endian::Big => low_first_value(bytes.reverse()),
    }
}

/// The `width` low bytes of `value` as this machine lays them out in memory.
pub open spec fn native_bytes(value: nat, width: nat) -> Seq<u8> {
    word_bytes(value, width, endianness())
}

/// The number that `bytes` spell when read as this machine's memory.
pub open spec fn native_value(bytes: Seq<u8>) -> nat {
    word_value(bytes, endianness())
}

/// A signed 64-bit number as the unsigned number with the same bit pattern.
pub open spec fn pattern_of(value: i64) -> nat {
    if value >= 0 {
        value as nat
    } else {
        (value + 0x1_0000_0000_0000_0000) as nat
    }
}

/// The signed 64-bit number with the bit pattern of `pattern`.
pub open spec fn signed_of(pattern: nat) -> i64 {
    if pattern < 0x8000_0000_0000_0000 {
        pattern as i64
    } else {
        (pattern - 0x1_0000_0000_0000_0000) as i64
    }
}

/// `low_first` gives exactly `width` bytes.
pub proof fn lemma_low_first_len(value: nat, width: nat)
    ensures
        low_first(value, width).len() == width,
    decreases width,
{
    if width > 0 {
        lemma_low_first_len(value / 256, (width - 1) as nat);
    }
}

/// Reading back the low bytes of a number that fits gives the number.
pub proof fn lemma_low_first_value(value: nat, width: nat)
    requires
        value < span(width),
    ensures
        low_first_value(low_first(value, width)) == value,
    decreases width,
{
    if width > 0 {
        let rest = low_first(value / 256, (width - 1) as nat);
        let all = low_first(value, width);
        lemma_low_first_len(value / 256, (width - 1) as nat);
        lemma_low_first_value(value / 256, (width - 1) as nat);
        assert(all.skip(1) =~= rest);
    }
}

/// In either byte order, a number that fits in `width` bytes is read back
/// from its `width` bytes.
pub proof fn lemma_word_round_trip(value: nat, width: nat, order: Endian)
    requires
        value < span(width),
    ensures
        word_bytes(value, width, order).len() == width,
        word_value(word_bytes(value, width, order), order) == value,
{
    lemma_low_first_len(value, width);
    lemma_low_first_value(value, width);
    let low = low_first(value, width);
    assert(low.reverse().reverse() =~= low);
}

/// Eight bytes tell 2^64 numbers apart, sixteen bytes 2^128.
pub proof fn lemma_span_values()
    ensures
        span(1) == 0x100,
        span(8) == 0x1_0000_0000_0000_0000,
        span(16) == 0x1_0000_0000_0000_0000_0000_0000_0000_0000,
{
    reveal_with_fuel(span, 17);
}

/// A signed number is recovered from its bit pattern, which fits in eight bytes.
pub proof fn lemma_signed_round_trip(value: i64)
    ensures
        pattern_of(value) < span(8),
        signed_of(pattern_of(value)) == value,
{
    lemma_span_values();
}

/// `i64::to_ne_bytes`: the eight bytes of the number's two's-complement bit
/// pattern, in the order in which this machine keeps them in memory.
#[verifier::external_body]
pub(crate) fn int_to_native(value: i64) -> (bytes: Vec<u8>)
    ensures
        bytes@ == native_bytes(pattern_of(value), 8),
{
    value.to_ne_bytes().to_vec()
}

/// `i64::from_ne_bytes`: the number whose two's-complement bit pattern this
/// machine would keep in memory as the eight bytes given.
#[verifier::external_body]
pub(crate) fn int_from_native(bytes: &[u8]) -> (value: i64)
    requires
        bytes@.len() == 8,
    ensures
        value == signed_of(native_value(bytes@)),
{
    i64::from_ne_bytes(bytes.try_into().unwrap())
}

/// `u128::to_ne_bytes`: the sixteen bytes of the number, in the order in
/// which this machine keeps them in memory.
#[verifier::external_body]
pub(crate) fn uid_to_native(value: u128) -> (bytes: Vec<u8>)
    ensures
        bytes@ == native_bytes(value as nat, 16),
{
    value.to_ne_bytes().to_vec()
}

/// `u128::from_ne_bytes`: the number that this machine would keep in memory
/// as the sixteen bytes given.
#[verifier::external_body]
pub(crate) fn uid_from_native(bytes: &[u8]) -> (value: u128)
    requires
        bytes@.len() == 16,
    ensures
        value as nat == native_value(bytes@),
{
    u128::from_ne_bytes(bytes.try_into().unwrap())
}

} // verus!
