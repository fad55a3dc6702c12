//! The sixteen bytes at the front of every file of the store.
//!
//! ```text
//! 0..4    magic      30 14 15 92
//! 4       version    1
//! 5       type       which layer wrote the file
//! 6..8    flags      the layer's own, high byte first
//! 8..12   pid        the process that has the file open, high byte first; 0 for none
//! 12..16  checksum   CRC-32/CKSUM of the twelve bytes before, high byte first
//! ```
use crate::errors::Error;
use vstd::prelude::*;
use vstd::slice::slice_subrange;

verus! {

/// The version of the file format.
pub const VERSION: u8 = 1;

/// The length of the header.
pub const HEADER_SIZE: usize = 16;

/// The four bytes that every file starts with.
pub open spec fn magic() -> Seq<u8> {
    seq![0x30u8, 0x14u8, 0x15u8, 0x92u8]
}

/// The four bytes of a 32-bit number, the high byte first.
pub open spec fn high_first(word: u32) -> Seq<u8> {
    seq![
        (word / 0x100_0000) as u8,
        (word / 0x1_0000 % 256) as u8,
        (word / 0x100 % 256) as u8,
        (word % 256) as u8,
    ]
}

/// The 32-bit number that four bytes spell, the high byte first.
pub open spec fn high_first_value(bytes: Seq<u8>) -> u32 {
    (bytes[0] as nat * 0x100_0000 + bytes[1] as nat * 0x1_0000 + bytes[2] as nat * 0x100
        + bytes[3] as nat) as u32
}

/// The first twelve bytes of a header: all of it but the checksum.
pub open spec fn prefix_of(typ: u8, flags: u16, pid: u32) -> Seq<u8> {
    magic() + seq![VERSION, typ, (flags / 256) as u8, (flags % 256) as u8] + high_first(pid)
}

/// The CRC-32/CKSUM checksum of a byte string.
pub uninterp spec fn crc32_cksum(data: Seq<u8>) -> u32;

/// The header of a file of the given type and flags that the process `pid`
/// has open; `pid` is 0 where no process has.
pub open spec fn header_of(typ: u8, flags: u16, pid: u32) -> Seq<u8> {
    prefix_of(typ, flags, pid) + high_first(crc32_cksum(prefix_of(typ, flags, pid)))
}

/// The type that a header states.
pub open spec fn stated_typ(header: Seq<u8>) -> u8 {
    header[5]
}

/// The flags that a header states.
pub open spec fn stated_flags(header: Seq<u8>) -> u16 {
    (header[6] as nat * 256 + header[7] as nat) as u16
}

/// The owner that a header states; 0 for none.
pub open spec fn stated_pid(header: Seq<u8>) -> u32 {
    high_first_value(header.subrange(8, 12))
}

/// Whether sixteen bytes are a header whose stated checksum is `sum`, with
/// the right magic and version and, where `meta` is given, that type and
/// those flags.
pub open spec fn sound_with(header: Seq<u8>, meta: Option<(u8, u16)>, sum: u32) -> bool {
    &&& high_first_value(header.subrange(12, 16)) == sum
    &&& header.subrange(0, 4) == magic()
    &&& header[4] == VERSION
    &&& match meta {
        Some((typ, flags)) => stated_typ(header) == typ && stated_flags(header) == flags,
        None => true,
    }
}

/// Whether sixteen bytes are a header: the checksum is that of the twelve
/// bytes before it, magic and version are right and, where `meta` is
/// given, type and flags are those.
pub open spec fn sound(header: Seq<u8>, meta: Option<(u8, u16)>) -> bool {
    sound_with(header, meta, crc32_cksum(header.subrange(0, 12)))
}

/// `crc::Crc::<u32>::checksum` for the algorithm `CRC_32_CKSUM`: the
/// checksum of the bytes, which depends on them alone.
#[verifier::external_body]
pub(crate) fn checksum(data: &[u8]) -> (sum: u32)
    ensures
        sum == crc32_cksum(data@),
{
    crc::Crc::<u32>::new(&crc::CRC_32_CKSUM).checksum(data)
}

/// Appends the four bytes of `word`, the high byte first.
fn push_high_first(data: &mut Vec<u8>, word: u32)
    ensures
        final(data)@ == old(data)@ + high_first(word),
{
    data.push((word / 0x100_0000) as u8);
    data.push((word / 0x1_0000 % 256) as u8);
    data.push((word / 0x100 % 256) as u8);
    data.push((word % 256) as u8);
}

/// The 32-bit number in the four bytes from `at` on, the high byte first.
fn read_high_first(data: &[u8], at: usize) -> (word: u32)
    requires
        at + 4 <= data@.len(),
    ensures
        word == high_first_value(data@.subrange(at as int, at + 4)),
{
    let b0: u32 = data[at] as u32;
    let b1: u32 = data[at + 1] as u32;
    let b2: u32 = data[at + 2] as u32;
    let b3: u32 = data[at + 3] as u32;
    b0 * 0x100_0000 + b1 * 0x1_0000 + b2 * 0x100 + b3
}

/// The first twelve bytes of a header.
pub fn prefix(typ: u8, flags: u16, pid: u32) -> (data: Vec<u8>)
    ensures
        data@ == prefix_of(typ, flags, pid),
{
    let mut data: Vec<u8> = Vec::new();
    data.push(0x30u8);
    data.push(0x14u8);
    data.push(0x15u8);
    data.push(0x92u8);
    data.push(VERSION);
    data.push(typ);
    data.push((flags / 256) as u8);
    data.push((flags % 256) as u8);
    push_high_first(&mut data, pid);
    data
}

/// A header from its first twelve bytes and their checksum.
pub fn sealed(prefix: Vec<u8>, sum: u32) -> (header: Vec<u8>)
    ensures
        header@ == prefix@ + high_first(sum),
{
    let mut header = prefix;
    push_high_first(&mut header, sum);
    header
}

/// The header of a file of the given type and flags that the process `pid`
/// has open; `pid` is 0 where no process has.
pub fn header(typ: u8, flags: u16, pid: u32) -> (data: Vec<u8>)
    ensures
        data@ == header_of(typ, flags, pid),
        data@.len() == HEADER_SIZE,
{
    let start = prefix(typ, flags, pid);
    let sum = checksum(start.as_slice());
    sealed(start, sum)
}

/// Checks a header against the checksum that its first twelve bytes should
/// have, and returns version, type and flags as it states them.
pub fn verify_with(header: &[u8], meta: Option<(u8, u16)>, sum: u32) -> (r: Result<
    (u8, u8, u16),
    Error,
>)
    requires
        header@.len() == HEADER_SIZE,
    ensures
        match r {
            Ok((ver, typ, flags)) => sound_with(header@, meta, sum) && ver == VERSION && typ
                == stated_typ(header@) && flags == stated_flags(header@),
            Err(e) => !sound_with(header@, meta, sum) && e is InvalidArgument,
        },
{
    let stated = read_high_first(header, 12);
    if stated != sum {
        return Err(Error::InvalidArgument);
    }
    let hdr_ver: u8 = header[4];
    let hdr_typ: u8 = header[5];
    let hdr_flags: u16 = (header[6] as u16) * 256 + (header[7] as u16);
    let check_meta = match meta {
        Some((typ, flags)) => hdr_typ == typ && hdr_flags == flags,
        None => true,
    };
    let check_magic = header[0] == 0x30 && header[1] == 0x14 && header[2] == 0x15 && header[3]
        == 0x92;
    proof {
        let m = header@.subrange(0, 4);
        if check_magic {
            assert(m =~= magic());
        }
    }
    if !(check_meta && check_magic && hdr_ver == VERSION) {
        return Err(Error::InvalidArgument);
    }
    Ok((hdr_ver, hdr_typ, hdr_flags))
}

/// Checks a header: its checksum, magic and version and, where `meta` is
/// given, type and flags. Returns version, type and flags as it states them.
pub fn verify(header: &[u8], meta: Option<(u8, u16)>) -> (r: Result<(u8, u8, u16), Error>)
    requires
        header@.len() == HEADER_SIZE,
    ensures
        match r {
            Ok((ver, typ, flags)) => sound(header@, meta) && ver == VERSION && typ == stated_typ(
                header@,
            ) && flags == stated_flags(header@),
            Err(e) => !sound(header@, meta) && e is InvalidArgument,
        },
{
    let sum = checksum(slice_subrange(header, 0, 12));
    verify_with(header, meta, sum)
}

/// The owner that a header states; 0 for none.
pub fn owner(header: &[u8]) -> (pid: u32)
    requires
        header@.len() >= HEADER_SIZE,
    ensures
        pid == stated_pid(header@),
{
    read_high_first(header, 8)
}

/// A header is sixteen bytes long.
pub proof fn lemma_header_len(typ: u8, flags: u16, pid: u32)
    ensures
        header_of(typ, flags, pid).len() == HEADER_SIZE,
{
}

/// A header that this library writes is sound, whatever its owner, and
/// states the type, the flags and the owner that it was written with.
pub proof fn lemma_header_sound(typ: u8, flags: u16, pid: u32)
    ensures
        sound(header_of(typ, flags, pid), Some((typ, flags))),
        sound(header_of(typ, flags, pid), None),
        stated_typ(header_of(typ, flags, pid)) == typ,
        stated_flags(header_of(typ, flags, pid)) == flags,
        stated_pid(header_of(typ, flags, pid)) == pid,
{
    let start = prefix_of(typ, flags, pid);
    let sum = crc32_cksum(start);
    let all = header_of(typ, flags, pid);
    assert(all.subrange(0, 12) =~= start);
    assert(all.subrange(0, 4) =~= magic());
    lemma_high_first_round_trip(sum);
    lemma_high_first_round_trip(pid);
}

/// A 32-bit number is read back from its four bytes.
pub proof fn lemma_high_first_round_trip(word: u32)
    ensures
        high_first_value(high_first(word)) == word,
{
}

} // verus!
