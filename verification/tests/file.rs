use papyrus::layers::file::header::{header, owner, prefix, sealed, verify, verify_with};
use papyrus::{Error, FileBaseLayer, FileLayer, WALLayer};

const PID: u32 = 4242;

fn create(file: &str, meta: Option<(u8, u16)>) -> FileBaseLayer {
    let layer = FileBaseLayer::new(file, None, meta, PID);

    assert_eq!(layer.is_ok(), true);
    layer.unwrap()
}

fn on_disk(layer: &FileBaseLayer) -> Vec<u8> {
    layer.image().unwrap().to_vec()
}

#[test]
fn test_create_file_layer() {
    let typ: u8 = 1;
    let flags: u16 = 0x1234;

    let file = "test_create_file_layer";
    let layer = create(file, Some((typ, flags)));

    assert_eq!(layer.path(), file);
    assert_eq!(layer.typ(), typ);
    assert_eq!(layer.flags(), flags);
}

#[test]
fn test_open_file_layer() {
    let typ: u8 = 1;
    let flags: u16 = 0x1234;

    let file = "test_open_file_layer";
    let layer = create(file, Some((typ, flags)));

    let layer = FileBaseLayer::new(file, Some(on_disk(&layer)), None, PID).unwrap();

    assert_eq!(layer.path(), file);
    assert_eq!(layer.typ(), typ);
    assert_eq!(layer.flags(), flags);
}

#[test]
fn test_read_write_at() {
    let typ: u8 = 1;
    let flags: u16 = 0x1234;

    let file = "test_read_write_at";
    let mut layer = create(file, Some((typ, flags)));

    let data: &[u8] = &[0x01, 0x02, 0x03, 0x04];
    let mut buff: Vec<u8> = vec![0u8; 4];

    assert_eq!(layer.write_at(data, 0), Ok(()));
    assert_eq!(layer.read_at(&mut buff, 0), Ok(()));
    assert_eq!(buff, data);
}

#[test]
fn test_read_to_end() {
    let typ: u8 = 1;
    let flags: u16 = 0x1234;

    let file = "test_read_to_end";
    let mut layer = create(file, Some((typ, flags)));

    let data: &[u8] = &[0x01, 0x02, 0x03, 0x04];
    let mut buff: Vec<u8> = Vec::new();

    assert_eq!(layer.write_at(data, 0), Ok(()));
    assert_eq!(layer.read_to_end(&mut buff), Ok(()));
    assert_eq!(buff, data);
}

#[test]
fn test_write_append() {
    let typ: u8 = 1;
    let flags: u16 = 0x1234;

    let file = "test_write_append";
    let mut layer = create(file, Some((typ, flags)));

    let data: &[u8] = &[0x01, 0x02, 0x03, 0x04];
    let mut buff: Vec<u8> = vec![0u8; 4];

    assert_eq!(layer.write_at(data, 0), Ok(()));
    assert_eq!(layer.append(data), Ok(()));

    assert_eq!(layer.read_at(&mut buff, 0), Ok(()));
    assert_eq!(buff, data);

    assert_eq!(layer.read_at(&mut buff, 4), Ok(()));
    assert_eq!(buff, data);
}

#[test]
fn test_file_locked() {
    let typ: u8 = 1;
    let flags: u16 = 0x1234;
    let pid: u32 = PID;

    let file = "test_file_locked";
    let layer = create(file, Some((typ, flags)));

    assert_eq!(layer.locked(pid), false);
    assert_eq!(layer.locked(0), true);
}

#[test]
fn test_file_lock_release() {
    let typ: u8 = 1;
    let flags: u16 = 0x1234;
    let pid: u32 = PID;

    let file = "test_file_lock_release";
    let mut layer = create(file, Some((typ, flags)));

    assert_eq!(layer.locked(pid), false);
    assert_eq!(layer.locked(0), true);

    let _ = layer.open(None);

    assert_eq!(layer.locked(pid), false);
    assert_eq!(layer.locked(0), true);
}

#[test]
fn test_header_bytes() {
    assert_eq!(
        header(1, 0x1234, 0),
        vec![0x30, 0x14, 0x15, 0x92, 1, 1, 0x12, 0x34, 0, 0, 0, 0, 157, 96, 192, 76]
    );
    assert_eq!(
        header(1, 0x1234, 4242),
        vec![0x30, 0x14, 0x15, 0x92, 1, 1, 0x12, 0x34, 0, 0, 16, 146, 161, 174, 91, 175]
    );
    assert_eq!(
        header(1, 0, 7),
        vec![0x30, 0x14, 0x15, 0x92, 1, 1, 0, 0, 0, 0, 0, 7, 163, 117, 204, 174]
    );
    assert_eq!(
        prefix(2, 0xabcd, 0x01020304),
        vec![0x30, 0x14, 0x15, 0x92, 1, 2, 0xab, 0xcd, 1, 2, 3, 4]
    );
    assert_eq!(sealed(vec![9, 8], 0x0a0b0c0d), vec![9, 8, 0x0a, 0x0b, 0x0c, 0x0d]);
    assert_eq!(owner(&header(1, 0, 0x01020304)), 0x01020304);
    assert_eq!(owner(&header(1, 0, 0)), 0);
}

#[test]
fn test_header_verify() {
    let good = header(1, 0x1234, 0);

    assert_eq!(verify(&good, None), Ok((1, 1, 0x1234)));
    assert_eq!(verify(&good, Some((1, 0x1234))), Ok((1, 1, 0x1234)));
    assert_eq!(verify(&header(1, 0x1234, 99), None), Ok((1, 1, 0x1234)));
    assert_eq!(verify(&good, Some((2, 0x1234))), Err(Error::InvalidArgument));
    assert_eq!(verify(&good, Some((1, 0x1235))), Err(Error::InvalidArgument));

    for at in 0..16 {
        let mut bad = good.clone();
        bad[at] ^= 0x01;
        assert_eq!(verify(&bad, None), Err(Error::InvalidArgument));
    }
}

#[test]
fn test_header_verify_with() {
    let mut bytes = vec![0x30, 0x14, 0x15, 0x92, 1, 7, 0, 9, 0, 0, 0, 0, 0xde, 0xad, 0xbe, 0xef];

    assert_eq!(verify_with(&bytes, None, 0xdeadbeef), Ok((1, 7, 9)));
    assert_eq!(verify_with(&bytes, Some((7, 9)), 0xdeadbeef), Ok((1, 7, 9)));
    assert_eq!(verify_with(&bytes, None, 0xdeadbeee), Err(Error::InvalidArgument));
    assert_eq!(verify_with(&bytes, Some((7, 8)), 0xdeadbeef), Err(Error::InvalidArgument));
    assert_eq!(verify_with(&bytes, Some((6, 9)), 0xdeadbeef), Err(Error::InvalidArgument));

    bytes[4] = 2;
    assert_eq!(verify_with(&bytes, None, 0xdeadbeef), Err(Error::InvalidArgument));
    bytes[4] = 1;
    bytes[3] = 0x93;
    assert_eq!(verify_with(&bytes, None, 0xdeadbeef), Err(Error::InvalidArgument));
}

#[test]
fn test_new_file_is_header_only() {
    let layer = create("fresh", Some((1, 0x1234)));

    assert_eq!(on_disk(&layer), header(1, 0x1234, PID));
    assert_eq!(layer.pid(), PID);
    assert!(layer.is_open());
}

#[test]
fn test_open_needs_meta_or_file() {
    let layer = FileBaseLayer::new("nothing", None, None, PID);
    assert_eq!(layer.err(), Some(Error::InvalidArgument));
}

#[test]
fn test_open_checks_header() {
    let good = header(1, 0x1234, 0);

    let mut bad_sum = good.clone();
    bad_sum[15] ^= 0xff;
    let layer = FileBaseLayer::new("f", Some(bad_sum), None, PID);
    assert_eq!(layer.err(), Some(Error::InvalidArgument));

    let mut bad_magic = prefix(1, 0x1234, 0);
    bad_magic[0] = 0x31;
    let sum = papyrus_checksum(&bad_magic);
    let layer = FileBaseLayer::new("f", Some(sealed(bad_magic, sum)), None, PID);
    assert_eq!(layer.err(), Some(Error::InvalidArgument));

    let mut bad_version = prefix(1, 0x1234, 0);
    bad_version[4] = 2;
    let sum = papyrus_checksum(&bad_version);
    let layer = FileBaseLayer::new("f", Some(sealed(bad_version, sum)), None, PID);
    assert_eq!(layer.err(), Some(Error::InvalidArgument));

    let layer = FileBaseLayer::new("f", Some(good.clone()), Some((2, 0x1234)), PID);
    assert_eq!(layer.err(), Some(Error::InvalidArgument));
    let layer = FileBaseLayer::new("f", Some(good.clone()), Some((1, 0)), PID);
    assert_eq!(layer.err(), Some(Error::InvalidArgument));

    let layer = FileBaseLayer::new("f", Some(good), Some((1, 0x1234)), PID);
    assert!(layer.is_ok());
}

fn papyrus_checksum(start: &[u8]) -> u32 {
    let mut crc: u32 = 0;
    for byte in start {
        crc ^= (*byte as u32) << 24;
        for _ in 0..8 {
            crc = if crc & 0x8000_0000 != 0 { (crc << 1) ^ 0x04c1_1db7 } else { crc << 1 };
        }
    }
    crc ^ 0xffff_ffff
}

#[test]
fn test_checksum_is_cksum() {
    let start = prefix(1, 0x1234, 0);
    let sum = papyrus_checksum(&start);

    assert_eq!(sum, 0x9d60c04c);
    assert_eq!(sealed(start, sum), header(1, 0x1234, 0));
}

#[test]
fn test_open_short_file() {
    let layer = FileBaseLayer::new("short", Some(vec![0x30, 0x14, 0x15]), None, PID);
    assert!(matches!(layer.err(), Some(Error::IOError(_))));

    let layer = FileBaseLayer::new("empty", Some(vec![]), Some((1, 0)), PID);
    assert!(matches!(layer.err(), Some(Error::IOError(_))));
}

#[test]
fn test_open_locked_by_another() {
    let mut bytes = header(1, 0x1234, 77);
    bytes.extend_from_slice(&[1, 2, 3]);

    let layer = FileBaseLayer::new("held", Some(bytes.clone()), None, PID);
    assert_eq!(layer.err(), Some(Error::Locked));

    let layer = FileBaseLayer::new("held", Some(bytes), None, 77).unwrap();
    assert_eq!(layer.locked(PID), true);
    assert_eq!(layer.locked(77), false);
}

#[test]
fn test_close_erases_owner() {
    let mut layer = create("closing", Some((1, 0x1234)));
    assert_eq!(layer.append(&[5, 6, 7]), Ok(()));
    assert_eq!(owner(&on_disk(&layer)), PID);

    assert_eq!(layer.close(), Ok(()));

    let mut expected = header(1, 0x1234, 0);
    expected.extend_from_slice(&[5, 6, 7]);
    assert_eq!(on_disk(&layer), expected);
    assert_eq!(&on_disk(&layer)[8..12], &[0, 0, 0, 0]);
    assert!(!layer.is_open());
    assert_eq!(layer.locked(0), false);
    assert_eq!(layer.locked(PID), false);
    assert_eq!(layer.close(), Ok(()));
    assert_eq!(on_disk(&layer), expected);
}

#[test]
fn test_reopen_without_meta() {
    let mut layer = create("roundtrip", Some((9, 0xbeef)));
    assert_eq!(layer.append(b"data"), Ok(()));
    assert_eq!(layer.close(), Ok(()));

    let again = FileBaseLayer::new("roundtrip", Some(on_disk(&layer)), None, 5).unwrap();
    assert_eq!(again.typ(), 9);
    assert_eq!(again.flags(), 0xbeef);
    assert_eq!(again.pid(), 5);

    let mut expected = header(9, 0xbeef, 5);
    expected.extend_from_slice(b"data");
    assert_eq!(on_disk(&again), expected);
}

#[test]
fn test_closed_handle_reopens() {
    let mut layer = create("again", Some((1, 0)));
    assert_eq!(layer.append(&[1, 2]), Ok(()));
    assert_eq!(layer.close(), Ok(()));

    let mut buff: Vec<u8> = Vec::new();
    assert_eq!(layer.read_to_end(&mut buff), Ok(()));
    assert_eq!(buff, vec![1, 2]);
    assert!(layer.is_open());
    assert_eq!(owner(&on_disk(&layer)), PID);
}

#[test]
fn test_read_to_end_appends() {
    let mut layer = create("more", Some((1, 0)));
    assert_eq!(layer.append(&[1, 2]), Ok(()));

    let mut buff: Vec<u8> = vec![9];
    assert_eq!(layer.read_to_end(&mut buff), Ok(()));
    assert_eq!(buff, vec![9, 1, 2]);
}

#[test]
fn test_read_at_beyond_end() {
    let mut layer = create("beyond", Some((1, 0)));
    assert_eq!(layer.append(&[1, 2, 3, 4]), Ok(()));

    let mut buff: Vec<u8> = vec![0u8; 2];
    assert_eq!(layer.read_at(&mut buff, 2), Ok(()));
    assert_eq!(buff, vec![3, 4]);

    let mut buff: Vec<u8> = vec![7u8; 2];
    assert!(matches!(layer.read_at(&mut buff, 3), Err(Error::IOError(_))));
    assert_eq!(buff, vec![7, 7]);
    assert!(matches!(layer.read_at(&mut buff, 100), Err(Error::IOError(_))));
    assert!(matches!(layer.read_at(&mut buff, usize::MAX), Err(Error::IOError(_))));

    let mut none: Vec<u8> = vec![];
    assert_eq!(layer.read_at(&mut none, 100), Ok(()));
}

#[test]
fn test_write_at_places() {
    let mut layer = create("places", Some((1, 0)));
    let head = header(1, 0, PID);

    assert_eq!(layer.write_at(&[1, 2, 3, 4], 0), Ok(()));
    assert_eq!(layer.write_at(&[8, 9], 1), Ok(()));
    assert_eq!(&on_disk(&layer)[16..], &[1, 8, 9, 4]);

    assert_eq!(layer.write_at(&[5, 6], 3), Ok(()));
    assert_eq!(&on_disk(&layer)[16..], &[1, 8, 9, 5, 6]);

    assert_eq!(layer.write_at(&[7], 7), Ok(()));
    assert_eq!(&on_disk(&layer)[16..], &[1, 8, 9, 5, 6, 0, 0, 7]);

    assert_eq!(layer.write_at(&[], 100), Ok(()));
    assert_eq!(&on_disk(&layer)[16..], &[1, 8, 9, 5, 6, 0, 0, 7]);
    assert_eq!(&on_disk(&layer)[..16], &head[..]);

    assert!(matches!(layer.write_at(&[1], usize::MAX), Err(Error::IOError(_))));
    assert!(matches!(layer.write_at(&[1, 2], usize::MAX - 17), Err(Error::IOError(_))));
    assert_eq!(&on_disk(&layer)[16..], &[1, 8, 9, 5, 6, 0, 0, 7]);
}

#[test]
fn test_unlink_removes_file() {
    let mut layer = create("gone", Some((1, 0x1234)));
    assert_eq!(layer.append(&[1, 2, 3]), Ok(()));

    layer.unlink();
    assert!(layer.image().is_none());
    assert!(!layer.is_open());
    assert_eq!(layer.locked(0), false);

    let mut buff: Vec<u8> = Vec::new();
    assert_eq!(layer.read_to_end(&mut buff), Ok(()));
    assert_eq!(buff, vec![]);
    assert_eq!(on_disk(&layer), header(1, 0x1234, PID));
}

#[test]
fn test_migrate_from_file() {
    let mut layer = create("target", Some((1, 0)));
    assert_eq!(layer.append(&[1]), Ok(()));

    let mut other = header(3, 0x0042, 0);
    other.extend_from_slice(&[9, 9]);
    assert_eq!(layer.migrate_from_file(other), Ok(()));
    assert_eq!(layer.typ(), 3);
    assert_eq!(layer.flags(), 0x0042);

    let mut expected = header(3, 0x0042, PID);
    expected.extend_from_slice(&[9, 9]);
    assert_eq!(on_disk(&layer), expected);

    let mut held = header(1, 0, 1);
    held.extend_from_slice(&[4]);
    assert_eq!(layer.migrate_from_file(held.clone()), Err(Error::Locked));
    assert_eq!(on_disk(&layer), held);
    assert!(!layer.is_open());
    assert_eq!(layer.typ(), 3);
    assert_eq!(layer.append(&[1]), Err(Error::InvalidArgument));

    assert_eq!(layer.migrate_from_file(vec![1, 2, 3]).is_err(), true);
}

#[test]
fn test_wal_type() {
    assert_eq!(WALLayer::TYPE, 0x01);
}
