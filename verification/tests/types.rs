use papyrus::{Converter, Error, Key, Packer, Pair, Value};

#[test]
fn test_pair_packer() {
    let key: Key = Key::text("key");
    let value: Value = "value".into();

    let orig: Pair = Pair::new(key.clone(), value.clone());
    let data: Vec<u8> = orig.pack();

    let (pair, rest) = Pair::unpack(&data).unwrap();

    assert_eq!(orig, pair);
    assert_eq!(rest.len(), 0);
    assert_eq!(pair.key, key);
    assert_eq!(pair.value, value);
}

#[test]
fn test_invalid_key_convert() {
    let v: Vec<u8> = vec![1, 2, 3];
    assert_eq!(Key::from_bytes(&v), Err(Error::InvalidArgument));
}

#[test]
fn test_empty_value() {
    let value: Value = Value::EMPTY;
    assert_eq!(value, Value::EMPTY);
}

#[test]
fn test_empty_value_converter() {
    let value: Value = Value::EMPTY;
    let data: Vec<u8> = value.to_bytes();

    assert_eq!(data.len(), value.cap());
    assert_eq!(Value::from_bytes(&data), Ok(Value::EMPTY));
}

#[test]
fn test_empty_value_unpack() {
    let value: Value = Value::EMPTY;
    let data: Vec<u8> = value.to_bytes();
    let rest: &[u8] = &vec![];

    assert_eq!(Value::unpack(&data), Ok((Value::EMPTY, rest)));
}

#[test]
fn test_deleted_value() {
    let mut value: Value = Value::EMPTY;
    value.delete();

    assert_eq!(value, Value::DELETED);
}

#[test]
fn test_deleted_value_converter() {
    let mut value: Value = Value::EMPTY;
    value.delete();

    let data: Vec<u8> = value.to_bytes();

    assert_eq!(data.len(), value.cap());
    assert_eq!(Value::from_bytes(&data), Ok(Value::DELETED));
}

#[test]
fn test_deleted_value_packer() {
    let mut value: Value = Value::EMPTY;
    value.delete();

    let data: Vec<u8> = value.to_bytes();
    let rest: &[u8] = &vec![];

    assert_eq!(Value::unpack(&data), Ok((Value::DELETED, rest)));
}

fn check_key(key: Key) {
    let data: Vec<u8> = key.to_bytes();
    let rest: &[u8] = &[];

    assert_eq!(data.len(), key.cap());
    assert_eq!(Key::from_bytes(&data), Ok(key.clone()));
    assert_eq!(key.pack().len(), 1 + key.cap());
    assert_eq!(Key::unpack(&key.pack()), Ok((key, rest)));
}

#[test]
fn test_key_convert_bool() {
    assert_eq!(Key::from(true), Key::BOOL(true));
    assert_eq!(Key::from(false), Key::BOOL(false));
    check_key(Key::from(true));
    check_key(Key::from(false));
}

#[test]
fn test_key_convert_int() {
    assert_eq!(Key::from(0i64), Key::INT(0));
    assert_eq!(Key::from(1), Key::INT(1));
    assert_eq!(Key::from(65535u16), Key::INT(65535));
    assert_eq!(Key::from(4294967295u32), Key::INT(4294967295));
    assert_eq!(Key::from(-7i8), Key::INT(-7));
    check_key(Key::from(0i64));
    check_key(Key::from(1i64));
    check_key(Key::from(65535i64));
    check_key(Key::from(4294967295i64));
    check_key(Key::from(-1i64));
    check_key(Key::from(i64::MIN));
    check_key(Key::from(i64::MAX));
}

#[test]
fn test_key_convert_uid() {
    assert_eq!(Key::from(7usize), Key::UID(7));
    check_key(Key::from(18446744073709551616u128));
    check_key(Key::from(36893488147419103231u128));
    check_key(Key::from(340282366920938463463374607431768211455u128));
    check_key(Key::from(0u128));
}

#[test]
fn test_key_convert_str() {
    assert_eq!(Key::text(""), Key::STR("".to_string()));
    assert_eq!(Key::text("a"), Key::STR("a".to_string()));
    assert_eq!(Key::text("aaaaaa"), Key::STR("aaaaaa".to_string()));
    check_key(Key::text(""));
    check_key(Key::text("a"));
    check_key(Key::text("aaaaaa"));
    check_key(Key::text("h\u{e9}llo \u{4e16}\u{754c}"));
}

#[test]
fn test_key_text_boundaries() {
    let short = "a".repeat(63);
    let long = "a".repeat(64);
    let longest = "a".repeat(255);

    assert_eq!(Key::text(&short), Key::STR(short.clone()));
    assert_eq!(Key::text(&long), Key::TEXT(long.clone()));
    assert_eq!(Key::text(&longest), Key::TEXT(longest.clone()));
    assert_eq!(Key::text(&short).cap(), 64);
    assert_eq!(Key::text(&long).cap(), 256);
    check_key(Key::text(&short));
    check_key(Key::text(&long));
    check_key(Key::text(&longest));

    assert_eq!(Key::try_text(&longest), Some(Key::TEXT(longest)));
    assert_eq!(Key::try_text(&"a".repeat(256)), None);
    assert_eq!(Key::try_text(&"a".repeat(1000)), None);
}

#[test]
fn test_key_capacities() {
    assert_eq!(Key::from(true).cap(), 1);
    assert_eq!(Key::from(1i64).cap(), 8);
    assert_eq!(Key::from(1u128).cap(), 16);
    assert_eq!(Key::text("x").cap(), 64);
    assert_eq!(Key::from(true).to_bytes().len(), 1);
    assert_eq!(Key::from(1i64).to_bytes().len(), 8);
    assert_eq!(Key::from(1u128).to_bytes().len(), 16);
    assert_eq!(Key::text("x").to_bytes().len(), 64);
    assert_eq!(Key::text(&"x".repeat(100)).to_bytes().len(), 256);
}

#[test]
fn test_key_bytes_are_native() {
    let int: i64 = 0x0102030405060708;
    let uid: u128 = 0x0102030405060708090a0b0c0d0e0f10;

    assert_eq!(Key::from(int).to_bytes(), int.to_ne_bytes().to_vec());
    assert_eq!(Key::from(-2i64).to_bytes(), (-2i64).to_ne_bytes().to_vec());
    assert_eq!(Key::from(uid).to_bytes(), uid.to_ne_bytes().to_vec());
    assert_eq!(Key::from_bytes(&int.to_ne_bytes()), Ok(Key::INT(int)));
    assert_eq!(Key::from_bytes(&uid.to_ne_bytes()), Ok(Key::UID(uid)));
    assert_eq!(Key::from(true).to_bytes(), vec![1]);
    assert_eq!(Key::from(false).to_bytes(), vec![0]);
    assert_eq!(Key::from_bytes(&[7]), Ok(Key::BOOL(true)));
}

#[test]
fn test_key_pack_layout() {
    let mut expected: Vec<u8> = vec![3, b'k', b'e', b'y'];
    expected.resize(65, 0);
    assert_eq!(Key::text("key").pack(), expected);

    let mut expected: Vec<u8> = vec![1];
    expected.extend_from_slice(&5i64.to_ne_bytes());
    assert_eq!(Key::from(5i64).pack(), expected);

    assert_eq!(Key::from(true).pack(), vec![0, 1]);
    assert_eq!(Key::from(1u128).pack()[0], 2);
    assert_eq!(Key::text(&"z".repeat(64)).pack()[0], 4);
    assert_eq!(Key::text(&"z".repeat(64)).pack().len(), 257);
}

#[test]
fn test_key_type_distinction() {
    let int = Key::from(1i64).pack();
    let uid = Key::from(1usize).pack();

    assert_ne!(int, uid);
    assert_eq!(int[0], 1);
    assert_eq!(uid[0], 2);
    assert_ne!(Key::from(1i64), Key::from(1usize));
}

#[test]
fn test_key_unpack_rejects() {
    assert_eq!(Key::unpack(&[]), Err(Error::InvalidArgument));
    assert_eq!(Key::unpack(&[0]), Err(Error::InvalidArgument));
    assert_eq!(Key::unpack(&[5, 0, 0]), Err(Error::InvalidArgument));
    assert_eq!(Key::unpack(&[255, 0, 0]), Err(Error::InvalidArgument));
    assert_eq!(Key::unpack(&[1, 0, 0, 0, 0, 0, 0, 0]), Err(Error::InvalidArgument));
    assert_eq!(Key::unpack(&vec![3u8; 64]), Err(Error::InvalidArgument));
    assert_eq!(Key::from_bytes(&[]), Err(Error::InvalidArgument));
    assert_eq!(Key::from_bytes(&[0u8; 2]), Err(Error::InvalidArgument));
    assert_eq!(Key::from_bytes(&[0u8; 65]), Err(Error::InvalidArgument));
}

#[test]
fn test_key_unpack_leaves_rest() {
    let mut data = Key::from(true).pack();
    data.extend_from_slice(&[9, 8, 7]);
    let rest: &[u8] = &[9, 8, 7];

    assert_eq!(Key::unpack(&data), Ok((Key::BOOL(true), rest)));
}

#[test]
fn test_key_trims_trailing_nul() {
    let mut raw = vec![0u8; 64];
    raw[0] = b'a';
    raw[2] = b'b';
    assert_eq!(Key::from_bytes(&raw), Ok(Key::STR("a\0b".to_string())));
    assert_eq!(Key::from_bytes(&[0u8; 64]), Ok(Key::STR(String::new())));
    assert_eq!(Key::from_bytes(&[0u8; 256]), Ok(Key::TEXT(String::new())));
}

#[test]
fn test_key_repairs_broken_text() {
    let mut raw = vec![0u8; 64];
    raw[0] = b'a';
    raw[1] = 0xff;
    raw[2] = b'b';
    assert_eq!(Key::from_bytes(&raw), Ok(Key::STR("a\u{fffd}b".to_string())));
}

#[test]
fn test_key_order() {
    let keys = vec![
        Key::from(false),
        Key::from(true),
        Key::from(i64::MIN),
        Key::from(-1i64),
        Key::from(0i64),
        Key::from(7i64),
        Key::from(0u128),
        Key::from(9u128),
        Key::text(""),
        Key::text("a"),
        Key::text("ab"),
        Key::text("b"),
        Key::text(&"a".repeat(64)),
        Key::text(&"b".repeat(64)),
    ];

    for i in 0..keys.len() {
        for j in 0..keys.len() {
            assert_eq!(keys[i].before(&keys[j]), i < j);
            assert_eq!(keys[i].before(&keys[j]), keys[i] < keys[j]);
            assert_eq!(keys[i].same(&keys[j]), i == j);
            assert_eq!(keys[i].same(&keys[j]), keys[i] == keys[j]);
            assert_eq!(keys[i].at_most(&keys[j]), i <= j);
        }
    }
}

#[test]
fn test_key_unpack_iter() {
    for size in [0usize, 1, 2, 16, 64, 500] {
        let mut data: Vec<u8> = vec![];
        for i in 0..size {
            data.extend(Key::from(i).pack());
        }
        let keys = Key::unpack_iter(&data);
        assert_eq!(keys.len(), size);
        for i in 0..size {
            assert_eq!(keys[i], Key::UID(i as u128));
        }
    }
}

fn check_value(text: &str) {
    let value: Value = text.into();
    assert_eq!(value, Value::RAW(text.as_bytes().to_vec()));

    let data: Vec<u8> = value.to_bytes();
    assert_eq!(data.len(), value.cap());
    assert_eq!(Value::from_bytes(&data), Ok(Value::RAW(text.as_bytes().to_vec())));

    let data: Vec<u8> = value.pack();
    let rest: &[u8] = &vec![];
    assert_eq!(Value::unpack(&data), Ok((Value::RAW(text.as_bytes().to_vec()), rest)));
}

#[test]
fn test_value_empty_text() {
    check_value("");
}

#[test]
fn test_value_single_char() {
    check_value("a");
}

#[test]
fn test_value_multi_char() {
    check_value("aaaaaaaa");
}

#[test]
fn test_value_conversions() {
    let bytes: &[u8] = &[1, 2, 3];
    assert_eq!(Value::from(bytes), Value::RAW(vec![1, 2, 3]));
    assert_eq!(Value::from("ab"), Value::RAW(vec![b'a', b'b']));
    assert_eq!(Value::from("ab".to_string()), Value::RAW(vec![b'a', b'b']));
    assert_eq!(Value::raw(bytes), Value::RAW(vec![1, 2, 3]));
    assert_eq!(Value::text("ab"), Value::RAW(vec![b'a', b'b']));
}

#[test]
fn test_value_len() {
    assert_eq!(Value::EMPTY.len(), 0);
    assert_eq!(Value::DELETED.len(), 0);
    assert_eq!(Value::from("abc").len(), 3);
    assert_eq!(Value::EMPTY.cap(), 4);
    assert_eq!(Value::from("abc").cap(), 7);
}

#[test]
fn test_value_layout() {
    assert_eq!(Value::EMPTY.to_bytes(), vec![0, 0, 0, 0]);
    assert_eq!(Value::DELETED.to_bytes(), vec![0, 0, 0, 1]);
    assert_eq!(Value::from("abc").to_bytes(), vec![3, 0, 0, 2, b'a', b'b', b'c']);
    assert_eq!(Value::from("").to_bytes(), vec![0, 0, 0, 2]);

    let long = Value::RAW(vec![7u8; 0x012345]);
    let data = long.to_bytes();
    assert_eq!(&data[0..4], &[0x45, 0x23, 0x01, 2]);
    assert_eq!(data.len(), 4 + 0x012345);
    assert_eq!(Value::from_bytes(&data), Ok(long));
}

#[test]
fn test_value_rejects() {
    assert_eq!(Value::from_bytes(&[]), Err(Error::InvalidArgument));
    assert_eq!(Value::from_bytes(&[0, 0, 0]), Err(Error::InvalidArgument));
    assert_eq!(Value::from_bytes(&[1, 0, 0, 0]), Err(Error::InvalidArgument));
    assert_eq!(Value::from_bytes(&[1, 0, 0, 1]), Err(Error::InvalidArgument));
    assert_eq!(Value::from_bytes(&[0, 0, 0, 3]), Err(Error::InvalidArgument));
    assert_eq!(Value::from_bytes(&[0, 0, 0, 255]), Err(Error::InvalidArgument));
    assert_eq!(Value::from_bytes(&[3, 0, 0, 2, b'a', b'b']), Err(Error::InvalidArgument));
    assert_eq!(Value::from_bytes(&[0, 1, 0, 2, 1, 2, 3]), Err(Error::InvalidArgument));
    assert_eq!(Value::unpack(&[3, 0, 0, 2, b'a', b'b']), Err(Error::InvalidArgument));
}

#[test]
fn test_value_unpack_leaves_rest() {
    let data: Vec<u8> = vec![2, 0, 0, 2, b'h', b'i', 0, 0, 0, 1, 9];
    let rest: &[u8] = &[0, 0, 0, 1, 9];
    assert_eq!(Value::unpack(&data), Ok((Value::RAW(vec![b'h', b'i']), rest)));

    let rest: &[u8] = &[9];
    assert_eq!(Value::unpack(&data[6..]), Ok((Value::DELETED, rest)));
    assert_eq!(Value::from_bytes(&data), Ok(Value::RAW(vec![b'h', b'i'])));
}

#[test]
fn test_value_unpack_iter() {
    for size in [0usize, 1, 2, 16, 64, 300] {
        let mut data: Vec<u8> = vec![];
        for i in 0..size {
            let raw: String = "a".repeat(i);
            let value: Value = raw.into();
            data.extend(value.pack());
        }
        let values = Value::unpack_iter(&data);
        assert_eq!(values.len(), size);
        for i in 0..size {
            assert_eq!(values[i], Value::RAW(vec![b'a'; i]));
        }
    }
}

#[test]
fn test_unpack_iter_stops_at_damage() {
    let mut data: Vec<u8> = vec![];
    data.extend(Value::from("one").pack());
    data.extend(Value::DELETED.pack());
    data.extend(Value::EMPTY.pack());
    data.extend_from_slice(&[9, 0, 0, 7, 1]);
    data.extend(Value::from("lost").pack());

    assert_eq!(
        Value::unpack_iter(&data),
        vec![Value::from("one"), Value::DELETED, Value::EMPTY]
    );
    assert_eq!(Value::unpack_iter(&[0, 0]), vec![]);
    assert_eq!(Key::unpack_iter(&[9, 9, 9]), vec![]);
}

#[test]
fn test_pair_layout() {
    let pair = Pair::new(Key::from(true), Value::from("v"));
    assert_eq!(pair.pack(), vec![0, 1, 1, 0, 0, 2, b'v']);

    let pair = Pair::new(Key::text("k"), Value::DELETED);
    let data = pair.pack();
    assert_eq!(data.len(), 1 + 64 + 4);
    assert_eq!(data[0], 3);
    assert_eq!(data[1], b'k');
    assert_eq!(&data[65..], &[0, 0, 0, 1]);
}

#[test]
fn test_pair_unpack_rejects() {
    assert_eq!(Pair::unpack(&[]), Err(Error::InvalidArgument));
    assert_eq!(Pair::unpack(&[0, 1]), Err(Error::InvalidArgument));
    assert_eq!(Pair::unpack(&[0, 1, 0, 0, 0, 7]), Err(Error::InvalidArgument));
    assert_eq!(Pair::unpack(&[9, 1, 0, 0, 0, 0]), Err(Error::InvalidArgument));
}

#[test]
fn test_pair_unpack_iter() {
    let pairs = vec![
        Pair::new(Key::text("a"), Value::from("1")),
        Pair::new(Key::from(2i64), Value::EMPTY),
        Pair::new(Key::text("a"), Value::DELETED),
        Pair::new(Key::from(3u128), Value::from("three")),
    ];
    let mut data: Vec<u8> = vec![];
    for pair in &pairs {
        data.extend(pair.pack());
    }

    assert_eq!(Pair::unpack_iter(&data), pairs);

    data.extend_from_slice(&[3, b'x']);
    assert_eq!(Pair::unpack_iter(&data), pairs);
}

#[test]
fn test_errors_differ() {
    assert_ne!(Error::InvalidArgument, Error::Locked);
    assert_ne!(Error::InvalidArgument, Error::NotImplemented);
    assert_eq!(Error::IOError("x".to_string()), Error::IOError("x".to_string()));
    assert_ne!(Error::IOError("x".to_string()), Error::IOError("y".to_string()));
}
