use papyrus::layers::file::header::header;
use papyrus::layers::file::wal::file_path;
use papyrus::layers::registry::{get_file_layer, layer_path, scheme, Scheme};
use papyrus::layers::sorting::sort_records;
use papyrus::{get_layer, AnyLayer, Error, Key, Layer, Location, MemLayer, Packer, Pair, Value, WALLayer};

const PID: u32 = 4242;

fn mem() -> AnyLayer {
    get_layer("mem://", None, PID).unwrap()
}

fn wal(url: &str) -> AnyLayer {
    get_layer(url, None, PID).unwrap()
}

fn on_disk(layer: &AnyLayer) -> Option<Vec<u8>> {
    match layer {
        AnyLayer::Wal(wal) => wal.image().map(|bytes| bytes.to_vec()),
        AnyLayer::Mem(_) => None,
    }
}

fn keys_of(items: &[(Key, Value)]) -> Vec<Key> {
    items.iter().map(|(key, _)| key.clone()).collect()
}

fn both() -> Vec<AnyLayer> {
    vec![mem(), wal("wal://both")]
}

#[test]
fn test_get_layer_from_mem() {
    assert_eq!(get_layer("mem://", None, PID).is_some(), true);
    assert!(matches!(get_layer("mem://", None, PID), Some(AnyLayer::Mem(_))));
    assert!(matches!(get_layer("mem://host/path", Some(vec![1]), 0), Some(AnyLayer::Mem(_))));
}

#[test]
fn test_get_layer_from_wal() {
    assert!(matches!(get_layer("wal://test_wal", None, PID), Some(AnyLayer::Wal(_))));
    assert!(matches!(get_layer("wal:///tmp/x", None, PID), Some(AnyLayer::Wal(_))));
}

#[test]
fn test_get_layer_unknown() {
    assert!(get_layer("btree://x", None, PID).is_none());
    assert!(get_layer("http://example.com/", None, PID).is_none());
    assert!(get_layer("not an address", None, PID).is_none());
    assert!(get_layer("", None, PID).is_none());
    assert!(get_layer("MEMORY://", None, PID).is_none());
}

#[test]
fn test_layer_path() {
    assert_eq!(layer_path("wal://bench_wal"), Some("bench_wal".to_string()));
    assert_eq!(layer_path("wal:///tmp/x"), Some("/tmp/x".to_string()));
    assert_eq!(layer_path("wal://host/dir/file"), Some("host/dir/file".to_string()));
    assert_eq!(layer_path("mem://"), None);
    assert_eq!(layer_path("ftp://host/file"), None);
    assert_eq!(layer_path("no address"), None);
}

#[test]
fn test_scheme_of_text() {
    assert!(matches!(scheme(&"mem".to_string()), Some(Scheme::Mem)));
    assert!(matches!(scheme(&"wal".to_string()), Some(Scheme::Wal)));
    assert!(scheme(&"".to_string()).is_none());
    assert!(scheme(&"wall".to_string()).is_none());
    assert!(scheme(&"me".to_string()).is_none());
}

#[test]
fn test_open_at_location() {
    let location = Location {
        scheme: "wal".to_string(),
        domain: Some("dir".to_string()),
        path: "/file".to_string(),
    };
    assert_eq!(file_path(&location), "dir/file");
    match AnyLayer::open(&location, None, PID) {
        Ok(AnyLayer::Wal(layer)) => {
            assert_eq!(layer.path(), "dir/file");
            assert_eq!(layer.image().unwrap(), &header(1, 0, PID)[..]);
        }
        _ => panic!("no log"),
    }

    let location = Location { scheme: "mem".to_string(), domain: None, path: String::new() };
    assert_eq!(file_path(&location), "");
    assert!(matches!(AnyLayer::open(&location, None, PID), Ok(AnyLayer::Mem(_))));

    let location = Location { scheme: "zip".to_string(), domain: None, path: String::new() };
    assert!(matches!(AnyLayer::open(&location, None, PID), Err(Error::InvalidArgument)));
}

#[test]
fn test_mem_put_get_del() {
    let mut layer = mem();

    assert_eq!(layer.put(&Key::text("k"), Value::from("v")), None);
    assert_eq!(layer.get(&Key::text("k")), Some(Value::RAW("v".as_bytes().to_vec())));
    layer.del(&Key::text("k"));
    assert_eq!(layer.get(&Key::text("k")), Some(Value::DELETED));
}

#[test]
fn test_mem_put_returns_prior() {
    let mut layer = mem();
    let key = Key::text("k");

    assert_eq!(layer.put(&key, Value::from("1")), None);
    assert_eq!(layer.put(&key, Value::from("2")), Some(Value::from("1")));
    assert_eq!(layer.put(&key, Value::EMPTY), Some(Value::from("2")));
    assert_eq!(layer.get(&key), Some(Value::EMPTY));
    layer.del(&key);
    assert_eq!(layer.put(&key, Value::from("3")), None);
    assert_eq!(layer.get(&key), Some(Value::from("3")));
}

#[test]
fn test_mem_del_unseen_key() {
    let mut layer = mem();

    layer.del(&Key::text("never"));
    assert_eq!(layer.get(&Key::text("never")), None);
    assert_eq!(layer.iter().len(), 0);
}

#[test]
fn test_mem_forward_iteration() {
    let mut layer = mem();
    for i in 0..5usize {
        layer.put(&Key::from(i), Value::from(format!("value {}", i)));
    }

    let items = layer.forward(Some(&Key::from(2usize)));
    assert_eq!(keys_of(&items), vec![Key::from(2usize), Key::from(3usize), Key::from(4usize)]);
    assert_eq!(items[0].1, Value::from("value 2"));
    assert_eq!(items[2].1, Value::from("value 4"));
}

#[test]
fn test_mem_orders() {
    let mut layer = mem();
    for i in [3usize, 0, 4, 1, 2] {
        layer.put(&Key::from(i), Value::from(format!("value {}", i)));
    }
    layer.del(&Key::from(1usize));
    let all: Vec<Key> = (0..5usize).map(Key::from).collect();
    let mut down = all.clone();
    down.reverse();

    let items = layer.iter();
    assert_eq!(keys_of(&items), down);
    assert_eq!(items[3], (Key::from(1usize), Value::DELETED));
    assert_eq!(items[0], (Key::from(4usize), Value::from("value 4")));

    assert_eq!(keys_of(&layer.forward(None)), all);
    assert_eq!(keys_of(&layer.backward(None)), down);
    assert_eq!(keys_of(&layer.backward(Some(&Key::from(2usize)))), down[2..].to_vec());
    assert_eq!(keys_of(&layer.forward(Some(&Key::from(5usize)))), vec![]);
    assert_eq!(keys_of(&layer.backward(Some(&Key::from(-1i64)))), vec![]);
    assert_eq!(keys_of(&layer.forward(Some(&Key::from(true)))), all);
    assert_eq!(keys_of(&layer.backward(Some(&Key::text("z")))), down);
}

#[test]
fn test_mem_compact() {
    let mut layer = mem();
    let key = Key::text("key");
    let other = Key::text("other");

    layer.put(&key, Value::from("value"));
    layer.put(&other, Value::DELETED);
    layer.compact();
    assert_eq!(layer.get(&key), Some(Value::from("value")));
    assert_eq!(layer.get(&other), Some(Value::DELETED));

    layer.del(&key);
    assert_eq!(layer.get(&key), Some(Value::DELETED));
    layer.compact();

    assert_eq!(layer.get(&key), None);
    assert_eq!(layer.iter(), vec![(other, Value::DELETED)]);
}

#[test]
fn test_mem_unlink() {
    let mut layer = mem();
    let key = Key::text("key");

    layer.put(&key, Value::from("value"));
    layer.unlink();

    assert_eq!(layer.get(&key), None);
    assert_eq!(layer.iter().len(), 0);
    assert_eq!(layer.put(&key, Value::from("again")), None);
    assert_eq!(layer.get(&key), Some(Value::from("again")));
}

#[test]
fn test_mem_layer_direct() {
    let mut layer = MemLayer::new();
    assert_eq!(layer.get(&Key::from(1i64)), None);
    assert_eq!(layer.put(&Key::from(1i64), Value::EMPTY), None);
    assert_eq!(layer.get(&Key::from(1i64)), Some(Value::EMPTY));
    assert_eq!(layer.get(&Key::from(1usize)), None);
}

#[test]
fn test_wal_replay() {
    let mut layer = wal("wal://test_wal");
    let key = Key::text("a");

    assert_eq!(layer.put(&key, Value::from("1")), None);
    assert_eq!(layer.put(&key, Value::from("2")), None);
    layer.del(&key);

    assert_eq!(
        layer.iter(),
        vec![
            (key.clone(), Value::RAW(vec![b'1'])),
            (key.clone(), Value::RAW(vec![b'2'])),
            (key.clone(), Value::DELETED),
        ]
    );
    assert_eq!(layer.get(&key), Some(Value::DELETED));

    layer.unlink();
    assert_eq!(on_disk(&layer), None);
}

#[test]
fn test_wal_persistence() {
    let mut layer = wal("wal://t1");
    layer.put(&Key::text("k"), Value::from("v"));
    let stored = on_disk(&layer).unwrap();
    drop(layer);

    let mut layer = get_layer("wal://t1", Some(stored), PID).unwrap();
    assert_eq!(layer.get(&Key::text("k")), Some(Value::RAW(vec![b'v'])));
    layer.unlink();
}

#[test]
fn test_wal_file_format() {
    let mut layer = wal("wal://format");
    layer.put(&Key::from(true), Value::from("v"));
    layer.del(&Key::from(false));

    let mut expected = header(1, 0, PID);
    expected.extend_from_slice(&[0, 1, 1, 0, 0, 2, b'v']);
    expected.extend_from_slice(&[0, 0, 0, 0, 0, 1]);
    assert_eq!(on_disk(&layer), Some(expected));
}

#[test]
fn test_wal_header_verification() {
    let layer = wal("wal://t2");
    let stored = on_disk(&layer).unwrap();
    assert_eq!(stored, header(1, 0, PID));

    let mut damaged = stored.clone();
    damaged[15] ^= 0xff;
    assert!(get_layer("wal://t2", Some(damaged), PID).is_none());

    let mut damaged = stored.clone();
    damaged[0] ^= 0xff;
    assert!(get_layer("wal://t2", Some(damaged), PID).is_none());

    assert!(get_layer("wal://t2", Some(header(2, 0, 0)), PID).is_none());
    assert!(get_layer("wal://t2", Some(header(1, 1, 0)), PID).is_none());
    assert!(get_layer("wal://t2", Some(vec![]), PID).is_none());
    assert!(get_layer("wal://t2", Some(stored.clone()), PID + 1).is_none());
    assert!(get_layer("wal://t2", Some(stored), PID).is_some());
}

#[test]
fn test_wal_put_returns_none() {
    let mut layer = wal("wal://none");
    let key = Key::text("k");

    assert_eq!(layer.put(&key, Value::from("1")), None);
    assert_eq!(layer.put(&key, Value::from("2")), None);
    assert_eq!(layer.get(&key), Some(Value::from("2")));
    assert_eq!(layer.get(&Key::text("other")), None);
}

#[test]
fn test_wal_torn_tail() {
    let mut stored = header(1, 0, 0);
    stored.extend(Pair::new(Key::text("a"), Value::from("1")).pack());
    stored.extend(Pair::new(Key::text("b"), Value::from("2")).pack());
    let whole = Pair::new(Key::text("a"), Value::from("3")).pack();
    stored.extend_from_slice(&whole[..whole.len() - 1]);

    let mut layer = get_layer("wal://torn", Some(stored), PID).unwrap();
    assert_eq!(
        layer.iter(),
        vec![(Key::text("a"), Value::from("1")), (Key::text("b"), Value::from("2"))]
    );
    assert_eq!(layer.get(&Key::text("a")), Some(Value::from("1")));
}

#[test]
fn test_wal_sorted_iteration() {
    let mut layer = wal("wal://sorted");
    for (key, value) in [(3i64, "c1"), (1, "a1"), (2, "b1"), (1, "a2"), (3, "c2")] {
        layer.put(&Key::from(key), Value::from(value));
    }
    layer.del(&Key::from(2i64));

    let up = layer.forward(None);
    assert_eq!(
        up,
        vec![
            (Key::from(1i64), Value::from("a1")),
            (Key::from(1i64), Value::from("a2")),
            (Key::from(2i64), Value::from("b1")),
            (Key::from(2i64), Value::DELETED),
            (Key::from(3i64), Value::from("c1")),
            (Key::from(3i64), Value::from("c2")),
        ]
    );

    let down = layer.backward(None);
    assert_eq!(
        down,
        vec![
            (Key::from(3i64), Value::from("c1")),
            (Key::from(3i64), Value::from("c2")),
            (Key::from(2i64), Value::from("b1")),
            (Key::from(2i64), Value::DELETED),
            (Key::from(1i64), Value::from("a1")),
            (Key::from(1i64), Value::from("a2")),
        ]
    );

    assert_eq!(layer.forward(Some(&Key::from(2i64))), up[2..].to_vec());
    assert_eq!(layer.backward(Some(&Key::from(2i64))), down[2..].to_vec());
    assert_eq!(layer.forward(Some(&Key::from(4i64))), vec![]);
    assert_eq!(layer.iter().len(), 6);
}

#[test]
fn test_wal_unlink_and_compact() {
    let mut layer = wal("wal://gone");
    let key = Key::text("key");

    layer.put(&key, Value::from("value"));
    layer.compact();
    assert_eq!(layer.get(&key), Some(Value::from("value")));
    assert_eq!(layer.iter().len(), 1);

    layer.unlink();
    assert_eq!(on_disk(&layer), None);
    assert_eq!(layer.get(&key), None);
    assert_eq!(on_disk(&layer), Some(header(1, 0, PID)));
    assert_eq!(layer.put(&key, Value::from("again")), None);
    assert_eq!(layer.get(&key), Some(Value::from("again")));
}

#[test]
fn test_wal_layer_direct() {
    let location = Location { scheme: "wal".to_string(), domain: None, path: "/x".to_string() };
    let mut layer = WALLayer::open(&location, None, 9).unwrap();
    assert_eq!(layer.path(), "/x");
    assert_eq!(layer.get(&Key::from(1i64)), None);
    layer.put(&Key::from(1i64), Value::EMPTY);
    assert_eq!(layer.get(&Key::from(1i64)), Some(Value::EMPTY));

    let held = layer.image().unwrap().to_vec();
    assert_eq!(WALLayer::open(&location, Some(held), 10).err(), Some(Error::Locked));
    assert!(matches!(WALLayer::open(&location, Some(vec![1]), 9).err(), Some(Error::IOError(_))));
    assert_eq!(
        WALLayer::open(&location, Some(header(2, 0, 0)), 9).err(),
        Some(Error::InvalidArgument)
    );
}

#[test]
fn test_layer_get_empty() {
    for mut layer in both() {
        assert_eq!(layer.get(&Key::text("key")), None);
    }
}

#[test]
fn test_layer_put_and_get() {
    for mut layer in both() {
        let key = Key::text("key");
        let value = Value::from("value");

        layer.put(&key, value.clone());
        assert_eq!(layer.get(&key), Some(value));
    }
}

#[test]
fn test_layer_put_and_del() {
    for mut layer in both() {
        let key = Key::text("key");

        layer.put(&key, Value::from("value"));
        layer.del(&key);
        assert_eq!(layer.get(&key), Some(Value::DELETED));
    }
}

#[test]
fn test_layer_iter_counts() {
    for size in [0usize, 1, 2, 3, 16, 64, 256] {
        for mut layer in both() {
            let mut base: Option<Key> = None;
            for index in 0..size {
                let key = Key::from(index);
                let value = Value::from(format!("value {}", index));

                layer.put(&key, value.clone());
                assert_eq!(layer.get(&key), Some(value));
                if index == size / 2 {
                    base = Some(key);
                }
            }
            assert_eq!(layer.iter().len(), size);

            let up = layer.forward(base.as_ref());
            assert_eq!(up.len(), size - size / 2);
            assert!(up.windows(2).all(|w| w[0].0 < w[1].0));

            let shift: usize = match size {
                0 => 0,
                _ => 1 - size % 2,
            };
            let down = layer.backward(base.as_ref());
            assert_eq!(down.len(), size - size / 2 + shift);
            assert!(down.windows(2).all(|w| w[0].0 > w[1].0));
        }
    }
}

#[test]
fn test_layer_iter_with_del() {
    for mut layer in [mem()] {
        for index in 0..64usize {
            let key = Key::from(index);
            layer.put(&key, Value::from(format!("value {}", index)));
            layer.del(&key);
            assert_eq!(layer.get(&key), Some(Value::DELETED));
        }
        assert_eq!(layer.iter().len(), 64);
    }
}

#[test]
fn test_sort_records() {
    let items = vec![
        (Key::text("b"), Value::from("1")),
        (Key::text("a"), Value::from("2")),
        (Key::text("b"), Value::from("3")),
        (Key::from(7i64), Value::from("4")),
        (Key::text("a"), Value::from("5")),
    ];
    let up = sort_records(items.clone(), true);
    assert_eq!(
        up,
        vec![items[3].clone(), items[1].clone(), items[4].clone(), items[0].clone(), items[2].clone()]
    );
    let down = sort_records(items.clone(), false);
    assert_eq!(
        down,
        vec![items[0].clone(), items[2].clone(), items[1].clone(), items[4].clone(), items[3].clone()]
    );
    assert_eq!(sort_records(vec![], true), vec![]);
}

#[test]
fn test_get_file_layer() {
    let location = Location { scheme: "wal".to_string(), domain: None, path: "f".to_string() };
    assert!(matches!(get_file_layer(&location, None, PID), Some(AnyLayer::Wal(_))));
    assert!(get_file_layer(&location, Some(vec![0u8; 16]), PID).is_none());

    let location = Location { scheme: "mem".to_string(), domain: None, path: "f".to_string() };
    assert!(get_file_layer(&location, None, PID).is_none());
}

#[test]
fn test_mem_many_keys() {
    let size = 4096usize;
    let mut layer = mem();
    for index in (0..size).rev() {
        layer.put(&Key::from(index), Value::from(format!("value {}", index)));
    }
    for index in 0..size {
        assert_eq!(layer.get(&Key::from(index)), Some(Value::from(format!("value {}", index))));
    }
    assert_eq!(layer.iter().len(), size);
    assert_eq!(layer.forward(Some(&Key::from(size / 2))).len(), size - size / 2);
    assert_eq!(layer.backward(Some(&Key::from(size / 2))).len(), size / 2 + 1);
}

#[test]
fn test_wal_many_records() {
    let size = 4096usize;
    let mut layer = wal("wal://many");
    for index in (0..size).rev() {
        layer.put(&Key::from(index), Value::from(format!("value {}", index)));
    }
    assert_eq!(layer.get(&Key::from(7usize)), Some(Value::from("value 7")));
    assert_eq!(layer.iter().len(), size);

    let up = layer.forward(None);
    assert_eq!(up.len(), size);
    assert!(up.windows(2).all(|w| w[0].0 < w[1].0));
    assert_eq!(up[0], (Key::from(0usize), Value::from("value 0")));

    let down = layer.backward(Some(&Key::from(size / 2)));
    assert_eq!(down.len(), size / 2 + 1);
    assert!(down.windows(2).all(|w| w[0].0 > w[1].0));
}
