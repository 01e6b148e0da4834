use kvs::{log_file_gen, sorted_gen_list, KvStore, KvsError, Segment};

fn s(x: &str) -> String {
    x.to_string()
}

fn reopen(store: &KvStore) -> KvStore {
    KvStore::open(store.segments().clone()).unwrap()
}

#[test]
fn set_then_get() {
    let mut store = KvStore::open(vec![]).unwrap();
    store.set(s("a"), s("1")).unwrap();
    store.set(s("b"), s("2")).unwrap();
    assert_eq!(store.get(s("a")), Ok(Some(s("1"))));
    assert_eq!(store.get(s("c")), Ok(None));
}

#[test]
fn overwrite_remove_reopen() {
    let mut store = KvStore::open(vec![]).unwrap();
    store.set(s("x"), s("old")).unwrap();
    store.set(s("x"), s("new")).unwrap();
    assert_eq!(store.get(s("x")), Ok(Some(s("new"))));
    store.remove(s("x")).unwrap();
    assert_eq!(store.get(s("x")), Ok(None));
    let again = reopen(&store);
    assert_eq!(again.get(s("x")), Ok(None));
}

#[test]
fn remove_twice_fails_second_time() {
    let mut store = KvStore::open(vec![]).unwrap();
    assert_eq!(store.remove(s("k")), Err(KvsError::KeyNotFound));
    store.set(s("k"), s("v")).unwrap();
    assert_eq!(store.remove(s("k")), Ok(()));
    assert_eq!(store.remove(s("k")), Err(KvsError::KeyNotFound));
}

#[test]
fn reopen_keeps_live_map() {
    let mut store = KvStore::open(vec![]).unwrap();
    for i in 0..50 {
        store.set(format!("k{}", i), format!("v{}", i)).unwrap();
    }
    for i in 0..50 {
        if i % 3 == 0 {
            store.remove(format!("k{}", i)).unwrap();
        }
    }
    store.set(s("k1"), s("changed")).unwrap();
    let again = reopen(&store);
    for i in 0..50 {
        let expected = if i == 1 {
            Some(s("changed"))
        } else if i % 3 == 0 {
            None
        } else {
            Some(format!("v{}", i))
        };
        assert_eq!(again.get(format!("k{}", i)), Ok(expected));
    }
    assert_eq!(again.current_gen(), store.current_gen());
}

#[test]
fn compaction_leaves_two_segments() {
    let mut store = KvStore::open(vec![]).unwrap();
    let first = "a".repeat(1024);
    let second = "b".repeat(1024);
    for i in 0..1024 {
        store.set(format!("key{:04}", i), first.clone()).unwrap();
    }
    for i in 0..1024 {
        store.set(format!("key{:04}", i), format!("{}{}", second, i)).unwrap();
    }
    assert_eq!(store.segments().len(), 1);
    let before = store.current_gen();
    store.set_compaction_threshold(0);
    store.set(s("key0000"), format!("{}{}", second, 0)).unwrap();
    let gens: Vec<u64> = store.segments().iter().map(|g| g.gen).collect();
    assert_eq!(gens, vec![before + 1, before + 2]);
    assert_eq!(store.safe_point(), before + 1);
    assert!(store.segments()[1].data.is_empty());
    for i in 0..1024 {
        assert_eq!(store.get(format!("key{:04}", i)), Ok(Some(format!("{}{}", second, i))));
    }
}

#[test]
fn repeated_compactions_keep_live_map() {
    let mut store = KvStore::open(vec![]).unwrap();
    for i in 0..20 {
        store.set(format!("k{}", i), format!("v{}", i)).unwrap();
        store.set(format!("k{}", i), format!("w{}", i)).unwrap();
    }
    store.remove(s("k5")).unwrap();
    let sizes_before: usize = store.segments().iter().map(|g| g.data.len()).sum();
    store.compact();
    store.compact();
    store.compact();
    let sizes_after: usize = store.segments().iter().map(|g| g.data.len()).sum();
    assert!(sizes_after < sizes_before);
    for i in 0..20 {
        let expected = if i == 5 { None } else { Some(format!("w{}", i)) };
        assert_eq!(store.get(format!("k{}", i)), Ok(expected));
    }
    assert_eq!(store.segments().len(), 2);
    assert!(store.segments().iter().all(|g| g.gen >= store.safe_point()));
    let again = reopen(&store);
    assert_eq!(again.get(s("k7")), Ok(Some(s("w7"))));
}

#[test]
fn scan_in_key_order() {
    let mut store = KvStore::open(vec![]).unwrap();
    for i in (1..10).rev() {
        store.set(format!("k{}", i), format!("v{}", i)).unwrap();
    }
    assert_eq!(
        store.scan(s("k3"), s("k7")),
        Ok(vec![s("v3"), s("v4"), s("v5"), s("v6"), s("v7")])
    );
    assert_eq!(store.scan(s("k7"), s("k3")), Ok(vec![]));
    assert_eq!(store.scan(s("k9"), s("z")), Ok(vec![s("v9")]));
}

#[test]
fn open_empty_starts_generation_one() {
    let store = KvStore::open(vec![]).unwrap();
    assert_eq!(store.current_gen(), 1);
    assert_eq!(store.segments().len(), 1);
    assert_eq!(store.segments()[0].gen, 1);
    assert_eq!(store.safe_point(), 0);
}

#[test]
fn open_rejects_unordered_generations() {
    let segs = vec![
        Segment { gen: 3, data: vec![] },
        Segment { gen: 2, data: vec![] },
    ];
    assert!(matches!(KvStore::open(segs), Err(KvsError::StringError(_))));
    let segs = vec![
        Segment { gen: 2, data: vec![] },
        Segment { gen: 2, data: vec![] },
    ];
    assert!(KvStore::open(segs).is_err());
}

#[test]
fn open_drops_torn_tail() {
    let mut store = KvStore::open(vec![]).unwrap();
    store.set(s("a"), s("1")).unwrap();
    store.set(s("b"), s("2")).unwrap();
    let mut segs = store.segments().clone();
    let whole = segs[0].data.len();
    let torn_from = segs[0].data.clone();
    segs[0].data.extend_from_slice(&torn_from[..3]);
    let mut again = KvStore::open(segs).unwrap();
    assert_eq!(again.segments()[0].data.len(), whole);
    assert_eq!(again.get(s("a")), Ok(Some(s("1"))));
    assert_eq!(again.get(s("b")), Ok(Some(s("2"))));
    again.set(s("c"), s("3")).unwrap();
    assert_eq!(reopen(&again).get(s("c")), Ok(Some(s("3"))));
}

#[test]
fn records_are_encoded_not_copied() {
    let mut store = KvStore::open(vec![]).unwrap();
    store.set(s("key"), s("value")).unwrap();
    let data = &store.segments()[0].data;
    assert!(data.len() > "keyvalue".len());
    assert_ne!(data.as_slice(), b"keyvalue");
    let reread = KvStore::open(vec![Segment { gen: 4, data: data.clone() }]).unwrap();
    assert_eq!(reread.get(s("key")), Ok(Some(s("value"))));
    assert_eq!(reread.current_gen(), 4);
}

#[test]
fn later_segments_override_earlier() {
    let mut a = KvStore::open(vec![]).unwrap();
    a.set(s("k"), s("first")).unwrap();
    let mut b = KvStore::open(vec![]).unwrap();
    b.set(s("k"), s("second")).unwrap();
    let segs = vec![
        Segment { gen: 1, data: a.segments()[0].data.clone() },
        Segment { gen: 5, data: b.segments()[0].data.clone() },
    ];
    let store = KvStore::open(segs).unwrap();
    assert_eq!(store.get(s("k")), Ok(Some(s("second"))));
    assert_eq!(store.current_gen(), 5);
}

#[test]
fn generation_list_from_file_names() {
    let names = vec![
        s("3.log"),
        s("1.log"),
        s("x.log"),
        s("10.log"),
        s("2.txt"),
        s("1.log"),
        s("007.log"),
        s(".log"),
        s("engine"),
    ];
    assert_eq!(sorted_gen_list(&names), vec![1, 3, 7, 10]);
    assert_eq!(log_file_gen(&s("18446744073709551615.log")), Some(u64::MAX));
    assert_eq!(log_file_gen(&s("18446744073709551616.log")), None);
    assert_eq!(log_file_gen(&s("12a.log")), None);
}

#[test]
fn open_rejects_malformed_record() {
    let segs = vec![Segment { gen: 1, data: vec![2] }];
    assert_eq!(KvStore::open(segs).err(), Some(KvsError::DecodeError));
    let mut store = KvStore::open(vec![]).unwrap();
    store.set(s("a"), s("1")).unwrap();
    let mut data = store.segments()[0].data.clone();
    data.extend_from_slice(&[7, 0, 0]);
    data.extend_from_slice(&store.segments()[0].data);
    assert_eq!(
        KvStore::open(vec![Segment { gen: 1, data }]).err(),
        Some(KvsError::DecodeError)
    );
}

#[test]
fn open_survives_huge_declared_length() {
    let data = vec![0, 0xFD, 0xFF, 0xFF, 0xFF, 0xFF, 0xFF, 0xFF, 0xFF, 0xFF];
    let store = KvStore::open(vec![Segment { gen: 1, data }]).unwrap();
    assert!(store.segments()[0].data.is_empty());
    assert_eq!(store.get(s("a")), Ok(None));
}

#[test]
fn torn_tail_keeps_every_whole_record() {
    let mut store = KvStore::open(vec![]).unwrap();
    store.set(s("a"), s("1")).unwrap();
    store.set(s("b"), s("2")).unwrap();
    store.remove(s("a")).unwrap();
    let whole = store.segments()[0].data.clone();
    let mut more = KvStore::open(vec![]).unwrap();
    more.set(s("c"), s("3")).unwrap();
    let next = &more.segments()[0].data;
    for cut in 1..next.len() {
        let mut data = whole.clone();
        data.extend_from_slice(&next[..cut]);
        let reopened = KvStore::open(vec![Segment { gen: 2, data }]).unwrap();
        assert_eq!(reopened.segments()[0].data, whole);
        assert_eq!(reopened.get(s("a")), Ok(None));
        assert_eq!(reopened.get(s("b")), Ok(Some(s("2"))));
        assert_eq!(reopened.get(s("c")), Ok(None));
    }
}

#[test]
fn threshold_decides_compaction() {
    let mut store = KvStore::open(vec![]).unwrap();
    store.set_compaction_threshold(1_000_000);
    for i in 0..10 {
        store.set(s("k"), format!("v{}", i)).unwrap();
    }
    assert_eq!(store.segments().len(), 1);
    assert_eq!(store.current_gen(), 1);
    store.set_compaction_threshold(0);
    store.remove(s("k")).unwrap();
    assert_eq!(store.current_gen(), 3);
    assert_eq!(store.segments().len(), 2);
    assert!(store.segments()[0].data.is_empty());
}
