use key_value_store::codec::encode_record;
use key_value_store::store::load_index;
use key_value_store::store::read_at;
use key_value_store::KvError;
use key_value_store::KvStore;

fn open_empty() -> KvStore {
    KvStore::open(Vec::new()).expect("an empty log must open")
}

#[test]
fn put_get_roundtrip() {
    let mut store = open_empty();
    store.put("name", b"a value with some bytes \x00\xff");
    let got = store.get("name").expect("get must not fail");
    assert_eq!(got, Some(b"a value with some bytes \x00\xff".to_vec()));
}

#[test]
fn overwrite_returns_latest() {
    let mut store = open_empty();
    store.put("k", b"first");
    store.put("k", b"second");
    let got = store.get("k").expect("get must not fail");
    assert_eq!(got, Some(b"second".to_vec()));
}

#[test]
fn absent_key_is_not_error() {
    let mut store = open_empty();
    store.put("present", b"1");
    let got = store.get("missing").expect("absence is not an error");
    assert_eq!(got, None);
}

#[test]
fn offsets_are_contiguous() {
    let mut store = open_empty();
    let mut expected: u64 = 0;
    let entries: [(&str, &[u8]); 4] =
        [("a", b"1"), ("bc", b"22"), ("a", b"333"), ("longer-key", b"")];
    for (key, value) in entries.iter() {
        let offset = store.put(key, value);
        assert_eq!(offset, expected);
        expected += 8 + key.len() as u64 + value.len() as u64;
    }
}

#[test]
fn scenario_three_records() {
    let mut store = open_empty();
    assert_eq!(store.put("a", b"1"), 0);
    // the first record takes 8 + 1 + 1 = 10 bytes
    assert_eq!(store.put("b", b"22"), 10);
    // the second record takes 8 + 1 + 2 = 11 bytes
    assert_eq!(store.put("a", b"333"), 21);
    assert_eq!(store.get("a").unwrap(), Some(b"333".to_vec()));
    assert_eq!(store.get("b").unwrap(), Some(b"22".to_vec()));
    assert_eq!(store.get("c").unwrap(), None);
}

#[test]
fn scenario_reopen_recovers() {
    let mut store = open_empty();
    store.put("a", b"1");
    store.put("b", b"22");
    store.put("a", b"333");
    let log = store.take_pending();
    drop(store);

    let mut reopened = KvStore::open(log).expect("a whole log must reopen");
    assert_eq!(reopened.get("a").unwrap(), Some(b"333".to_vec()));
    assert_eq!(reopened.get("b").unwrap(), Some(b"22".to_vec()));
    assert_eq!(reopened.get("c").unwrap(), None);
}

#[test]
fn scenario_truncated_log_fails_to_open() {
    let mut store = open_empty();
    store.put("a", b"1");
    let mut log = store.take_pending();
    log.pop();
    match KvStore::open(log) {
        Err(KvError::UnexpectedEndOfLog) => {}
        other => panic!("a truncated log must fail to open, got {:?}", other.map(|_| ())),
    }
}

#[test]
fn durability_for_a_set_of_keys() {
    let mut store = open_empty();
    let pairs: [(&str, &[u8]); 3] = [("x", b"10"), ("y", b"20"), ("z", b"30")];
    for (key, value) in pairs.iter() {
        store.put(key, value);
    }
    store.put("y", b"21");
    let log = store.take_pending();

    let mut before: Vec<Option<Vec<u8>>> = Vec::new();
    for (key, _) in pairs.iter() {
        before.push(store.get(key).unwrap());
    }
    drop(store);

    let mut reopened = KvStore::open(log).expect("reopen must succeed");
    for ((key, _), want) in pairs.iter().zip(before) {
        assert_eq!(reopened.get(key).unwrap(), want);
    }
}

#[test]
fn on_disk_layout_is_exact() {
    // header fields are little-endian u32, then key bytes, then value bytes
    let record = encode_record(b"a", b"1");
    assert_eq!(record, vec![1, 0, 0, 0, 1, 0, 0, 0, b'a', b'1']);

    let mut store = open_empty();
    store.put("a", b"1");
    store.put("bc", b"22");
    let mut expected = vec![1u8, 0, 0, 0, 1, 0, 0, 0, b'a', b'1'];
    expected.extend_from_slice(&[2, 0, 0, 0, 2, 0, 0, 0, b'b', b'c', b'2', b'2']);
    assert_eq!(store.take_pending(), expected);
}

#[test]
fn take_pending_drains_the_buffer() {
    let mut store = open_empty();
    store.put("a", b"1");
    let first = store.take_pending();
    assert_eq!(first.len(), 10);
    assert_eq!(store.take_pending(), Vec::<u8>::new());
    store.put("b", b"2");
    assert_eq!(store.take_pending().len(), 10);
}

#[test]
fn read_at_detects_index_mismatch() {
    let log = encode_record(b"a", b"1");
    match read_at(&log, 0, "b") {
        Err(KvError::IndexIntegrityMismatch) => {}
        other => panic!("expected an integrity mismatch, got {:?}", other),
    }
}

#[test]
fn read_at_detects_truncation() {
    let mut log = encode_record(b"a", b"1");
    log.pop();
    match read_at(&log, 0, "a") {
        Err(KvError::UnexpectedEndOfLog) => {}
        other => panic!("expected an end-of-log error, got {:?}", other),
    }
    // an offset past the end of the log is just as truncated
    match read_at(&log, 1000, "a") {
        Err(KvError::UnexpectedEndOfLog) => {}
        other => panic!("expected an end-of-log error, got {:?}", other),
    }
}

#[test]
fn read_at_returns_the_value() {
    let mut log = encode_record(b"a", b"1");
    let second = encode_record(b"bc", b"22");
    let offset = log.len() as u64;
    log.extend_from_slice(&second);
    assert_eq!(read_at(&log, 0, "a").unwrap(), b"1".to_vec());
    assert_eq!(read_at(&log, offset, "bc").unwrap(), b"22".to_vec());
}

#[test]
fn load_index_is_last_write_wins() {
    let mut log = encode_record(b"k", b"old");
    let second = encode_record(b"k", b"new");
    let offset = log.len() as u64;
    log.extend_from_slice(&second);
    let index = load_index(&log).expect("a whole log must scan");
    assert_eq!(index.lookup(&String::from("k")), Some(offset));
    assert_eq!(index.lookup(&String::from("other")), None);
}

#[test]
fn load_index_rejects_partial_header() {
    let log = vec![1u8, 0, 0, 0, 1, 0];
    match load_index(&log) {
        Err(KvError::UnexpectedEndOfLog) => {}
        other => panic!("expected an end-of-log error, got {:?}", other.map(|_| ())),
    }
}

#[test]
fn empty_key_and_empty_value_are_legal() {
    let mut store = open_empty();
    assert_eq!(store.put("", b""), 0);
    assert_eq!(store.get("").unwrap(), Some(Vec::new()));
    // the record is a bare header
    assert_eq!(store.take_pending(), vec![0u8; 8]);
}

#[test]
fn index_diagnostics_list_current_bindings() {
    let mut store = open_empty();
    store.put("a", b"1");
    store.put("b", b"22");
    let third = store.put("a", b"333");
    assert_eq!(store.num_keys(), 2);
    let mut seen_a = false;
    let mut seen_b = false;
    for i in 0..store.num_keys() {
        let (key, offset) = store.entry_at(i);
        if key == "a" {
            assert_eq!(offset, third);
            seen_a = true;
        } else if key == "b" {
            assert_eq!(offset, 10);
            seen_b = true;
        } else {
            panic!("unexpected key in the index");
        }
    }
    assert!(seen_a && seen_b);
}

#[test]
fn malformed_key_bytes_index_under_replacement_text() {
    // a key byte that is not valid UTF-8 is decoded leniently, not
    // rejected: the record is served under the replacement character
    let log = encode_record(&[0xFF], b"v");
    let index = load_index(&log).expect("malformed key bytes must not fail the scan");
    assert_eq!(index.lookup(&String::from("\u{FFFD}")), Some(0));
    assert_eq!(read_at(&log, 0, "\u{FFFD}").unwrap(), b"v".to_vec());

    let mut store = KvStore::open(log).expect("malformed key bytes must not fail open");
    assert_eq!(store.get("\u{FFFD}").unwrap(), Some(b"v".to_vec()));
}

#[test]
fn keys_that_decode_alike_share_one_binding() {
    // "\u{FFFD}" stored as text and a lone 0xFF byte decode to the same
    // text, so the later record overwrites the earlier binding
    let mut log = encode_record("\u{FFFD}".as_bytes(), b"first");
    let offset = log.len() as u64;
    log.extend_from_slice(&encode_record(&[0xFF], b"second"));
    let mut store = KvStore::open(log).expect("open must succeed");
    assert_eq!(store.num_keys(), 1);
    assert_eq!(store.entry_at(0).1, offset);
    assert_eq!(store.get("\u{FFFD}").unwrap(), Some(b"second".to_vec()));
}

#[test]
fn non_ascii_keys_roundtrip() {
    let mut store = open_empty();
    store.put("clé", b"v1");
    store.put("ключ", b"v2");
    assert_eq!(store.get("clé").unwrap(), Some(b"v1".to_vec()));
    assert_eq!(store.get("ключ").unwrap(), Some(b"v2".to_vec()));
    let log = store.take_pending();
    let mut reopened = KvStore::open(log).expect("reopen must succeed");
    assert_eq!(reopened.get("ключ").unwrap(), Some(b"v2".to_vec()));
}
