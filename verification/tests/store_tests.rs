use kvs::{FileUpdate, KvError, KvStore};

// A one-file directory: the current generation and its file's contents.
// Mirrors what a caller does on disk with each `FileUpdate`.
fn apply(state: &mut (u64, Vec<u8>), update: FileUpdate) {
    match update {
        FileUpdate::Append(bytes) => state.1.extend_from_slice(&bytes),
        FileUpdate::Replace { old_generation, new_generation, contents } => {
            assert_eq!(old_generation, state.0);
            assert_eq!(new_generation, old_generation + 1);
            state.0 = new_generation;
            state.1 = contents;
        },
    }
}

fn fresh() -> (KvStore, (u64, Vec<u8>)) {
    (KvStore::open(0, Vec::new()).unwrap(), (0, Vec::new()))
}

fn reopen(state: &(u64, Vec<u8>)) -> KvStore {
    KvStore::open(state.0, state.1.clone()).unwrap()
}

fn set(store: &mut KvStore, state: &mut (u64, Vec<u8>), key: &str, val: &str) {
    let update = store.set(key.to_string(), val.to_string()).unwrap();
    apply(state, update);
}

#[test]
fn empty_init_get_none() {
    let (store, _state) = fresh();
    assert_eq!(store.get("a".to_string()).unwrap(), None);
    assert_eq!(store.log().len(), 0);
    assert!(store.log().is_empty());
}

#[test]
fn four_keys_remove_one_reopen() {
    let (mut store, mut state) = fresh();
    set(&mut store, &mut state, "aaaa", "1111");
    set(&mut store, &mut state, "bbbb", "2222");
    set(&mut store, &mut state, "cccc", "3333");
    set(&mut store, &mut state, "dddd", "4444");

    assert_eq!(store.get("aaaa".to_string()).unwrap(), Some("1111".to_string()));
    assert_eq!(store.get("bbbb".to_string()).unwrap(), Some("2222".to_string()));
    assert_eq!(store.get("cccc".to_string()).unwrap(), Some("3333".to_string()));
    assert_eq!(store.get("dddd".to_string()).unwrap(), Some("4444".to_string()));

    let update = store.remove("aaaa".to_string()).unwrap();
    apply(&mut state, update);
    assert_eq!(store.get("aaaa".to_string()).unwrap(), None);

    let store = reopen(&state);
    assert_eq!(store.get("aaaa".to_string()).unwrap(), None);
    assert_eq!(store.get("bbbb".to_string()).unwrap(), Some("2222".to_string()));
    assert_eq!(store.get("cccc".to_string()).unwrap(), Some("3333".to_string()));
    assert_eq!(store.get("dddd".to_string()).unwrap(), Some("4444".to_string()));
}

#[test]
fn eleventh_overwrite_triggers_compaction() {
    let (mut store, mut state) = fresh();
    for i in 1..=10u32 {
        let update = store.set("k".to_string(), format!("v{}", i)).unwrap();
        assert!(matches!(update, FileUpdate::Append(_)));
        apply(&mut state, update);
    }
    assert_eq!(store.log().len(), 10);
    assert_eq!(store.log().index_len(), 1);

    let update = store.set("k".to_string(), "v11".to_string()).unwrap();
    assert!(matches!(update, FileUpdate::Replace { .. }));
    apply(&mut state, update);

    assert_eq!(store.generation(), 1);
    assert_eq!(state.0, 1);
    assert_eq!(store.log().len(), 1);
    assert_eq!(store.log().index_len(), 1);
    assert_eq!(store.get("k".to_string()).unwrap(), Some("v11".to_string()));

    // the directory still holds exactly one file, now of the next generation
    let store = reopen(&state);
    assert_eq!(store.get("k".to_string()).unwrap(), Some("v11".to_string()));
}

#[test]
fn set_remove_set_again() {
    let (mut store, mut state) = fresh();
    set(&mut store, &mut state, "a", "1");
    let update = store.remove("a".to_string()).unwrap();
    apply(&mut state, update);
    set(&mut store, &mut state, "a", "2");
    assert_eq!(store.get("a".to_string()).unwrap(), Some("2".to_string()));
}

#[test]
fn remove_missing_key() {
    let (mut store, _state) = fresh();
    let e = store.remove("missing".to_string()).unwrap_err();
    assert!(matches!(e, KvError::KeyNotFound(_)));
    match e {
        KvError::KeyNotFound(err) => assert_eq!(err.key, "missing".to_string()),
        _ => unreachable!(),
    }
}

#[test]
fn hundred_keys_survive_reopen() {
    let (mut store, mut state) = fresh();
    for i in 0..100u32 {
        set(&mut store, &mut state, &format!("key{}", i), &format!("val{}", i));
    }
    let store = reopen(&state);
    for i in 0..100u32 {
        assert_eq!(
            store.get(format!("key{}", i)).unwrap(),
            Some(format!("val{}", i))
        );
    }
}

#[test]
fn get_leaves_the_store_alone() {
    let (mut store, mut state) = fresh();
    set(&mut store, &mut state, "k", "v");
    let len_before = store.log().len();
    let index_before = store.log().index_len();
    assert_eq!(store.get("k".to_string()).unwrap(), Some("v".to_string()));
    assert_eq!(store.get("k".to_string()).unwrap(), Some("v".to_string()));
    assert_eq!(store.log().len(), len_before);
    assert_eq!(store.log().index_len(), index_before);
}

#[test]
fn index_never_larger_than_log() {
    let (mut store, mut state) = fresh();
    set(&mut store, &mut state, "a", "1");
    set(&mut store, &mut state, "a", "2");
    set(&mut store, &mut state, "b", "3");
    let update = store.remove("b".to_string()).unwrap();
    apply(&mut state, update);
    assert!(store.log().index_len() <= store.log().len());

    let update = store.compact_log().unwrap();
    assert!(matches!(update, FileUpdate::Replace { .. }));
    apply(&mut state, update);
    assert_eq!(store.log().index_len(), store.log().len());
    assert_eq!(store.generation(), 1);
    assert_eq!(store.get("a".to_string()).unwrap(), Some("2".to_string()));
    assert_eq!(store.get("b".to_string()).unwrap(), None);
}

#[test]
fn reopen_after_compaction_preserves_bindings() {
    let (mut store, mut state) = fresh();
    set(&mut store, &mut state, "x", "one");
    set(&mut store, &mut state, "y", "two");
    let update = store.compact_log().unwrap();
    apply(&mut state, update);
    let store = reopen(&state);
    assert_eq!(store.generation(), 1);
    assert_eq!(store.get("x".to_string()).unwrap(), Some("one".to_string()));
    assert_eq!(store.get("y".to_string()).unwrap(), Some("two".to_string()));
}

#[test]
fn empty_value_round_trips() {
    let (mut store, mut state) = fresh();
    set(&mut store, &mut state, "k", "");
    assert_eq!(store.get("k".to_string()).unwrap(), Some("".to_string()));
}

#[test]
fn unicode_keys_and_values_round_trip() {
    let (mut store, mut state) = fresh();
    set(&mut store, &mut state, "clé", "välüe ✓");
    assert_eq!(
        store.get("clé".to_string()).unwrap(),
        Some("välüe ✓".to_string())
    );
    let store = reopen(&state);
    assert_eq!(
        store.get("clé".to_string()).unwrap(),
        Some("välüe ✓".to_string())
    );
}

#[test]
fn invalid_utf8_value_is_an_encoding_error() {
    // a hand-built log: one Set frame binding key "k" to the byte 0xff
    let mut file: Vec<u8> = vec![0, 0, 0, 20];
    file.push(0); // command tag: Set
    file.extend_from_slice(&[1, 0, 0, 0, 0, 0, 0, 0]); // key length 1
    file.push(b'k');
    file.push(1); // value present
    file.extend_from_slice(&[1, 0, 0, 0, 0, 0, 0, 0]); // value length 1
    file.push(0xff);
    let store = KvStore::open(0, file).unwrap();
    let e = store.get("k".to_string()).unwrap_err();
    assert!(matches!(e, KvError::Encoding));
}

#[test]
fn corrupt_file_is_rejected_on_open() {
    let e = KvStore::open(0, vec![9u8, 9, 9]).unwrap_err();
    assert!(matches!(e, KvError::Corruption));
}

#[test]
fn locate_picks_largest_generation() {
    let names: Vec<Vec<u8>> = vec![
        b"kv_store.log".to_vec(),
        b"kv_store.log.0".to_vec(),
        b"kv_store.log.7".to_vec(),
        b"kv_store.log.3".to_vec(),
        b"notes.txt".to_vec(),
    ];
    assert_eq!(KvStore::locate_kv_file(&names), Some(7));
}

#[test]
fn locate_ignores_non_matching_names() {
    assert_eq!(KvStore::locate_kv_file(&Vec::new()), None);
    let names: Vec<Vec<u8>> = vec![
        b"kv_store.log".to_vec(),
        b"kv_store.log.01".to_vec(),
        b"kv_store.log.x".to_vec(),
        b"other.log.5".to_vec(),
    ];
    assert_eq!(KvStore::locate_kv_file(&names), None);
}

#[test]
fn locate_accepts_generation_zero() {
    let names: Vec<Vec<u8>> = vec![b"kv_store.log.0".to_vec()];
    assert_eq!(KvStore::locate_kv_file(&names), Some(0));
}

#[test]
fn file_names_round_trip() {
    assert_eq!(kvs::naming::log_file_name(0), b"kv_store.log.0".to_vec());
    assert_eq!(kvs::naming::log_file_name(13), b"kv_store.log.13".to_vec());
    let name = kvs::naming::log_file_name(123456789);
    assert_eq!(kvs::naming::parse_log_name(&name), Some(123456789));
    assert_eq!(kvs::naming::parse_log_name(&b"kv_store.log.18446744073709551615".to_vec()), Some(u64::MAX));
    assert_eq!(kvs::naming::parse_log_name(&b"kv_store.log.18446744073709551616".to_vec()), None);
}
