use kvs::append_log::{AppendLog, LogCommand};
use kvs::KvError;

fn append_to(log: &mut AppendLog, file: &mut Vec<u8>, cmd: LogCommand, key: &[u8], val: Option<&[u8]>) {
    let frame = log.append(cmd, key, val);
    file.extend_from_slice(&frame);
}

#[test]
fn log_load_empty_file() {
    AppendLog::load(Vec::new()).unwrap();
}

#[test]
fn log_write_and_read() {
    let mut file: Vec<u8> = Vec::new();

    {
        let mut log = AppendLog::load(Vec::new()).unwrap();
        append_to(&mut log, &mut file, LogCommand::SetVal, b"aaaa", Some(b"1111"));
        append_to(&mut log, &mut file, LogCommand::SetVal, b"bbbb", Some(b"2222"));
        append_to(&mut log, &mut file, LogCommand::SetVal, b"cccc", Some(b"3333"));
        append_to(&mut log, &mut file, LogCommand::SetVal, b"dddd", Some(b"4444"));

        assert_eq!(log.fetch_by_key(b"aaaa").unwrap().unwrap(), b"1111".to_vec());
        assert_eq!(log.fetch_by_key(b"bbbb").unwrap().unwrap(), b"2222".to_vec());
        assert_eq!(log.fetch_by_key(b"cccc").unwrap().unwrap(), b"3333".to_vec());
        assert_eq!(log.fetch_by_key(b"dddd").unwrap().unwrap(), b"4444".to_vec());

        append_to(&mut log, &mut file, LogCommand::Remove, b"aaaa", None);
        assert_eq!(log.fetch_by_key(b"aaaa").unwrap(), None);
    }

    {
        let log = AppendLog::load(file).unwrap();

        assert_eq!(log.fetch_by_key(b"aaaa").unwrap(), None);
        assert_eq!(log.fetch_by_key(b"bbbb").unwrap().unwrap(), b"2222".to_vec());
        assert_eq!(log.fetch_by_key(b"cccc").unwrap().unwrap(), b"3333".to_vec());
        assert_eq!(log.fetch_by_key(b"dddd").unwrap().unwrap(), b"4444".to_vec());
    }
}

#[test]
fn log_counts_live_and_dead() {
    let mut file: Vec<u8> = Vec::new();
    let mut log = AppendLog::load(Vec::new()).unwrap();
    assert!(log.is_empty());
    append_to(&mut log, &mut file, LogCommand::SetVal, b"a", Some(b"1"));
    append_to(&mut log, &mut file, LogCommand::SetVal, b"a", Some(b"2"));
    append_to(&mut log, &mut file, LogCommand::SetVal, b"b", Some(b"3"));
    append_to(&mut log, &mut file, LogCommand::Remove, b"b", None);
    assert_eq!(log.len(), 4);
    assert_eq!(log.index_len(), 1);
    assert!(!log.is_empty());
    assert!(log.contains(b"a"));
    assert!(!log.contains(b"b"));
    assert!(log.index_len() <= log.len());
}

#[test]
fn log_compact_keeps_live_records_only() {
    let mut file: Vec<u8> = Vec::new();
    let mut log = AppendLog::load(Vec::new()).unwrap();
    append_to(&mut log, &mut file, LogCommand::SetVal, b"a", Some(b"old"));
    append_to(&mut log, &mut file, LogCommand::SetVal, b"a", Some(b"new"));
    append_to(&mut log, &mut file, LogCommand::SetVal, b"b", Some(b"gone"));
    append_to(&mut log, &mut file, LogCommand::Remove, b"b", None);
    append_to(&mut log, &mut file, LogCommand::SetVal, b"c", Some(b"kept"));

    let new_file = log.compact();
    assert_eq!(log.len(), 2);
    assert_eq!(log.index_len(), 2);
    assert_eq!(log.fetch_by_key(b"a").unwrap().unwrap(), b"new".to_vec());
    assert_eq!(log.fetch_by_key(b"b").unwrap(), None);
    assert_eq!(log.fetch_by_key(b"c").unwrap().unwrap(), b"kept".to_vec());

    // the returned bytes are the compacted file: loading them yields the
    // same bindings
    let reloaded = AppendLog::load(new_file).unwrap();
    assert_eq!(reloaded.len(), 2);
    assert_eq!(reloaded.index_len(), 2);
    assert_eq!(reloaded.fetch_by_key(b"a").unwrap().unwrap(), b"new".to_vec());
    assert_eq!(reloaded.fetch_by_key(b"c").unwrap().unwrap(), b"kept".to_vec());
}

#[test]
fn log_rejects_garbage() {
    let e = AppendLog::load(vec![1u8, 2, 3]).unwrap_err();
    assert!(matches!(e, KvError::Corruption));
}

#[test]
fn log_rejects_torn_frame() {
    // a frame whose length prefix promises more bytes than the file holds
    let e = AppendLog::load(vec![0u8, 0, 0, 50, 1, 1]).unwrap_err();
    assert!(matches!(e, KvError::Corruption));
}

#[test]
fn log_zero_length_key_round_trips() {
    // a hand-built frame: Set, key length 0, value "xy"
    let mut file: Vec<u8> = vec![0, 0, 0, 20];
    file.push(0); // command tag: Set
    file.extend_from_slice(&[0u8; 8]); // key length 0, little endian
    file.push(1); // value present
    file.extend_from_slice(&[2, 0, 0, 0, 0, 0, 0, 0]); // value length 2
    file.extend_from_slice(b"xy");
    let log = AppendLog::load(file).unwrap();
    assert_eq!(log.fetch_by_key(b"").unwrap().unwrap(), b"xy".to_vec());
    assert_eq!(log.len(), 1);
    assert_eq!(log.index_len(), 1);
}

#[test]
fn log_value_near_two_pow_sixteen() {
    let mut file: Vec<u8> = Vec::new();
    let mut log = AppendLog::load(Vec::new()).unwrap();
    let big = vec![7u8; 65536];
    append_to(&mut log, &mut file, LogCommand::SetVal, b"big", Some(&big));
    assert_eq!(log.fetch_by_key(b"big").unwrap().unwrap(), big);
    let reloaded = AppendLog::load(file).unwrap();
    assert_eq!(reloaded.fetch_by_key(b"big").unwrap().unwrap(), big);
}

#[test]
fn log_value_near_two_pow_twentyfour() {
    let mut file: Vec<u8> = Vec::new();
    let mut log = AppendLog::load(Vec::new()).unwrap();
    let big = vec![9u8; 1 << 24];
    append_to(&mut log, &mut file, LogCommand::SetVal, b"huge", Some(&big));
    assert_eq!(log.fetch_by_key(b"huge").unwrap().unwrap(), big);
    let reloaded = AppendLog::load(file).unwrap();
    assert_eq!(reloaded.fetch_by_key(b"huge").unwrap().unwrap(), big);
}

#[test]
fn log_key_near_two_pow_sixteen_round_trips() {
    let mut file: Vec<u8> = Vec::new();
    let mut log = AppendLog::load(Vec::new()).unwrap();
    let key = vec![3u8; 65535];
    append_to(&mut log, &mut file, LogCommand::SetVal, &key, Some(b"v"));
    assert_eq!(log.fetch_by_key(&key).unwrap().unwrap(), b"v".to_vec());
    let reloaded = AppendLog::load(file).unwrap();
    assert_eq!(reloaded.fetch_by_key(&key).unwrap().unwrap(), b"v".to_vec());
}

#[test]
fn log_flush_is_complete_at_once() {
    let mut log = AppendLog::load(Vec::new()).unwrap();
    assert!(log.flush().is_ok());
}
