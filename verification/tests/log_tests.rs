use mini_bitcask::errors::KvError;
use mini_bitcask::log::{encode_entry, Log};

#[test]
fn test_log_reopen() {
    let mut log = Log::new(Vec::new());
    log.write_entry(b"a", Some(b"val1")).unwrap();
    log.write_entry(b"b", Some(b"val2")).unwrap();
    log.write_entry(b"c", Some(b"val3")).unwrap();
    log.write_entry(b"d", Some(b"val4")).unwrap();
    log.write_entry(b"d", None).unwrap();
    log.write_entry(b"c", None).unwrap();

    let keydir = log.load_index().unwrap();
    assert_eq!(2, keydir.len());

    let log = Log::new(log.data.clone());
    let keydir = log.load_index().unwrap();
    assert_eq!(2, keydir.len());
}

#[test]
fn test_write_entry_offsets() {
    let mut log = Log::new(Vec::new());
    let (off1, len1) = log.write_entry(b"a", Some(b"val1")).unwrap();
    assert_eq!(off1, 0);
    assert_eq!(len1, 8 + 1 + 4);
    let (off2, len2) = log.write_entry(b"bb", None).unwrap();
    assert_eq!(off2, 13);
    assert_eq!(len2, 8 + 2);
    assert_eq!(log.size(), 23);
}

#[test]
fn test_read_value_exact() {
    let mut log = Log::new(Vec::new());
    let (off, len) = log.write_entry(b"key", Some(b"hello")).unwrap();
    let value_pos = off + len as u64 - 5;
    let value = log.read_value(value_pos, 5).unwrap();
    assert_eq!(value, b"hello".to_vec());
}

#[test]
fn test_read_value_short_read() {
    let log = Log::new(vec![1, 2, 3]);
    assert_eq!(log.read_value(0, 4), Err(KvError::Corruption));
    assert_eq!(log.read_value(100, 1), Err(KvError::Corruption));
    assert_eq!(log.read_value(1, 2).unwrap(), vec![2, 3]);
}

#[test]
fn test_encode_entry_exact() {
    let rec = encode_entry(b"ab", Some(b"xyz"));
    assert_eq!(rec, vec![0, 0, 0, 2, 0, 0, 0, 3, 97, 98, 120, 121, 122]);
    let tomb = encode_entry(b"k", None);
    assert_eq!(tomb, vec![0, 0, 0, 1, 255, 255, 255, 255, 107]);
}

#[test]
fn test_load_index_truncated_header() {
    let log = Log::new(vec![0, 0, 0]);
    assert_eq!(log.load_index().err(), Some(KvError::Corruption));
}

#[test]
fn test_load_index_truncated_key() {
    // declares a 4-byte key but only 2 key bytes follow
    let log = Log::new(vec![0, 0, 0, 4, 0, 0, 0, 0, 107, 107]);
    assert_eq!(log.load_index().err(), Some(KvError::Corruption));
}

#[test]
fn test_load_index_truncated_value() {
    // one-byte key, declares a 5-byte value but only 2 value bytes follow
    let mut data = vec![0, 0, 0, 1, 0, 0, 0, 5, 107];
    data.extend_from_slice(&[1, 2]);
    let log = Log::new(data);
    assert_eq!(log.load_index().err(), Some(KvError::Corruption));
}

#[test]
fn test_load_index_replay_order() {
    // a later record for the same key overrides the earlier one
    let mut log = Log::new(Vec::new());
    log.write_entry(b"k", Some(b"one")).unwrap();
    let (off, len) = log.write_entry(b"k", Some(b"two")).unwrap();
    let keydir = log.load_index().unwrap();
    assert_eq!(1, keydir.len());
    let loc = keydir.lookup(b"k").unwrap();
    assert_eq!(loc.0, off + len as u64 - 3);
    assert_eq!(loc.1, 3);
    assert_eq!(log.read_value(loc.0, loc.1).unwrap(), b"two".to_vec());
}
