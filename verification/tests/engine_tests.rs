use mini_bitcask::engine::MiniBitcask;
use mini_bitcask::errors::KvError;

fn open_empty() -> MiniBitcask {
    MiniBitcask::new(Vec::new()).unwrap()
}

#[test]
fn test_set_get_round_trip() {
    let mut e = open_empty();
    e.set(b"k", b"v".to_vec()).unwrap();
    assert_eq!(e.get(b"k").unwrap(), Some(b"v".to_vec()));
    e.set(b"other", b"payload".to_vec()).unwrap();
    assert_eq!(e.get(b"other").unwrap(), Some(b"payload".to_vec()));
    assert_eq!(e.get(b"k").unwrap(), Some(b"v".to_vec()));
}

#[test]
fn test_get_absent() {
    let e = open_empty();
    assert_eq!(e.get(b"nothing").unwrap(), None);
}

#[test]
fn test_delete_then_miss() {
    let mut e = open_empty();
    e.set(b"k", b"v".to_vec()).unwrap();
    e.delete(b"k").unwrap();
    assert_eq!(e.get(b"k").unwrap(), None);
}

#[test]
fn test_idempotent_delete() {
    let mut e = open_empty();
    assert_eq!(e.delete(b"never"), Ok(()));
    assert_eq!(e.get(b"never").unwrap(), None);
    // the tombstone was still appended
    assert_eq!(e.log.size(), 8 + 5);
}

#[test]
fn test_overwrite_visibility() {
    let mut e = open_empty();
    e.set(b"k", b"v1".to_vec()).unwrap();
    let size_one = e.log.size();
    e.set(b"k", b"v2".to_vec()).unwrap();
    assert_eq!(e.get(b"k").unwrap(), Some(b"v2".to_vec()));
    // the log retains both records until a merge
    assert_eq!(e.log.size(), 2 * size_one);
    e.merge().unwrap();
    assert_eq!(e.log.size(), size_one);
    assert_eq!(e.get(b"k").unwrap(), Some(b"v2".to_vec()));
}

#[test]
fn test_reopen_persistence() {
    let mut e = open_empty();
    e.set(b"a", b"val1".to_vec()).unwrap();
    e.set(b"b", b"val2".to_vec()).unwrap();
    e.set(b"c", b"val3".to_vec()).unwrap();
    e.set(b"d", b"val4".to_vec()).unwrap();
    e.delete(b"d").unwrap();
    e.delete(b"c").unwrap();

    let reopened = MiniBitcask::new(e.log.data.clone()).unwrap();
    assert_eq!(reopened.keydir.len(), 2);
    assert_eq!(reopened.get(b"a").unwrap(), Some(b"val1".to_vec()));
    assert_eq!(reopened.get(b"b").unwrap(), Some(b"val2".to_vec()));
    assert_eq!(reopened.get(b"c").unwrap(), None);
    assert_eq!(reopened.get(b"d").unwrap(), None);
}

#[test]
fn test_merge_preserves_store_and_shrinks_log() {
    let mut e = open_empty();
    e.set(b"a", b"1".to_vec()).unwrap();
    e.set(b"b", b"2".to_vec()).unwrap();
    e.set(b"a", b"3".to_vec()).unwrap();
    e.set(b"c", b"4".to_vec()).unwrap();
    e.delete(b"b").unwrap();
    let size_before = e.log.size();
    e.merge().unwrap();
    assert!(e.log.size() <= size_before);
    // only the live records remain: two records of 10 bytes each
    assert_eq!(e.log.size(), 20);
    assert_eq!(e.get(b"a").unwrap(), Some(b"3".to_vec()));
    assert_eq!(e.get(b"b").unwrap(), None);
    assert_eq!(e.get(b"c").unwrap(), Some(b"4".to_vec()));
}

#[test]
fn test_merge_writes_records_in_key_order() {
    let mut e = open_empty();
    e.set(b"b", b"two".to_vec()).unwrap();
    e.set(b"a", b"one".to_vec()).unwrap();
    e.merge().unwrap();
    let mut expected = mini_bitcask::log::encode_entry(b"a", Some(b"one"));
    expected.extend_from_slice(&mini_bitcask::log::encode_entry(b"b", Some(b"two")));
    assert_eq!(e.log.data, expected);
}

#[test]
fn test_merge_then_reopen() {
    let mut e = open_empty();
    e.set(b"x", b"xx".to_vec()).unwrap();
    e.set(b"y", b"yy".to_vec()).unwrap();
    e.delete(b"x").unwrap();
    e.merge().unwrap();
    let reopened = MiniBitcask::new(e.log.data.clone()).unwrap();
    assert_eq!(reopened.get(b"x").unwrap(), None);
    assert_eq!(reopened.get(b"y").unwrap(), Some(b"yy".to_vec()));
}

#[test]
fn test_flush_is_ok_and_changes_nothing() {
    let mut e = open_empty();
    e.set(b"k", b"v".to_vec()).unwrap();
    assert_eq!(e.flush(), Ok(()));
    assert_eq!(e.get(b"k").unwrap(), Some(b"v".to_vec()));
}

#[test]
fn test_open_corrupt_log() {
    assert_eq!(MiniBitcask::new(vec![0, 0, 0, 1]).err(), Some(KvError::Corruption));
}

#[test]
fn test_empty_key_and_empty_value() {
    let mut e = open_empty();
    e.set(b"", b"".to_vec()).unwrap();
    assert_eq!(e.get(b"").unwrap(), Some(Vec::new()));
    e.delete(b"").unwrap();
    assert_eq!(e.get(b"").unwrap(), None);
}
