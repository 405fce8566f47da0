use kv_store::index::{Index, LogPointer};
use kv_store::kv::KvStore;
use kv_store::wal::{LogError, Wal};

fn fresh() -> KvStore {
    KvStore::open(Vec::new()).unwrap()
}

#[test]
fn put_then_get_returns_value() {
    let mut s = fresh();
    s.put(b"k".to_vec(), b"hello".to_vec());
    assert_eq!(s.get(b"k"), Some(b"hello".to_vec()));
}

#[test]
fn last_write_wins() {
    let mut s = fresh();
    s.put(b"k".to_vec(), b"v1".to_vec());
    s.put(b"k".to_vec(), b"v2".to_vec());
    assert_eq!(s.get(b"k"), Some(b"v2".to_vec()));
}

#[test]
fn delete_then_get_is_none() {
    let mut s = fresh();
    s.put(b"k".to_vec(), b"v".to_vec());
    s.put(b"other".to_vec(), b"w".to_vec());
    s.delete(b"k");
    assert_eq!(s.get(b"k"), None);
    assert_eq!(s.get(b"other"), Some(b"w".to_vec()));
}

#[test]
fn delete_absent_key_is_no_error() {
    let mut s = fresh();
    s.put(b"a".to_vec(), b"1".to_vec());
    let before = s.log_bytes().len();
    s.delete(b"zz");
    assert_eq!(s.get(b"zz"), None);
    assert_eq!(s.get(b"a"), Some(b"1".to_vec()));
    assert_eq!(s.log_bytes().len(), before + 5 + 2);
}

#[test]
fn reopen_recovers_every_key() {
    let mut s = fresh();
    s.put(b"a".to_vec(), b"1".to_vec());
    s.put(b"b".to_vec(), b"2".to_vec());
    s.put(b"a".to_vec(), b"3".to_vec());
    s.delete(b"b");
    s.put(b"c".to_vec(), Vec::new());
    let t = KvStore::open(s.log_bytes().to_vec()).unwrap();
    for k in [&b"a"[..], &b"b"[..], &b"c"[..], &b"d"[..]] {
        assert_eq!(t.get(k), s.get(k));
    }
    assert_eq!(t.get(b"a"), Some(b"3".to_vec()));
}

#[test]
fn compaction_keeps_every_key() {
    let mut s = fresh();
    s.put(b"x".to_vec(), b"1".to_vec());
    s.put(b"y".to_vec(), b"2".to_vec());
    s.put(b"x".to_vec(), b"11".to_vec());
    s.delete(b"y");
    s.put(b"z".to_vec(), b"3".to_vec());
    s.delete(b"w");
    let before: Vec<Option<Vec<u8>>> = [&b"x"[..], &b"y"[..], &b"z"[..], &b"w"[..]]
        .iter()
        .map(|k| s.get(k))
        .collect();
    let old_len = s.log_bytes().len();
    s.compact();
    let after: Vec<Option<Vec<u8>>> = [&b"x"[..], &b"y"[..], &b"z"[..], &b"w"[..]]
        .iter()
        .map(|k| s.get(k))
        .collect();
    assert_eq!(before, after);
    assert!(s.log_bytes().len() <= old_len);
    assert_eq!(s.log_bytes().len(), (9 + 1 + 2) + (9 + 1 + 1));
}

#[test]
fn scenario_compact_two_keys() {
    let mut s = fresh();
    s.put(b"a".to_vec(), b"1".to_vec());
    s.put(b"a".to_vec(), b"2".to_vec());
    s.put(b"b".to_vec(), b"9".to_vec());
    s.compact();
    assert_eq!(s.get(b"a"), Some(b"2".to_vec()));
    assert_eq!(s.get(b"b"), Some(b"9".to_vec()));
    let log = s.log_bytes().to_vec();
    let rec_a = vec![1u8, 1, 0, 0, 0, 1, 0, 0, 0, b'a', b'2'];
    let rec_b = vec![1u8, 1, 0, 0, 0, 1, 0, 0, 0, b'b', b'9'];
    let ab: Vec<u8> = rec_a.iter().chain(rec_b.iter()).copied().collect();
    let ba: Vec<u8> = rec_b.iter().chain(rec_a.iter()).copied().collect();
    assert!(log == ab || log == ba);
}

#[test]
fn scenario_delete_then_reopen() {
    let mut s = fresh();
    s.put(b"k1".to_vec(), b"v1".to_vec());
    s.delete(b"k1");
    let t = KvStore::open(s.log_bytes().to_vec()).unwrap();
    assert_eq!(t.get(b"k1"), None);
}

#[test]
fn scenario_empty_value_round_trips() {
    let mut s = fresh();
    s.put(b"k".to_vec(), Vec::new());
    assert_eq!(s.get(b"k"), Some(Vec::new()));
    let t = KvStore::open(s.log_bytes().to_vec()).unwrap();
    assert_eq!(t.get(b"k"), Some(Vec::new()));
}

#[test]
fn scenario_fresh_log_is_empty() {
    let w = Wal::open(Vec::new());
    let idx = w.replay().unwrap();
    assert_eq!(idx.len(), 0);
    let s = fresh();
    assert_eq!(s.get(b"anything"), None);
    assert_eq!(s.get(b""), None);
}

#[test]
fn put_record_bytes_are_exact() {
    let mut w = Wal::open(Vec::new());
    w.append_put(b"ab", b"xyz");
    assert_eq!(
        w.as_bytes().to_vec(),
        vec![1u8, 2, 0, 0, 0, 3, 0, 0, 0, b'a', b'b', b'x', b'y', b'z']
    );
    w.append_del(b"ab");
    assert_eq!(w.len(), 14 + 7);
    assert_eq!(&w.as_bytes()[14..], &[2u8, 2, 0, 0, 0, b'a', b'b'][..]);
}

#[test]
fn length_fields_are_little_endian() {
    let key = vec![7u8; 300];
    let mut w = Wal::open(Vec::new());
    w.append_put(&key, b"");
    assert_eq!(&w.as_bytes()[..9], &[1u8, 44, 1, 0, 0, 0, 0, 0, 0][..]);
    let idx = w.replay().unwrap();
    assert_eq!(idx.get(&key), Some(LogPointer { offset: 309, value_len: 0 }));
}

#[test]
fn replay_points_at_values() {
    let mut w = Wal::open(Vec::new());
    w.append_put(b"k", b"first");
    w.append_put(b"j", b"vv");
    w.append_put(b"k", b"second");
    let idx = w.replay().unwrap();
    assert_eq!(idx.get(b"k"), Some(LogPointer { offset: 15 + 12 + 10, value_len: 6 }));
    assert_eq!(idx.get(b"j"), Some(LogPointer { offset: 15 + 10, value_len: 2 }));
    assert_eq!(w.read_val(37, 6), Some(b"second".to_vec()));
    w.append_del(b"k");
    let idx = w.replay().unwrap();
    assert_eq!(idx.get(b"k"), None);
    assert_eq!(idx.len(), 1);
}

#[test]
fn read_val_past_end_is_none() {
    let mut w = Wal::open(Vec::new());
    w.append_put(b"k", b"abc");
    assert_eq!(w.read_val(10, 3), Some(b"abc".to_vec()));
    assert_eq!(w.read_val(10, 4), None);
    assert_eq!(w.read_val(100, 0), None);
    assert_eq!(w.read_val(13, 0), Some(Vec::new()));
}

#[test]
fn unknown_tag_is_an_error() {
    let w = Wal::open(vec![3u8, 0, 0, 0, 0]);
    assert!(matches!(w.replay(), Err(LogError::UnknownTag)));
    assert!(matches!(KvStore::open(vec![0u8]), Err(LogError::UnknownTag)));
}

#[test]
fn truncated_record_is_an_error() {
    let mut w = Wal::open(Vec::new());
    w.append_put(b"key", b"value");
    let mut bytes = w.as_bytes().to_vec();
    bytes.pop();
    assert!(matches!(Wal::open(bytes).replay(), Err(LogError::Truncated)));
    assert!(matches!(KvStore::open(vec![1u8, 0, 0]), Err(LogError::Truncated)));
    assert!(matches!(KvStore::open(vec![2u8, 5, 0, 0, 0, 1]), Err(LogError::Truncated)));
}

#[test]
fn index_insert_overwrites_and_remove_is_noop_when_absent() {
    let mut idx = Index::new();
    idx.insert(b"a".to_vec(), LogPointer { offset: 1, value_len: 2 });
    idx.insert(b"a".to_vec(), LogPointer { offset: 5, value_len: 6 });
    idx.insert(b"b".to_vec(), LogPointer { offset: 9, value_len: 0 });
    assert_eq!(idx.len(), 2);
    assert_eq!(idx.get(b"a"), Some(LogPointer { offset: 5, value_len: 6 }));
    idx.remove(b"zz");
    assert_eq!(idx.len(), 2);
    idx.remove(b"a");
    assert_eq!(idx.get(b"a"), None);
    let (k, p) = idx.entry(0);
    assert_eq!(k, &b"b".to_vec());
    assert_eq!(p, LogPointer { offset: 9, value_len: 0 });
}
