use mini_lsm::error::LsmError;
use mini_lsm::iterators::StorageIterator;
use mini_lsm::keys::KeyBound;
use mini_lsm::lsm_storage::LsmStorage;

fn collect<I: StorageIterator>(it: &mut I) -> Vec<(Vec<u8>, Vec<u8>)> {
    let mut out = Vec::new();
    while it.is_valid() {
        out.push((it.key().to_vec(), it.value().to_vec()));
        it.next().unwrap();
    }
    out
}

fn pair(k: &str, v: &str) -> (Vec<u8>, Vec<u8>) {
    (k.as_bytes().to_vec(), v.as_bytes().to_vec())
}

fn full_scan(s: &LsmStorage) -> Vec<(Vec<u8>, Vec<u8>)> {
    let mut it = s.scan(KeyBound::Unbounded, KeyBound::Unbounded).unwrap();
    collect(&mut it)
}

#[test]
fn scan_two_puts_unbounded() {
    let mut s = LsmStorage::open();
    s.put(b"k1", b"v1").unwrap();
    s.put(b"k2", b"v2").unwrap();
    assert_eq!(full_scan(&s), vec![pair("k1", "v1"), pair("k2", "v2")]);
}

#[test]
fn overwrite_returns_latest() {
    let mut s = LsmStorage::open();
    s.put(b"k", b"v1").unwrap();
    s.put(b"k", b"v2").unwrap();
    assert_eq!(s.get(b"k").unwrap(), Some(b"v2".to_vec()));
}

#[test]
fn delete_hides_key() {
    let mut s = LsmStorage::open();
    s.put(b"k", b"v").unwrap();
    s.delete(b"k").unwrap();
    assert_eq!(s.get(b"k").unwrap(), None);
    assert_eq!(full_scan(&s), vec![]);
}

fn key_of(i: usize) -> Vec<u8> {
    format!("k{:03}", i).into_bytes()
}

fn value_of(i: usize) -> Vec<u8> {
    let mut v = vec![b'a' + (i % 26) as u8; 200];
    v[0] = b'0' + (i % 10) as u8;
    v
}

#[test]
fn hundred_keys_sync_then_overwrite() {
    let mut s = LsmStorage::open();
    for i in 0..100 {
        s.put(&key_of(i), &value_of(i)).unwrap();
    }
    s.sync().unwrap();
    s.put(b"k050", b"new").unwrap();
    assert_eq!(s.get(b"k050").unwrap(), Some(b"new".to_vec()));
    assert_eq!(s.get(b"k000").unwrap(), Some(value_of(0)));
    let mut it = s
        .scan(KeyBound::Included(b"k049".to_vec()), KeyBound::Excluded(b"k051".to_vec()))
        .unwrap();
    assert_eq!(
        collect(&mut it),
        vec![(b"k049".to_vec(), value_of(49)), (b"k050".to_vec(), b"new".to_vec())]
    );
}

#[test]
fn two_syncs_keep_newest() {
    let mut s = LsmStorage::open();
    s.put(b"a", b"1").unwrap();
    s.sync().unwrap();
    s.put(b"a", b"2").unwrap();
    s.sync().unwrap();
    assert_eq!(full_scan(&s), vec![pair("a", "2")]);
}

#[test]
fn scan_keys_increase_and_values_live() {
    let mut s = LsmStorage::open();
    for (k, v) in [("d", "4"), ("b", "2"), ("a", "1"), ("c", "3")] {
        s.put(k.as_bytes(), v.as_bytes()).unwrap();
    }
    s.sync().unwrap();
    s.put(b"e", b"5").unwrap();
    s.delete(b"b").unwrap();
    let got = full_scan(&s);
    assert_eq!(got, vec![pair("a", "1"), pair("c", "3"), pair("d", "4"), pair("e", "5")]);
    for w in got.windows(2) {
        assert!(w[0].0 < w[1].0);
    }
    assert!(got.iter().all(|(_, v)| !v.is_empty()));
}

#[test]
fn read_your_write_across_sync() {
    let mut s = LsmStorage::open();
    s.put(b"x", b"old").unwrap();
    s.put(b"y", b"1").unwrap();
    s.sync().unwrap();
    s.put(b"z", b"2").unwrap();
    assert_eq!(s.get(b"x").unwrap(), Some(b"old".to_vec()));
    let mut it = s.scan(KeyBound::Included(b"x".to_vec()), KeyBound::Included(b"x".to_vec())).unwrap();
    assert_eq!(collect(&mut it), vec![pair("x", "old")]);
}

#[test]
fn delete_after_sync_hides_key() {
    let mut s = LsmStorage::open();
    s.put(b"k", b"v").unwrap();
    s.sync().unwrap();
    s.delete(b"k").unwrap();
    assert_eq!(s.get(b"k").unwrap(), None);
    assert_eq!(full_scan(&s), vec![]);
    s.sync().unwrap();
    assert_eq!(s.get(b"k").unwrap(), None);
    assert_eq!(full_scan(&s), vec![]);
}

#[test]
fn scan_bounds_excluded_lower() {
    let mut s = LsmStorage::open();
    for k in ["a", "b", "c", "d"] {
        s.put(k.as_bytes(), b"v").unwrap();
    }
    s.sync().unwrap();
    let mut it = s.scan(KeyBound::Excluded(b"b".to_vec()), KeyBound::Included(b"c".to_vec())).unwrap();
    assert_eq!(collect(&mut it), vec![pair("c", "v")]);
    let mut it = s.scan(KeyBound::Excluded(b"zz".to_vec()), KeyBound::Unbounded).unwrap();
    assert_eq!(collect(&mut it), vec![]);
}

#[test]
fn put_rejects_bad_input() {
    let mut s = LsmStorage::open();
    assert_eq!(s.put(b"", b"v"), Err(LsmError::EmptyKey));
    assert_eq!(s.put(b"k", b""), Err(LsmError::EmptyValue));
    assert_eq!(s.put(&[b'k'; 256], b"v"), Err(LsmError::KeyTooLong));
    assert_eq!(s.put(b"k", &[b'v'; 256]), Err(LsmError::ValueTooLong));
    assert_eq!(s.delete(b""), Err(LsmError::EmptyKey));
    assert_eq!(s.get(b"k").unwrap(), None);
    assert!(s.put(&[b'k'; 255], &[b'v'; 255]).is_ok());
}

#[test]
fn sync_of_empty_store() {
    let mut s = LsmStorage::open();
    s.sync().unwrap();
    assert_eq!(full_scan(&s), vec![]);
    assert_eq!(s.get(b"a").unwrap(), None);
}

#[test]
fn fused_next_on_exhausted_is_noop() {
    let mut s = LsmStorage::open();
    s.put(b"a", b"1").unwrap();
    let mut it = s.scan(KeyBound::Unbounded, KeyBound::Unbounded).unwrap();
    it.next().unwrap();
    assert!(!it.is_valid());
    assert!(it.next().is_ok());
    assert!(!it.is_valid());
}
