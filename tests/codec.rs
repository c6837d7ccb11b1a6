use std::sync::Arc;

use mini_lsm::block::{Block, BlockBuilder, BlockIterator};
use mini_lsm::error::LsmError;
use mini_lsm::iterators::StorageIterator;
use mini_lsm::keys::KeyBound;
use mini_lsm::mem_table::MemTable;
use mini_lsm::merge_iterator::MergeIterator;
use mini_lsm::table::{BlockMeta, FileObject, SsTable, SsTableBuilder};
use mini_lsm::table_iterator::SsTableIterator;
use mini_lsm::two_merge_iterator::TwoMergeIterator;

fn collect<I: StorageIterator>(it: &mut I) -> Vec<(Vec<u8>, Vec<u8>)> {
    let mut out = Vec::new();
    while it.is_valid() {
        out.push((it.key().to_vec(), it.value().to_vec()));
        it.next().unwrap();
    }
    out
}

fn block_entries(block: Arc<Block>) -> Vec<(Vec<u8>, Vec<u8>)> {
    let mut it = BlockIterator::create_and_seek_to_first(block);
    let mut out = Vec::new();
    while it.is_valid() {
        out.push((it.key().to_vec(), it.value().to_vec()));
        it.next();
    }
    out
}

#[test]
fn block_layout_is_exact() {
    let mut b = BlockBuilder::new(4096);
    assert!(b.is_empty());
    assert!(b.add(b"ab", b"x"));
    assert!(b.add(b"c", b""));
    assert!(!b.is_empty());
    assert_eq!(b.get_size(), 5 + 3 + 2 * 2 + 2);
    let block = b.build();
    let bytes = block.encode();
    assert_eq!(bytes, vec![2, b'a', b'b', 1, b'x', 1, b'c', 0, 0, 0, 5, 0, 2, 0]);
}

#[test]
fn block_round_trip() {
    let mut b = BlockBuilder::new(256);
    for i in 0..10u8 {
        assert!(b.add(&[b'k', i], &[i; 3]));
    }
    let block = b.build();
    let bytes = block.encode();
    let decoded = Block::decode(&bytes).unwrap();
    assert_eq!(decoded.encode(), bytes);
    let got = block_entries(Arc::new(decoded));
    let want: Vec<_> = (0..10u8).map(|i| (vec![b'k', i], vec![i; 3])).collect();
    assert_eq!(got, want);
}

#[test]
fn block_respects_target_size() {
    let mut b = BlockBuilder::new(40);
    let mut n = 0;
    while b.add(&[b'k', n as u8], b"0123456789") {
        n += 1;
    }
    assert!(n >= 2);
    let block = b.build();
    assert!(block.encode().len() <= 40);
    let mut single = BlockBuilder::new(8);
    assert!(single.add(b"long-key", b"long-value"));
    assert!(!single.add(b"m", b"v"));
    assert!(single.build().encode().len() > 8);
}

#[test]
fn block_decode_rejects_garbage() {
    assert_eq!(Block::decode(&[]).err(), Some(LsmError::MalformedBlock));
    assert_eq!(Block::decode(&[0, 0]).err(), Some(LsmError::MalformedBlock));
    assert_eq!(Block::decode(&[2, b'a', b'b', 1, b'x', 9, 0, 1, 0]).err(), Some(LsmError::MalformedBlock));
}

#[test]
fn block_seek_to_key() {
    let mut b = BlockBuilder::new(4096);
    for k in ["b", "d", "f"] {
        assert!(b.add(k.as_bytes(), b"v"));
    }
    let block = Arc::new(b.build());
    let it = BlockIterator::create_and_seek_to_key(block.clone(), b"c");
    assert_eq!(it.key(), b"d");
    let it = BlockIterator::create_and_seek_to_key(block.clone(), b"a");
    assert_eq!(it.key(), b"b");
    let it = BlockIterator::create_and_seek_to_key(block, b"g");
    assert!(!it.is_valid());
    assert_eq!(it.key(), b"");
}

fn key20(i: usize) -> Vec<u8> {
    format!("key_{:016}", i).into_bytes()
}

fn value20(i: usize) -> Vec<u8> {
    format!("val_{:016}", i).into_bytes()
}

fn build_table(n: usize, block_size: usize) -> SsTable {
    let mut b = SsTableBuilder::new(block_size);
    for i in 0..n {
        b.add(&key20(i), &value20(i));
    }
    b.build(7).unwrap()
}

#[test]
fn find_block_of_middle_key() {
    let t = build_table(500, 64);
    let m = t.num_of_blocks();
    assert!(m > 1);
    let k = key20(250);
    let i = t.find_block_idx(&k);
    assert!(t.first_key_of(i) <= &k[..]);
    assert!(i + 1 == m || t.first_key_of(i + 1) > &k[..]);
    assert_eq!(t.find_block_idx(b"a"), 0);
    assert_eq!(t.find_block_idx(b"z"), m - 1);
}

#[test]
fn table_iterates_what_was_added() {
    let t = Arc::new(build_table(120, 128));
    assert_eq!(t.id(), 7);
    let mut it = SsTableIterator::create_and_seek_to_first(t.clone()).unwrap();
    let got = collect(&mut it);
    let want: Vec<_> = (0..120).map(|i| (key20(i), value20(i))).collect();
    assert_eq!(got, want);
    let mut it = SsTableIterator::create_and_seek_to_key(t.clone(), &key20(57)).unwrap();
    assert_eq!(it.key(), &key20(57)[..]);
    it.seek_to_key(b"key_0000000000000100x").unwrap();
    assert_eq!(it.key(), &key20(101)[..]);
    assert_eq!(SsTableIterator::create_and_seek_to_key(t, b"zzz").err(), Some(LsmError::SeekPastEnd));
}

#[test]
fn table_meta_round_trip() {
    let mut b = SsTableBuilder::new(64);
    for i in 0..40 {
        b.add(&key20(i), &value20(i));
    }
    b.add_block();
    let (bytes, offset) = b.encode();
    let (meta_bytes, off) = SsTableBuilder::decode(&bytes).unwrap();
    assert_eq!(off, offset);
    let metas = BlockMeta::decode_block_meta(meta_bytes).unwrap();
    let mut again = Vec::new();
    BlockMeta::encode_block_meta(&metas, &mut again);
    assert_eq!(again, meta_bytes.to_vec());
    assert_eq!(metas[0].offset, 0);
    assert_eq!(metas[0].first_key, key20(0));
    assert_eq!(SsTableBuilder::decode(&[1, 2]).err(), Some(LsmError::MalformedTable));
    assert_eq!(SsTableBuilder::decode(&[0, 0, 0, 9]).err(), Some(LsmError::MalformedTable));
}

#[test]
fn empty_builder_cannot_build() {
    let b = SsTableBuilder::new(64);
    assert_eq!(b.build(1).err(), Some(LsmError::EmptyTable));
}

#[test]
fn file_reads_by_range() {
    let f = FileObject::create(vec![1, 2, 3, 4, 5]);
    assert_eq!(f.size(), 5);
    assert_eq!(f.read(1, 3).unwrap(), vec![2, 3, 4]);
    assert_eq!(f.read(3, 5).err(), Some(LsmError::ReadOutOfRange));
}

#[test]
fn memtable_get_put_scan() {
    let mut m = MemTable::create();
    assert_eq!(m.get(b"a"), None);
    m.put(b"b", b"2");
    m.put(b"a", b"1");
    m.put(b"c", b"3");
    m.put(b"b", b"22");
    assert_eq!(m.get(b"b"), Some(b"22".to_vec()));
    let mut it = m.scan(&KeyBound::Excluded(b"a".to_vec()), &KeyBound::Included(b"c".to_vec()));
    assert_eq!(collect(&mut it), vec![(b"b".to_vec(), b"22".to_vec()), (b"c".to_vec(), b"3".to_vec())]);
    let mut it = m.scan(&KeyBound::Unbounded, &KeyBound::Excluded(b"b".to_vec()));
    assert_eq!(collect(&mut it), vec![(b"a".to_vec(), b"1".to_vec())]);
}

#[test]
fn memtable_flush_in_key_order() {
    let mut m = MemTable::create();
    for k in ["q", "e", "w"] {
        m.put(k.as_bytes(), b"v");
    }
    let mut b = SsTableBuilder::new(4096);
    m.flush(&mut b).unwrap();
    let t = Arc::new(b.build(1).unwrap());
    let mut it = SsTableIterator::create_and_seek_to_first(t).unwrap();
    let keys: Vec<_> = collect(&mut it).into_iter().map(|(k, _)| k).collect();
    assert_eq!(keys, vec![b"e".to_vec(), b"q".to_vec(), b"w".to_vec()]);
}

fn mem_with(pairs: &[(&str, &str)]) -> MemTable {
    let mut m = MemTable::create();
    for (k, v) in pairs {
        m.put(k.as_bytes(), v.as_bytes());
    }
    m
}

#[test]
fn merge_prefers_lowest_index() {
    let m0 = mem_with(&[("b", "0"), ("d", "0")]);
    let m1 = mem_with(&[("a", "1"), ("b", "1"), ("c", "1")]);
    let m2 = mem_with(&[("b", "2"), ("c", "2"), ("e", "2")]);
    let iters = vec![
        Box::new(m0.scan(&KeyBound::Unbounded, &KeyBound::Unbounded)),
        Box::new(m1.scan(&KeyBound::Unbounded, &KeyBound::Unbounded)),
        Box::new(m2.scan(&KeyBound::Unbounded, &KeyBound::Unbounded)),
    ];
    let mut merged = MergeIterator::create(iters);
    let got = collect(&mut merged);
    let want: Vec<_> = [("a", "1"), ("b", "0"), ("c", "1"), ("d", "0"), ("e", "2")]
        .iter()
        .map(|(k, v)| (k.as_bytes().to_vec(), v.as_bytes().to_vec()))
        .collect();
    assert_eq!(got, want);
}

#[test]
fn two_merge_prefers_a() {
    let a = mem_with(&[("k", "a"), ("m", "a")]);
    let t = {
        let mut b = SsTableBuilder::new(4096);
        b.add(b"j", b"b");
        b.add(b"k", b"b");
        b.add(b"n", b"b");
        Arc::new(b.build(1).unwrap())
    };
    let a_it = MergeIterator::create(vec![Box::new(a.scan(&KeyBound::Unbounded, &KeyBound::Unbounded))]);
    let b_it = MergeIterator::create(vec![Box::new(SsTableIterator::create_and_seek_to_first(t).unwrap())]);
    let mut two = TwoMergeIterator::create(a_it, b_it).unwrap();
    let got = collect(&mut two);
    let want: Vec<_> = [("j", "b"), ("k", "a"), ("m", "a"), ("n", "b")]
        .iter()
        .map(|(k, v)| (k.as_bytes().to_vec(), v.as_bytes().to_vec()))
        .collect();
    assert_eq!(got, want);
}

#[test]
fn table_opens_from_its_bytes() {
    let mut b = SsTableBuilder::new(64);
    for i in 0..30 {
        b.add(&key20(i), &value20(i));
    }
    b.add_block();
    let (bytes, _) = b.encode();
    let t = Arc::new(SsTable::open(3, FileObject::create(bytes.clone())).unwrap());
    assert_eq!(t.id(), 3);
    let mut it = SsTableIterator::create_and_seek_to_first(t).unwrap();
    let want: Vec<_> = (0..30).map(|i| (key20(i), value20(i))).collect();
    assert_eq!(collect(&mut it), want);
    let mut bad = bytes.clone();
    bad[3] ^= 0x40;
    assert_eq!(SsTable::open(3, FileObject::create(bad)).err(), Some(LsmError::MalformedTable));
    assert_eq!(SsTable::open(3, FileObject::create(vec![0, 0, 0, 0])).err(), Some(LsmError::MalformedTable));
}

#[test]
fn memtable_flush_after_earlier_keys() {
    let mut m = MemTable::create();
    m.put(b"m", b"2");
    m.put(b"z", b"3");
    let mut b = SsTableBuilder::new(4096);
    b.add(b"a", b"1");
    m.flush(&mut b).unwrap();
    let t = Arc::new(b.build(2).unwrap());
    let mut it = SsTableIterator::create_and_seek_to_first(t).unwrap();
    assert_eq!(
        collect(&mut it),
        vec![(b"a".to_vec(), b"1".to_vec()), (b"m".to_vec(), b"2".to_vec()), (b"z".to_vec(), b"3".to_vec())]
    );
}

#[test]
fn builder_seals_only_on_overflow() {
    let mut b = SsTableBuilder::new(64);
    b.add(&key20(0), &value20(0));
    b.add(&key20(1), &value20(1));
    let t = b.build(1).unwrap();
    assert_eq!(t.num_of_blocks(), 2);
    assert_eq!(t.first_key_of(0), &key20(0)[..]);
    assert_eq!(t.first_key_of(1), &key20(1)[..]);
}
