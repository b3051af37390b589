//! Indices of both kinds compared with an ordered map of the standard library.

use homedb::any_index::AnyIndex;
use homedb::btree_config::BtreeConfig;
use homedb::btree_index::{
    index_query_handle_into_any, AnyQueryHandle, BtreeIndex, IndexQueries, IndexQueryHandle,
};
use homedb::btree_req::{
    AcceptAll, BtreeKeyRange, GetFilter, GetFilterDecision, PutFilter, RemoveFilter, RemoveFilterDecision,
};
use homedb::btree_types::{BtreeError, IoErrorKind};
use homedb::db_kv::{DbKey, DbValue};
use homedb::sharded_btree::{ShardedBtree, DEFAULT_NUM_SHARDS};
use homedb::underlying::MemBtree;
use homedb::unsharded_btree::UnshardedBtree;
use std::collections::BTreeMap;
use std::sync::Arc;

type Index = AnyIndex<MemBtree>;
type Model = BTreeMap<Vec<u8>, Vec<u8>>;

fn key(b: &[u8]) -> DbKey {
    DbKey::from_bytes(b.to_vec())
}

fn value(b: &[u8]) -> DbValue {
    DbValue::from_bytes(b.to_vec())
}

fn config() -> BtreeConfig {
    BtreeConfig::new(256, "idx".to_string())
}

fn storage(c: &BtreeConfig) -> MemBtree {
    MemBtree::new(c.node_size as usize)
}

fn unsharded() -> Index {
    AnyIndex::Unsharded(UnshardedBtree::new(config(), storage).unwrap())
}

fn sharded(p: usize) -> Index {
    AnyIndex::Sharded(ShardedBtree::new(config(), p, storage).unwrap())
}

fn indices() -> Vec<Index> {
    vec![unsharded(), sharded(0), sharded(1), sharded(2), sharded(4)]
}

/// A small generator of numbers that look random.
fn step(x: &mut u64) -> u64 {
    *x ^= *x << 13;
    *x ^= *x >> 7;
    *x ^= *x << 17;
    *x
}

/// Keys of different lengths, some of them next to partition bounds.
fn some_key(x: &mut u64) -> Vec<u8> {
    let len = (step(x) % 6) as usize;
    let bytes = [0u8, 1, 2, 254, 255];
    (0..len).map(|_| bytes[(step(x) % 5) as usize]).collect()
}

fn all_entries<I: IndexQueries<AcceptAll>>(
    i: &I,
    range: BtreeKeyRange<DbKey>,
    batch: u32,
    reverse: bool,
) -> Vec<(Vec<u8>, Vec<u8>)> {
    let mut h = i.query(range, batch, None, reverse).unwrap();
    let mut got = Vec::new();
    loop {
        assert!(h.results().len() <= batch as usize);
        for (k, v) in h.results() {
            got.push((k.as_bytes().clone(), v.as_bytes().clone()));
        }
        if !h.has_more() {
            return got;
        }
        assert!(!h.results().is_empty());
        h = i.query_next_batch(h).unwrap();
    }
}

fn whole() -> BtreeKeyRange<DbKey> {
    BtreeKeyRange::new(key(b""), true, key(&[255; 9]), true)
}

fn in_range(k: &Vec<u8>, a: &Vec<u8>, ai: bool, b: &Vec<u8>, bi: bool) -> bool {
    (if ai { k >= a } else { k > a }) && (if bi { k <= b } else { k < b })
}

#[test]
fn indices_follow_an_ordered_map() {
    for mut i in indices() {
        let mut m: Model = BTreeMap::new();
        let mut x: u64 = 0xdead_beef_1234_5678;
        for round in 0..1500usize {
            let k = some_key(&mut x);
            match step(&mut x) % 12 {
                0..=5 => {
                    let v = vec![round as u8; (step(&mut x) % 70) as usize];
                    i.put(&key(&k), &value(&v)).unwrap();
                    m.insert(k, v);
                }
                6..=7 => {
                    let r = i.remove(&key(&k)).unwrap();
                    assert_eq!(r.map(|v| v.into_vec()), m.remove(&k));
                }
                8 => {
                    let r = i.get(&key(&k)).unwrap();
                    assert_eq!(r.map(|v| v.into_vec()), m.get(&k).cloned());
                }
                9 => {
                    let r = i.seek_gte(&key(&k)).unwrap();
                    let e = m.range(k..).next();
                    assert_eq!(
                        r.map(|(a, b)| (a.into_vec(), b.into_vec())),
                        e.map(|(a, b)| (a.clone(), b.clone()))
                    );
                }
                10 => {
                    let b = some_key(&mut x);
                    let (ai, bi) = (step(&mut x) % 2 == 0, step(&mut x) % 2 == 0);
                    let batch = (step(&mut x) % 5 + 1) as u32;
                    let reverse = step(&mut x) % 2 == 0;
                    let got = all_entries(
                        &i,
                        BtreeKeyRange::new(key(&k), ai, key(&b), bi),
                        batch,
                        reverse,
                    );
                    let mut e: Vec<(Vec<u8>, Vec<u8>)> = m
                        .iter()
                        .filter(|(q, _)| in_range(q, &k, ai, &b, bi))
                        .map(|(q, v)| (q.clone(), v.clone()))
                        .collect();
                    if reverse {
                        e.reverse();
                    }
                    assert_eq!(got, e);
                }
                _ => {
                    if round % 10 == 0 {
                        let b = some_key(&mut x);
                        let (ai, bi) = (step(&mut x) % 2 == 0, step(&mut x) % 2 == 0);
                        let range = BtreeKeyRange::new(key(&k), ai, key(&b), bi);
                        if step(&mut x) % 2 == 0 {
                            let n = i.remove_range(range, None::<Arc<AcceptAll>>).unwrap();
                            let before = m.len();
                            m.retain(|q, _| !in_range(q, &k, ai, &b, bi));
                            assert_eq!(n as usize, before - m.len());
                        } else {
                            let v = vec![7u8; 3];
                            i.put_range(range, &value(&v), None::<Arc<AcceptAll>>).unwrap();
                            for (q, o) in m.iter_mut() {
                                if in_range(q, &k, ai, &b, bi) {
                                    *o = v.clone();
                                }
                            }
                        }
                    }
                }
            }
        }
        let e: Vec<(Vec<u8>, Vec<u8>)> = m.iter().map(|(k, v)| (k.clone(), v.clone())).collect();
        assert_eq!(all_entries(&i, whole(), 7, false), e);
        let n = i.remove_range(whole(), None::<Arc<AcceptAll>>).unwrap();
        assert_eq!(n as usize, m.len());
        assert!(all_entries(&i, whole(), 7, false).is_empty());
        if let AnyIndex::Sharded(s) = &i {
            assert!(s.registry.entries.is_empty());
        }
    }
}

#[test]
fn a_handle_of_the_other_kind_is_refused() {
    let mut a = unsharded();
    let mut b = sharded(1);
    for i in 0..20u8 {
        a.put(&key(&[i]), &value(&[i])).unwrap();
        b.put(&key(&[i]), &value(&[i])).unwrap();
    }
    let ha: AnyQueryHandle<AcceptAll> = a.query(whole(), 3, None, false).unwrap();
    let hb: AnyQueryHandle<AcceptAll> = b.query(whole(), 3, None, false).unwrap();
    assert!(matches!(ha, AnyQueryHandle::Single(_)));
    assert!(matches!(hb, AnyQueryHandle::Sharded(_)));
    assert!(matches!(a.query_next_batch(hb), Err(BtreeError::Io(IoErrorKind::Other))));
    assert!(matches!(b.query_next_batch(ha), Err(BtreeError::Io(IoErrorKind::Other))));
}

#[test]
fn handles_turn_into_handles_of_any_index() {
    let a = UnshardedBtree::new(config(), storage).unwrap();
    let h: AnyQueryHandle<AcceptAll> = a.query(whole(), 3, None, false).unwrap();
    let h = match h {
        AnyQueryHandle::Single(s) => s,
        AnyQueryHandle::Sharded(_) => panic!("handle of one tree expected"),
    };
    assert!(matches!(index_query_handle_into_any(h), AnyQueryHandle::Single(_)));
}

#[test]
fn a_batch_is_filled_across_partitions() {
    for mut i in indices() {
        for n in 0..40u8 {
            i.put(&key(&[n, n]), &value(&[n])).unwrap();
        }
        for reverse in [false, true] {
            let mut h: AnyQueryHandle<AcceptAll> = i.query(whole(), 7, None, reverse).unwrap();
            let mut seen = h.results().len();
            assert_eq!(seen, 7);
            while h.has_more() {
                h = i.query_next_batch(h).unwrap();
                assert!(h.results().len() == 7 || !h.has_more());
                seen += h.results().len();
            }
            assert_eq!(seen, 40);
        }
    }
}

#[test]
fn a_batch_of_none_gives_no_entries_in_any_index() {
    for mut i in indices() {
        for n in 0..20u8 {
            i.put(&key(&[n, n]), &value(&[n])).unwrap();
        }
        let h: AnyQueryHandle<AcceptAll> = i.query(whole(), 0, None, false).unwrap();
        let partitions = matches!(h, AnyQueryHandle::Sharded(_));
        assert_eq!(h.results().len(), 0);
        assert_eq!(h.has_more(), partitions);
        let h = i.query_next_batch(h).unwrap();
        assert_eq!(h.results().len(), 0);
        assert_eq!(h.has_more(), partitions);
    }
}

#[test]
fn shards_are_named_after_the_index() {
    let s = ShardedBtree::new(config(), 2, storage).unwrap();
    assert_eq!(s.shards.len(), DEFAULT_NUM_SHARDS);
    assert_eq!(s.shards[0].config.btree_name, "idx_0");
    assert_eq!(s.shards[9].config.btree_name, "idx_9");
    assert_eq!(s.shards[63].config.btree_name, "idx_63");
}

#[test]
fn partitions_are_spread_and_counted() {
    let mut s = ShardedBtree::new(config(), 2, storage).unwrap();
    for a in 0..40u8 {
        for b in 0..3u8 {
            s.put(&key(&[a, 1, b]), &value(&[b])).unwrap();
        }
    }
    assert_eq!(s.registry.entries.len(), 40);
    assert!(s.registry.entries.iter().all(|e| e.1.entry_count == 3));
    s.put(&key(&[5, 1, 0]), &value(b"again")).unwrap();
    assert_eq!(s.registry.entries[5].1.entry_count, 3);
    let used = s
        .shards
        .iter()
        .filter(|t| {
            let h = t.query(whole(), 1, None::<Arc<AcceptAll>>).unwrap();
            !h.results.is_empty()
        })
        .count();
    assert!(used > 1);
    for b in 0..3u8 {
        assert!(s.remove(&key(&[7, 1, b])).unwrap().is_some());
    }
    assert_eq!(s.registry.entries.len(), 39);
    assert!(s.remove(&key(&[7, 1, 0])).unwrap().is_none());
}

#[test]
fn a_configuration_without_room_is_refused() {
    let c = |n: u32| BtreeConfig::new(n, "small".to_string());
    assert!(matches!(
        UnshardedBtree::new(c(59), storage),
        Err(BtreeError::Io(IoErrorKind::InvalidInput))
    ));
    assert!(matches!(
        ShardedBtree::new(c(70_000), 1, storage),
        Err(BtreeError::Io(IoErrorKind::InvalidInput))
    ));
    // nothing fits into such nodes, but there is a tree
    let mut i = UnshardedBtree::new(c(64), storage).unwrap();
    assert!(matches!(
        i.put(&key(b""), &value(b"")),
        Err(BtreeError::Io(IoErrorKind::InvalidInput))
    ));
    assert!(i.get(&key(b"")).unwrap().is_none());
}

#[test]
fn values_that_crowd_a_node_overflow() {
    let mut c = BtreeConfig::new(4096, "wide".to_string());
    c.inline_value_size = 2500;
    let mut i = UnshardedBtree::new(c, storage).unwrap();
    for n in 0..20u8 {
        i.put(&key(&[n]), &value(&[n; 2400])).unwrap();
    }
    for n in 0..20u8 {
        assert_eq!(i.get(&key(&[n])).unwrap().unwrap().into_vec(), vec![n; 2400]);
    }
}

#[test]
fn a_key_that_is_too_long_is_refused() {
    for mut i in indices() {
        let r = i.put(&key(&[1; 250]), &value(b"v"));
        assert!(matches!(r, Err(BtreeError::Io(IoErrorKind::InvalidInput))));
        assert!(all_entries(&i, whole(), 5, false).is_empty());
    }
}

/// Lets through the values that start with an even byte.
struct EvenValues;

impl GetFilter<DbKey, DbValue> for EvenValues {
    fn always_needs_value(&self) -> bool {
        true
    }
    fn check_key(&self, _key: &DbKey) -> GetFilterDecision {
        GetFilterDecision::NeedValue
    }
    fn check_kv(&self, _key: &DbKey, val: &DbValue) -> GetFilterDecision {
        if val.as_bytes()[0] % 2 == 0 {
            GetFilterDecision::Include
        } else {
            GetFilterDecision::Skip
        }
    }
}

impl RemoveFilter<DbKey, DbValue> for EvenValues {
    fn always_needs_value(&self) -> bool {
        false
    }
    fn check_key(&self, key: &DbKey) -> RemoveFilterDecision {
        if key.as_bytes()[0] == 0 {
            RemoveFilterDecision::Skip
        } else {
            RemoveFilterDecision::NeedValue
        }
    }
    fn check_kv(&self, _key: &DbKey, val: &DbValue) -> RemoveFilterDecision {
        if val.as_bytes()[0] % 2 == 0 {
            RemoveFilterDecision::Remove
        } else {
            RemoveFilterDecision::Skip
        }
    }
}

impl PutFilter<DbKey, DbValue> for EvenValues {
    fn accepts(&self, _key: &DbKey, existing: &DbValue, _new: &DbValue) -> bool {
        existing.as_bytes()[0] % 2 == 0
    }
}

#[test]
fn filters_choose_entries() {
    for mut i in indices() {
        for n in 0..60u8 {
            i.put(&key(&[n / 10, n]), &value(&[n])).unwrap();
        }
        let mut h = i.query(whole(), 4, Some(Arc::new(EvenValues)), false).unwrap();
        let mut got = Vec::new();
        loop {
            for (_, v) in h.results() {
                got.push(v.as_bytes()[0]);
            }
            if !h.has_more() {
                break;
            }
            h = i.query_next_batch(h).unwrap();
        }
        assert_eq!(got, (0..60u8).filter(|n| n % 2 == 0).collect::<Vec<u8>>());

        i.put_range(whole(), &value(&[101]), Some(Arc::new(EvenValues))).unwrap();
        assert_eq!(i.get(&key(&[2, 20])).unwrap().unwrap().into_vec(), vec![101]);
        assert_eq!(i.get(&key(&[2, 21])).unwrap().unwrap().into_vec(), vec![21]);

        for n in (0..60u8).filter(|n| n % 2 == 0) {
            i.put(&key(&[n / 10, n]), &value(&[n])).unwrap();
        }
        let n = i.remove_range(whole(), Some(Arc::new(EvenValues))).unwrap();
        assert_eq!(n, 25);
        assert_eq!(all_entries(&i, whole(), 100, false).len(), 35);
    }
}
