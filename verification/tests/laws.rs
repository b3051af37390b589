//! Laws of tables and indices, on values.

use homedb::btree_config::BtreeConfig;
use homedb::btree_index::BtreeIndex;
use homedb::btree_req::{AcceptAll, BtreeKeyRange};
use homedb::db_kv::{DbKey, DbValue};
use homedb::partition::{shard_index, Partition};
use homedb::schema::{KeySpec, KeyType, PrefixType, TableSpec, ValueSpec};
use homedb::sharded_btree::ShardedBtree;
use homedb::table::Table;
use homedb::underlying::MemBtree;
use std::sync::Arc;

fn table() -> Table {
    let spec = TableSpec {
        key_spec: KeySpec { key_type: KeyType::Variable(16), prefix_type: PrefixType::Plain },
        value_spec: ValueSpec::Variable(100),
        node_size: 512,
        partition_key_size: 2,
    };
    Table::new("t".to_string(), spec).unwrap()
}

fn filled() -> Table {
    let mut t = table();
    for i in 0..100u8 {
        t.put(vec![i], vec![i; 2]).unwrap();
    }
    t
}

fn all(t: &Table) -> Vec<(Vec<u8>, Vec<u8>)> {
    t.get_range(vec![], vec![255; 16], 9).unwrap().collect().unwrap()
}

fn key(b: &[u8]) -> DbKey {
    DbKey::from_bytes(b.to_vec())
}

#[test]
fn a_key_has_the_value_that_was_put_last() {
    let mut t = filled();
    t.put(vec![7], b"new".to_vec()).unwrap();
    t.put(vec![7], b"newer".to_vec()).unwrap();
    assert_eq!(t.get(vec![7]).unwrap(), Some(b"newer".to_vec()));
    let mut u = filled();
    u.put(vec![7], b"newer".to_vec()).unwrap();
    assert_eq!(all(&t), all(&u));
}

#[test]
fn a_put_leaves_other_keys_alone() {
    let mut t = filled();
    t.put(vec![7, 7], b"new".to_vec()).unwrap();
    assert_eq!(t.get(vec![7]).unwrap(), Some(vec![7; 2]));
    assert_eq!(t.get(vec![8]).unwrap(), Some(vec![8; 2]));
    let keys: Vec<Vec<u8>> = all(&t).into_iter().map(|e| e.0).collect();
    let mut sorted = keys.clone();
    sorted.sort();
    assert_eq!(keys, sorted);
}

#[test]
fn puts_of_different_keys_change_places() {
    let (mut t, mut u) = (filled(), filled());
    t.put(vec![200], b"x".to_vec()).unwrap();
    t.put(vec![3], b"y".to_vec()).unwrap();
    u.put(vec![3], b"y".to_vec()).unwrap();
    u.put(vec![200], b"x".to_vec()).unwrap();
    assert_eq!(all(&t), all(&u));
}

#[test]
fn a_removed_key_is_gone_and_the_others_stay() {
    let mut t = filled();
    assert_eq!(t.remove(vec![50]).unwrap(), Some(vec![50; 2]));
    assert_eq!(t.get(vec![50]).unwrap(), None);
    assert_eq!(t.get(vec![49]).unwrap(), Some(vec![49; 2]));
    assert_eq!(all(&t).len(), 99);
}

#[test]
fn a_removal_undoes_a_put() {
    let mut t = filled();
    let before = all(&t);
    t.put(vec![1, 2, 3], b"x".to_vec()).unwrap();
    assert_ne!(all(&t), before);
    t.remove(vec![1, 2, 3]).unwrap();
    assert_eq!(all(&t), before);
}

#[test]
fn a_removed_range_is_counted_and_gone() {
    let mut t = filled();
    let n = t.remove_range(vec![10], vec![30]).unwrap();
    assert_eq!(n, 20);
    assert_eq!(all(&t).len() + n as usize, 100);
    assert_eq!(t.get(vec![10]).unwrap(), None);
    assert_eq!(t.get(vec![29]).unwrap(), None);
    assert_eq!(t.get(vec![30]).unwrap(), Some(vec![30; 2]));
    assert_eq!(t.get(vec![9]).unwrap(), Some(vec![9; 2]));
}

#[test]
fn a_range_put_changes_values_and_no_keys() {
    let factory = |c: &BtreeConfig| MemBtree::new(c.node_size as usize);
    let mut s = ShardedBtree::new(BtreeConfig::new(256, "s".to_string()), 1, factory).unwrap();
    for i in 0..50u8 {
        s.put(&key(&[i]), &DbValue::from_bytes(vec![i])).unwrap();
    }
    let range = BtreeKeyRange::new(key(&[10]), true, key(&[20]), false);
    s.put_range(range, &DbValue::from_bytes(vec![99]), None::<Arc<AcceptAll>>).unwrap();
    for i in 0..60u8 {
        let v = s.get(&key(&[i])).unwrap().map(|v| v.into_vec());
        let e = if i >= 50 {
            None
        } else if (10..20).contains(&i) {
            Some(vec![99])
        } else {
            Some(vec![i])
        };
        assert_eq!(v, e);
    }
}

#[test]
fn of_several_rows_the_last_one_counts() {
    let mut t = filled();
    t.put_range(vec![(vec![1], b"a".to_vec()), (vec![2], b"b".to_vec()), (vec![1], b"c".to_vec())])
        .unwrap();
    assert_eq!(t.get(vec![1]).unwrap(), Some(b"c".to_vec()));
    assert_eq!(t.get(vec![2]).unwrap(), Some(b"b".to_vec()));
}

#[test]
fn the_opposite_order_is_the_order_reversed() {
    let t = filled();
    let a = t.get_range(vec![3], vec![90], 7).unwrap().collect().unwrap();
    let mut b = t.get_range_reverse(vec![3], vec![90], 11).unwrap().collect().unwrap();
    b.reverse();
    assert_eq!(a, b);
    assert_eq!(a.len(), 87);
}

#[test]
fn a_search_back_finds_the_key_first() {
    let t = filled();
    let mut it = t.get_range_reverse(vec![3], vec![90], 5).unwrap();
    assert!(it.seek_for_prev(&vec![44]).unwrap());
    assert_eq!(it.next().unwrap(), Some((vec![44], vec![44; 2])));
}

#[test]
fn a_search_forward_starts_at_the_first_key() {
    let t = filled();
    let mut it = t.get_range(vec![], vec![90], 5).unwrap();
    assert!(it.seek(&vec![44, 0]).unwrap());
    assert_eq!(it.next().unwrap(), t.seek_gte(vec![44, 0]).unwrap());
    assert!(!it.seek(&vec![89, 0]).unwrap());
}

#[test]
fn keys_with_the_same_leading_bytes_share_a_shard() {
    let a = Partition::from_key(&key(b"ab1"), 2);
    let b = Partition::from_key(&key(b"ab2"), 2);
    assert_eq!(shard_index(&a.part_key, 64), shard_index(&b.part_key, 64));
    assert_eq!(a.first_key().into_vec(), b"ab".to_vec());
    assert_eq!(b.first_key().into_vec(), b"ab".to_vec());
    let between = Partition::from_key(&key(b"ab15"), 2);
    assert_eq!(between.first_key().into_vec(), b"ab".to_vec());
    let mut seen: Vec<usize> = (0..=255u8)
        .map(|n| shard_index(&Partition::from_key(&key(&[n, 0]), 2).part_key, 64))
        .collect();
    seen.sort();
    seen.dedup();
    assert!(seen.len() > 32);
}

#[test]
fn partitions_have_bounds() {
    let next = |b: &[u8]| {
        Partition::from_key(&key(b), 0).next().map(|p| p.first_key().into_vec())
    };
    assert_eq!(next(b"ab"), Some(b"ac".to_vec()));
    assert_eq!(next(&[1, 255]), Some(vec![2, 0]));
    assert_eq!(next(&[1, 7, 255, 255]), Some(vec![1, 8, 0, 0]));
    assert_eq!(next(&[255, 255]), None);
    assert_eq!(next(b""), None);
    let range = BtreeKeyRange::new(key(b"b"), true, key(b"d"), false);
    let p = Partition::from_range(&range, 1);
    assert_eq!(p.first_key().into_vec(), b"b".to_vec());
    assert!(!p.is_out_of_range(&range));
    assert!(Partition::from_key(&key(b"d"), 1).is_out_of_range(&range));
    assert_eq!(Partition::from_range(&range, 0).first_key().into_vec(), Vec::<u8>::new());
}

#[test]
fn two_entries_of_full_size_fit_into_a_node() {
    let config = BtreeConfig::new(300, "c".to_string());
    let longest = config.max_key_size() as usize;
    let largest = config.inline_value_size as usize;
    let mut t: homedb::btree::Btree<DbKey, DbValue, MemBtree> =
        homedb::btree::Btree::new(config, MemBtree::new(300), None).unwrap();
    for i in 0..30u8 {
        let r = t.put_one(
            &key(&vec![i; longest]),
            &DbValue::from_bytes(vec![i; largest]),
            None::<&AcceptAll>,
        );
        assert!(r.is_ok());
    }
    assert!(t.put_one(&key(&vec![1; longest + 1]), &DbValue::from_bytes(vec![]), None::<&AcceptAll>).is_err());
    for i in 0..30u8 {
        let v = t.get(&key(&vec![i; longest])).unwrap().unwrap();
        assert_eq!(v.into_vec(), vec![i; largest]);
    }
}
