//! Trees compared with an ordered map of the standard library.

use homedb::btree::Btree;
use homedb::btree_config::BtreeConfig;
use homedb::btree_kvs::ValueOrOverflow;
use homedb::btree_req::{AcceptAll, BtreeKeyRange};
use homedb::btree_types::MergePolicy;
use homedb::db_kv::{DbKey, DbValue};
use homedb::put::PutResult;
use homedb::underlying::{MemBtree, UnderlyingBtree};
use std::collections::BTreeMap;
use std::ops::Bound;
use std::sync::Arc;

type Tree = Btree<DbKey, DbValue, MemBtree>;
type Model = BTreeMap<Vec<u8>, Vec<u8>>;

fn key(b: &[u8]) -> DbKey {
    DbKey::from_bytes(b.to_vec())
}

fn value(b: &[u8]) -> DbValue {
    DbValue::from_bytes(b.to_vec())
}

fn tree(node_size: u32, variant: u8) -> Tree {
    let mut config = BtreeConfig::new(node_size, "t".to_string());
    config.leaf_node_variant = variant;
    config.int_node_variant = variant;
    Btree::new(config, MemBtree::new(node_size as usize), None).unwrap()
}

/// A small generator of numbers that look random.
fn step(x: &mut u64) -> u64 {
    *x ^= *x << 13;
    *x ^= *x >> 7;
    *x ^= *x << 17;
    *x
}

fn entries(t: &Tree) -> Vec<(Vec<u8>, Vec<u8>)> {
    let range = BtreeKeyRange::new(key(b""), true, key(&[0xff; 40]), true);
    let h = t.query(range, 1_000_000, None::<Arc<AcceptAll>>).unwrap();
    assert!(!h.has_more());
    h.results.iter().map(|(k, v)| (k.as_bytes().clone(), v.as_bytes().clone())).collect()
}

fn pairs(m: &Model) -> Vec<(Vec<u8>, Vec<u8>)> {
    m.iter().map(|(k, v)| (k.clone(), v.clone())).collect()
}

fn random_run(node_size: u32, variant: u8, seed: u64, rounds: usize, keys: u64) {
    let mut t = tree(node_size, variant);
    let mut m: Model = BTreeMap::new();
    let mut x = seed;
    for round in 0..rounds {
        let n = step(&mut x) % keys;
        let k = format!("key{:0width$}", n, width = (n % 7) as usize).into_bytes();
        match step(&mut x) % 10 {
            0..=5 => {
                let len = (step(&mut x) % 60) as usize;
                let v = vec![(n % 251) as u8; len];
                let r = t.put_one(&key(&k), &value(&v), None::<&AcceptAll>).unwrap();
                let old = m.insert(k, v);
                assert_eq!(r == PutResult::Updated, old.is_some());
                assert_eq!(r == PutResult::Success, old.is_none());
            }
            6..=7 => {
                let r = t.remove_one(&key(&k), None::<&AcceptAll>).unwrap();
                assert_eq!(r.map(|v| v.into_vec()), m.remove(&k));
            }
            8 => {
                let r = t.get(&key(&k)).unwrap();
                assert_eq!(r.map(|v| v.into_vec()), m.get(&k).cloned());
            }
            _ => {
                let r = t.seek_gte(&key(&k)).unwrap();
                let e = m.range(k..).next();
                assert_eq!(
                    r.map(|(a, b)| (a.into_vec(), b.into_vec())),
                    e.map(|(a, b)| (a.clone(), b.clone()))
                );
            }
        }
        if round % 97 == 0 {
            assert_eq!(entries(&t), pairs(&m));
        }
    }
    assert_eq!(entries(&t), pairs(&m));
    let ks: Vec<Vec<u8>> = m.keys().cloned().collect();
    for k in ks {
        assert!(t.remove_one(&key(&k), None::<&AcceptAll>).unwrap().is_some());
    }
    assert!(entries(&t).is_empty());
}

/// The ids of the nodes of a tree, and those of the overflow records that it refers to.
fn used_ids(t: &Tree) -> (Vec<u64>, Vec<u64>) {
    let mut nodes = Vec::new();
    let mut records = Vec::new();
    let mut open = vec![t.root_node_id];
    while let Some(id) = open.pop() {
        nodes.push(id);
        let c = t.storage.read_node(id).unwrap();
        let variant = if c.is_leaf() {
            t.config.leaf_node_variant
        } else {
            t.config.int_node_variant
        };
        assert_eq!(c.header.node_variant, variant);
        if c.is_leaf() {
            for (_, v) in t.leaf_ops.get_all_kvs::<DbKey, DbValue>(&c) {
                if let ValueOrOverflow::Overflow(id) = v {
                    records.push(id);
                }
            }
        } else {
            for (_, v) in t.int_ops.get_all_kvs::<DbKey, u64>(&c) {
                if let ValueOrOverflow::Inline(id) = v {
                    open.push(id);
                }
            }
            if c.has_valid_edge() {
                open.push(c.header.edge_id);
            }
        }
    }
    nodes.sort();
    records.sort();
    (nodes, records)
}

fn stored_ids(t: &Tree, upto: u64) -> (Vec<u64>, Vec<u64>) {
    (
        (1..upto).filter(|id| t.storage.read_node(*id).is_ok()).collect(),
        (1..upto).filter(|id| t.storage.read_overflow(*id).is_ok()).collect(),
    )
}

#[test]
fn nothing_is_left_behind_in_the_storage() {
    for policy in [MergePolicy::Aggressive, MergePolicy::Conservative, MergePolicy::Never] {
        let mut config = BtreeConfig::new(256, "t".to_string());
        config.merge_policy = policy;
        config.leaf_node_variant = 2;
        config.int_node_variant = 1;
        let mut t: Tree = Btree::new(config, MemBtree::new(256), None).unwrap();
        let mut x = 99;
        for round in 0..1500 {
            let n = (step(&mut x) % 90) as u8;
            let len = (step(&mut x) % 300) as usize;
            match step(&mut x) % 4 {
                0 | 1 => {
                    t.put_one(&key(&[n]), &value(&vec![n; len]), None::<&AcceptAll>).unwrap();
                }
                2 => {
                    t.remove_one(&key(&[n]), None::<&AcceptAll>).unwrap();
                }
                _ => {
                    let range = BtreeKeyRange::new(key(&[n]), true, key(&[n + 7]), false);
                    t.remove_range(range, None::<&AcceptAll>).unwrap();
                }
            }
            assert_eq!(t.storage.root_node_id(), t.root_node_id);
            if round % 50 == 0 {
                assert_eq!(used_ids(&t), stored_ids(&t, 4000));
            }
        }
        assert_eq!(used_ids(&t), stored_ids(&t, 4000));
    }
}

#[test]
fn the_root_has_the_variant_of_the_configuration() {
    for leaf in 1..=4u8 {
        let mut config = BtreeConfig::new(256, "t".to_string());
        config.leaf_node_variant = leaf;
        let t: Tree = Btree::new(config, MemBtree::new(256), None).unwrap();
        let root = t.storage.read_node(t.root_node_id).unwrap();
        assert!(root.is_leaf());
        assert_eq!(root.header.node_variant, leaf);
    }
}

#[test]
fn small_leaves_become_one() {
    let mut config = BtreeConfig::new(256, "t".to_string());
    config.merge_policy = MergePolicy::Aggressive;
    let mut t: Tree = Btree::new(config, MemBtree::new(256), None).unwrap();
    for n in 0..12u8 {
        t.put_one(&key(&[n]), &value(&[n; 30]), None::<&AcceptAll>).unwrap();
    }
    assert!(!t.storage.read_node(t.root_node_id).unwrap().is_leaf());
    for n in 0..12u8 {
        if n % 4 != 0 {
            t.remove_one(&key(&[n]), None::<&AcceptAll>).unwrap();
        }
    }
    for n in 0..12u8 {
        t.remove_one(&key(&[100 + n]), None::<&AcceptAll>).unwrap();
        t.remove_one(&key(&[n + 1]), None::<&AcceptAll>).unwrap();
    }
    assert_eq!(entries(&t), vec![(vec![0], vec![0; 30])]);
    assert_eq!(used_ids(&t), stored_ids(&t, 100));
}

#[test]
fn tree_follows_an_ordered_map() {
    random_run(256, 3, 0x1234_5678_9abc_def1, 6000, 700);
}

#[test]
fn tree_with_larger_nodes_follows_an_ordered_map() {
    random_run(1024, 4, 0x9e37_79b9_7f4a_7c15, 6000, 2000);
}

#[test]
fn tree_with_small_nodes_follows_an_ordered_map() {
    random_run(160, 1, 77, 3000, 300);
}

#[test]
fn ascending_and_descending_keys() {
    for descending in [false, true] {
        let mut t = tree(256, 3);
        let mut m: Model = BTreeMap::new();
        for i in 0..2000u32 {
            let n = if descending { 2000 - i } else { i };
            let k = n.to_be_bytes().to_vec();
            let v = n.to_le_bytes().to_vec();
            let _ = t.put_one(&key(&k), &value(&v), None::<&AcceptAll>).unwrap();
            m.insert(k, v);
        }
        assert_eq!(entries(&t), pairs(&m));
    }
}

fn filled(n: u32) -> (Tree, Model) {
    let mut t = tree(256, 3);
    let mut m: Model = BTreeMap::new();
    for i in 0..n {
        let k = (i * 3).to_be_bytes().to_vec();
        let v = vec![(i % 256) as u8; (i % 50) as usize];
        let _ = t.put_one(&key(&k), &value(&v), None::<&AcceptAll>).unwrap();
        m.insert(k, v);
    }
    (t, m)
}

#[test]
fn range_queries_in_batches() {
    let (t, m) = filled(500);
    for (lo, hi) in [(0u32, 1500u32), (7, 8), (300, 301), (100, 900), (900, 100), (1499, 9999)] {
        for (li, hi_incl) in [(true, true), (true, false), (false, true), (false, false)] {
            let (a, b) = (lo.to_be_bytes().to_vec(), hi.to_be_bytes().to_vec());
            let expected: Vec<(Vec<u8>, Vec<u8>)> = m
                .iter()
                .filter(|(k, _)| {
                    (if li { **k >= a } else { **k > a }) && (if hi_incl { **k <= b } else { **k < b })
                })
                .map(|(k, v)| (k.clone(), v.clone()))
                .collect();
            for batch in [1u32, 2, 7, 1000] {
                for reverse in [false, true] {
                    let range = BtreeKeyRange::new(key(&a), li, key(&b), hi_incl);
                    let mut h = if reverse {
                        t.query_traversal(range, batch, None::<Arc<AcceptAll>>, true).unwrap()
                    } else {
                        t.query(range, batch, None::<Arc<AcceptAll>>).unwrap()
                    };
                    let mut got = Vec::new();
                    loop {
                        assert!(h.results.len() <= batch as usize);
                        for (k, v) in &h.results {
                            got.push((k.as_bytes().clone(), v.as_bytes().clone()));
                        }
                        if !h.has_more() {
                            break;
                        }
                        h = t.query_next_batch(h).unwrap();
                    }
                    let mut e = expected.clone();
                    if reverse {
                        e.reverse();
                    }
                    assert_eq!(got, e);
                }
            }
        }
    }
}

#[test]
fn forward_traversal_gives_the_same_as_a_sweep() {
    let (t, m) = filled(300);
    let range = || BtreeKeyRange::new(key(b""), true, key(&[0xff; 8]), true);
    let a = t.query(range(), 10_000, None::<Arc<AcceptAll>>).unwrap();
    let b = t.query_traversal(range(), 10_000, None::<Arc<AcceptAll>>, false).unwrap();
    assert_eq!(a.results.len(), m.len());
    assert_eq!(b.results.len(), m.len());
    for i in 0..m.len() {
        assert_eq!(a.results[i].0.as_bytes(), b.results[i].0.as_bytes());
    }
}

#[test]
fn a_batch_of_none_is_empty_and_the_last() {
    let (t, _) = filled(50);
    let range = BtreeKeyRange::new(key(b""), true, key(&[0xff; 8]), true);
    let h = t.query(range, 0, None::<Arc<AcceptAll>>).unwrap();
    assert_eq!(h.results.len(), 0);
    assert!(!h.has_more());
    let n = t.query_next_batch(h).unwrap();
    assert_eq!(n.results.len(), 0);
    assert!(!n.has_more());
}

#[test]
fn removed_ranges_are_counted() {
    let (mut t, mut m) = filled(800);
    for (lo, hi) in [(30u32, 600u32), (0, 9), (1000, 5000), (700, 700)] {
        let (a, b) = (lo.to_be_bytes().to_vec(), hi.to_be_bytes().to_vec());
        let range = BtreeKeyRange::new(key(&a), true, key(&b), false);
        let n = t.remove_range(range, None::<&AcceptAll>).unwrap();
        let gone: Vec<Vec<u8>> = if a < b {
            m.range((Bound::Included(a), Bound::Excluded(b))).map(|(k, _)| k.clone()).collect()
        } else {
            Vec::new()
        };
        assert_eq!(n as usize, gone.len());
        for k in gone {
            m.remove(&k);
        }
        assert_eq!(entries(&t), pairs(&m));
    }
}

#[test]
fn any_entry_of_a_range() {
    let (mut t, mut m) = filled(60);
    let e = t.get_any(&key(&30u32.to_be_bytes()), &key(&50u32.to_be_bytes())).unwrap().unwrap();
    assert_eq!(e.0.as_bytes(), &30u32.to_be_bytes().to_vec());
    assert!(t.get_any(&key(&31u32.to_be_bytes()), &key(&33u32.to_be_bytes())).unwrap().is_none());
    let range = || BtreeKeyRange::new(key(&31u32.to_be_bytes()), true, key(&90u32.to_be_bytes()), true);
    let mut n = 0;
    while let Some((k, v)) = t.remove_any(range()).unwrap() {
        assert_eq!(m.remove(k.as_bytes()), Some(v.into_vec()));
        n += 1;
    }
    assert_eq!(n, 20);
    assert_eq!(entries(&t), pairs(&m));
}

#[test]
fn long_values_go_to_overflow_records() {
    let mut t = tree(256, 3);
    for i in 0..40u8 {
        let v = vec![i; 1000 + i as usize];
        let _ = t.put_one(&key(&[i]), &value(&v), None::<&AcceptAll>).unwrap();
    }
    for i in 0..40u8 {
        let v = t.get(&key(&[i])).unwrap().unwrap();
        assert_eq!(v.into_vec(), vec![i; 1000 + i as usize]);
    }
    for i in 0..40u8 {
        let _ = t.put_one(&key(&[i]), &value(&[i]), None::<&AcceptAll>).unwrap();
        assert_eq!(t.get(&key(&[i])).unwrap().unwrap().into_vec(), vec![i]);
    }
}

#[test]
fn a_value_is_put_over_the_keys_of_a_range() {
    let (mut t, mut m) = filled(400);
    let (a, b) = (100u32.to_be_bytes().to_vec(), 700u32.to_be_bytes().to_vec());
    let range = BtreeKeyRange::new(key(&a), false, key(&b), true);
    let v = vec![9u8; 45];
    t.put_range(range, &value(&v), None::<&AcceptAll>).unwrap();
    for (k, x) in m.iter_mut() {
        if *k > a && *k <= b {
            *x = v.clone();
        }
    }
    assert_eq!(entries(&t), pairs(&m));
}

/// Puts keys until the tree has a root with two leaves, removes all but the last three, and
/// answers how many nodes there are.
fn nodes_left(policy: MergePolicy) -> usize {
    let mut config = BtreeConfig::new(512, "t".to_string());
    config.merge_policy = policy;
    let mut t: Tree = Btree::new(config, MemBtree::new(512), None).unwrap();
    let nodes = |t: &Tree| (1..100u64).filter(|id| t.storage.read_node(*id).is_ok()).count();
    let mut n = 0u8;
    assert_eq!(nodes(&t), 1);
    while nodes(&t) < 3 {
        let _ = t.put_one(&key(&[n]), &value(&[]), None::<&AcceptAll>).unwrap();
        n += 1;
    }
    assert_eq!(nodes(&t), 3);
    for i in 0..n - 3 {
        let old = t.remove_one(&key(&[i]), None::<&AcceptAll>).unwrap();
        assert_eq!(old.map(|v| v.into_vec()), Some(Vec::new()));
    }
    let left: Vec<u8> = entries(&t).iter().map(|(k, _)| k[0]).collect();
    assert_eq!(left, vec![n - 3, n - 2, n - 1]);
    nodes(&t)
}

#[test]
fn leaves_that_fit_together_are_merged() {
    assert_eq!(nodes_left(MergePolicy::Aggressive), 1);
    assert_eq!(nodes_left(MergePolicy::Conservative), 1);
}

#[test]
fn without_merges_nodes_stay() {
    assert_eq!(nodes_left(MergePolicy::Never), 3);
}
