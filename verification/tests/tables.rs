//! Tables, their indices and iterators.

use homedb::any_index::AnyIndex;
use homedb::record_ops::{PREFIX_NODE, VAR_KEY_NODE, VAR_OBJECT_NODE, VAR_VALUE_NODE};
use homedb::schema::{HomeDbError, KeySpec, KeyType, PrefixType, TableSpec, ValueSpec};
use homedb::table::Table;
use homedb::table_index::{IndexType, TableIndex};
use homedb::underlying::UnderlyingBtree;

fn spec(partition_key_size: usize) -> TableSpec {
    TableSpec {
        key_spec: KeySpec { key_type: KeyType::Variable(20), prefix_type: PrefixType::Plain },
        value_spec: ValueSpec::Variable(5000),
        node_size: 512,
        partition_key_size,
    }
}

fn fixed(key: usize, val: usize) -> TableSpec {
    TableSpec {
        key_spec: KeySpec { key_type: KeyType::Fixed(key), prefix_type: PrefixType::Plain },
        value_spec: ValueSpec::Fixed(val),
        node_size: 512,
        partition_key_size: 0,
    }
}

fn k(n: u32) -> Vec<u8> {
    n.to_be_bytes().to_vec()
}

#[test]
fn rows_come_back() {
    for p in [0usize, 1, 3] {
        let mut t = Table::new("users".to_string(), spec(p)).unwrap();
        for n in 0..300u32 {
            t.put(k(n), vec![n as u8; n as usize]).unwrap();
        }
        for n in 0..300u32 {
            assert_eq!(t.get(k(n)).unwrap(), Some(vec![n as u8; n as usize]));
        }
        assert_eq!(t.get(k(300)).unwrap(), None);
        assert_eq!(t.remove(k(7)).unwrap(), Some(vec![7; 7]));
        assert_eq!(t.remove(k(7)).unwrap(), None);
        assert_eq!(t.get(k(7)).unwrap(), None);
        assert_eq!(t.seek_gte(k(7)).unwrap(), Some((k(8), vec![8; 8])));
        assert_eq!(t.seek_gte(k(300)).unwrap(), None);
        assert_eq!(t.get_any(k(7), k(8)).unwrap(), None);
        assert_eq!(t.get_any(k(7), k(9)).unwrap(), Some((k(8), vec![8; 8])));
        assert_eq!(t.remove_any(k(7), k(9)).unwrap(), Some((k(8), vec![8; 8])));
        assert_eq!(t.remove_any(k(7), k(9)).unwrap(), None);
        assert_eq!(t.remove_range(k(0), k(10)).unwrap(), 8);
        assert_eq!(t.remove_range(k(0), k(10)).unwrap(), 0);
        assert_eq!(t.seek_gte(k(0)).unwrap(), Some((k(10), vec![10; 10])));
    }
}

#[test]
fn ranges_are_iterated_in_both_orders() {
    for p in [0usize, 1, 4] {
        let mut t = Table::new("t".to_string(), spec(p)).unwrap();
        for n in 0..200u32 {
            t.put(k(n * 70_000_000 % 4_000_000_007u64 as u32), k(n)).unwrap();
        }
        let mut keys: Vec<Vec<u8>> = (0..200u32).map(|n| k(n * 70_000_000 % 4_000_000_007u64 as u32)).collect();
        keys.sort();
        keys.dedup();
        for batch in [1u32, 3, 1000] {
            let it = t.get_range(k(0), vec![255; 20], batch).unwrap();
            let got: Vec<Vec<u8>> = it.collect().unwrap().into_iter().map(|e| e.0).collect();
            assert_eq!(got, keys);
            let it = t.get_range_reverse(k(0), vec![255; 20], batch).unwrap();
            let mut got: Vec<Vec<u8>> = it.collect().unwrap().into_iter().map(|e| e.0).collect();
            got.reverse();
            assert_eq!(got, keys);
        }
        let it = t.get_range(k(0), vec![255; 20], 0).unwrap();
        assert!(it.collect().unwrap().is_empty());
    }
}

#[test]
fn the_end_of_a_range_is_left_out() {
    let mut t = Table::new("t".to_string(), spec(0)).unwrap();
    for n in 0..10u32 {
        t.put(k(n), k(n)).unwrap();
    }
    let got: Vec<(Vec<u8>, Vec<u8>)> = t.get_range(k(2), k(5), 10).unwrap().collect().unwrap();
    assert_eq!(got, vec![(k(2), k(2)), (k(3), k(3)), (k(4), k(4))]);
    let got: Vec<(Vec<u8>, Vec<u8>)> = t.get_range_reverse(k(2), k(5), 10).unwrap().collect().unwrap();
    assert_eq!(got, vec![(k(4), k(4)), (k(3), k(3)), (k(2), k(2))]);
}

#[test]
fn iterators_seek() {
    for p in [0usize, 2] {
        let mut t = Table::new("t".to_string(), spec(p)).unwrap();
        for n in 0..50u32 {
            t.put(k(n * 2), k(n)).unwrap();
        }
        let mut it = t.get_range(k(0), k(60), 4).unwrap();
        assert_eq!(it.next().unwrap().unwrap().0, k(0));
        assert!(it.seek(&k(31)).unwrap());
        assert_eq!(it.next().unwrap().unwrap().0, k(32));
        assert!(it.seek(&k(4)).unwrap());
        assert_eq!(it.next().unwrap().unwrap().0, k(4));
        assert!(it.seek(&k(58)).unwrap());
        assert_eq!(it.next().unwrap().unwrap().0, k(58));
        assert_eq!(it.next().unwrap(), None);
        assert!(!it.seek(&k(59)).unwrap());
        assert_eq!(it.next().unwrap(), None);
        match it.seek_for_prev(&k(4)) {
            Err(HomeDbError::InvalidOperation(s)) => {
                assert_eq!(s, "seek_for_prev only valid for reverse iterators")
            }
            _ => panic!("an iterator in key order does not seek back"),
        }
        let mut it = t.get_range_reverse(k(10), k(60), 4).unwrap();
        assert_eq!(it.next().unwrap().unwrap().0, k(58));
        assert!(it.seek_for_prev(&k(20)).unwrap());
        assert_eq!(it.next().unwrap().unwrap().0, k(20));
        assert_eq!(it.next().unwrap().unwrap().0, k(18));
        assert!(it.seek_for_prev(&k(21)).unwrap());
        assert_eq!(it.next().unwrap().unwrap().0, k(20));
        assert!(!it.seek_for_prev(&k(9)).unwrap());
        assert_eq!(it.next().unwrap(), None);
    }
}

#[test]
fn several_rows_are_put_in_order() {
    let mut t = Table::new("t".to_string(), spec(0)).unwrap();
    t.put_range(vec![(k(1), k(1)), (k(2), k(2)), (k(1), k(3))]).unwrap();
    assert_eq!(t.get(k(1)).unwrap(), Some(k(3)));
    assert_eq!(t.get(k(2)).unwrap(), Some(k(2)));
    let r = t.put_range(vec![(k(4), k(4)), (vec![0; 21], k(5)), (k(6), k(6))]);
    assert!(matches!(r, Err(HomeDbError::KeyTooLarge { size: 21, max: 20 })));
    assert_eq!(t.get(k(4)).unwrap(), Some(k(4)));
    assert_eq!(t.get(k(6)).unwrap(), None);
}

#[test]
fn lengths_are_checked() {
    let mut t = Table::new("t".to_string(), fixed(4, 8)).unwrap();
    assert!(matches!(
        t.put(vec![1; 3], vec![0; 8]),
        Err(HomeDbError::InvalidKeySize { size: 3, expected: 4 })
    ));
    assert!(matches!(
        t.put(vec![1; 4], vec![0; 7]),
        Err(HomeDbError::InvalidValueSize { size: 7, expected: 8 })
    ));
    t.put(vec![1; 4], vec![0; 8]).unwrap();
    assert!(matches!(t.get(vec![1; 5]), Err(HomeDbError::InvalidKeySize { size: 5, expected: 4 })));
    assert!(matches!(t.remove(vec![]), Err(HomeDbError::InvalidKeySize { size: 0, expected: 4 })));
    assert!(matches!(t.seek_gte(vec![1]), Err(HomeDbError::InvalidKeySize { size: 1, expected: 4 })));
    assert!(matches!(
        t.get_range(vec![1; 4], vec![2; 2], 5),
        Err(HomeDbError::InvalidKeySize { size: 2, expected: 4 })
    ));
    assert!(matches!(
        t.get_any(vec![1; 6], vec![2; 2]),
        Err(HomeDbError::InvalidKeySize { size: 6, expected: 4 })
    ));
    assert!(matches!(
        t.remove_range(vec![1; 4], vec![]),
        Err(HomeDbError::InvalidKeySize { size: 0, expected: 4 })
    ));
    assert!(matches!(
        t.remove_any(vec![1; 4], vec![]),
        Err(HomeDbError::InvalidKeySize { size: 0, expected: 4 })
    ));

    let mut t = Table::new("t".to_string(), spec(0)).unwrap();
    assert!(matches!(
        t.put(vec![1; 4], vec![0; 5001]),
        Err(HomeDbError::ValueTooLarge { size: 5001, max: 5000 })
    ));
    assert!(matches!(
        t.put(vec![1; 21], vec![]),
        Err(HomeDbError::KeyTooLarge { size: 21, max: 20 })
    ));
}

#[test]
fn the_capacity_of_nodes_limits_keys() {
    // (512 - 60) / 2 - 6 - (512 - 60) / 4
    let mut s = spec(0);
    s.key_spec.key_type = KeyType::Variable(107);
    let mut i = TableIndex::new("i".to_string(), IndexType::Primary, s).unwrap();
    assert_eq!(i.max_key_size, 107);
    i.put(vec![3; 107], vec![]).unwrap();
    assert!(matches!(
        i.put(vec![3; 108], vec![]),
        Err(HomeDbError::KeyTooLarge { size: 108, max: 107 })
    ));
    s.key_spec.key_type = KeyType::Variable(108);
    match TableIndex::new("i".to_string(), IndexType::Primary, s) {
        Err(HomeDbError::Config(m)) => assert_eq!(
            m,
            "Key size 108 exceeds btree capacity 107 (node_size=512, inline_value_size=113)"
        ),
        _ => panic!("keys of 108 bytes do not fit"),
    }
    s.node_size = 60;
    match TableIndex::new("i".to_string(), IndexType::Primary, s) {
        Err(HomeDbError::Config(m)) => assert_eq!(
            m,
            "Key size 108 exceeds btree capacity 0 (node_size=60, inline_value_size=0)"
        ),
        _ => panic!("a node of 60 bytes has no room for keys"),
    }
    s.node_size = 59;
    match TableIndex::new("i".to_string(), IndexType::Primary, s) {
        Err(HomeDbError::BtreeError(m)) => assert_eq!(m, "Io(InvalidInput)"),
        _ => panic!("a node of 59 bytes has no room for its headers"),
    }
}

#[test]
fn node_variants_suit_the_lengths() {
    let mut s = fixed(4, 4);
    assert_eq!(TableIndex::determine_node_variant(&s), VAR_OBJECT_NODE);
    s.value_spec = ValueSpec::Variable(9);
    assert_eq!(TableIndex::determine_node_variant(&s), VAR_VALUE_NODE);
    s.key_spec.key_type = KeyType::Variable(9);
    assert_eq!(TableIndex::determine_node_variant(&s), VAR_OBJECT_NODE);
    s.value_spec = ValueSpec::Fixed(9);
    assert_eq!(TableIndex::determine_node_variant(&s), VAR_KEY_NODE);
    s.key_spec.prefix_type = PrefixType::Prefixable(Some(3));
    assert_eq!(TableIndex::determine_node_variant(&s), PREFIX_NODE);
    for variant in [PrefixType::Plain, PrefixType::Prefixable(None), PrefixType::Prefixable(Some(2))] {
        s.key_spec.prefix_type = variant;
        let mut i = TableIndex::new("i".to_string(), IndexType::Secondary, s).unwrap();
        for n in 0..200u32 {
            i.put(k(n), vec![1; 9]).unwrap();
        }
        assert_eq!(i.get(k(150)).unwrap(), Some(vec![1; 9]));
        assert_eq!(i.remove_range(k(0), k(1000)).unwrap(), 200);
    }
}

#[test]
fn partition_keys_choose_the_kind_of_index() {
    let i = TableIndex::new("i".to_string(), IndexType::Primary, spec(0)).unwrap();
    assert!(matches!(i.btree, AnyIndex::Unsharded(_)));
    let i = TableIndex::new("i".to_string(), IndexType::Primary, spec(3)).unwrap();
    match &i.btree {
        AnyIndex::Sharded(b) => {
            assert_eq!(b.partition_key_len, 3);
            assert_eq!(b.shards.len(), 64);
            assert_eq!(b.shards[7].config.btree_name, "i_7");
        }
        AnyIndex::Unsharded(_) => panic!("partitions ask for shards"),
    }
}

#[test]
fn leaves_have_the_variant_of_the_specification() {
    let leaf = |s: TableSpec| {
        let i = TableIndex::new("i".to_string(), IndexType::Primary, s).unwrap();
        match &i.btree {
            AnyIndex::Unsharded(b) => {
                let root = b.btree.storage.read_node(b.btree.root_node_id).unwrap();
                assert_eq!(b.btree.storage.root_node_id(), b.btree.root_node_id);
                (b.btree.config.leaf_node_variant, root.header.node_variant)
            }
            AnyIndex::Sharded(_) => panic!("there are no partitions"),
        }
    };
    let mut s = fixed(4, 4);
    s.node_size = 512;
    s.partition_key_size = 0;
    assert_eq!(leaf(s), (VAR_OBJECT_NODE, VAR_OBJECT_NODE));
    s.value_spec = ValueSpec::Variable(300);
    assert_eq!(leaf(s), (VAR_VALUE_NODE, VAR_VALUE_NODE));
    let mut i = TableIndex::new("i".to_string(), IndexType::Primary, s).unwrap();
    for n in 0..300u32 {
        i.put(n.to_be_bytes().to_vec(), vec![n as u8; n as usize]).unwrap();
    }
    for n in 0..300u32 {
        let v = i.get(n.to_be_bytes().to_vec()).unwrap();
        assert_eq!(v, Some(vec![n as u8; n as usize]));
    }
    s.key_spec.key_type = KeyType::Variable(9);
    s.value_spec = ValueSpec::Fixed(10);
    assert_eq!(leaf(s), (VAR_KEY_NODE, VAR_KEY_NODE));
    // values that do not stay in the nodes need a mark in the records
    s.value_spec = ValueSpec::Fixed(1000);
    assert_eq!(leaf(s), (VAR_KEY_NODE, VAR_KEY_NODE));
}

#[test]
fn indices_are_made_and_dropped() {
    let mut t = Table::new("users".to_string(), spec(0)).unwrap();
    assert_eq!(t.name(), "users");
    assert_eq!(t.spec(), &spec(0));
    assert_eq!(t.primary_index().name(), "users_primary");
    assert_eq!(t.primary_index().index_type(), IndexType::Primary);
    assert_eq!(t.list_indices(), vec!["primary".to_string()]);

    t.create_index("email", spec(2)).unwrap();
    t.create_index("age", fixed(1, 4)).unwrap();
    let mut names = t.list_indices();
    names.sort();
    assert_eq!(names, vec!["age".to_string(), "email".to_string(), "primary".to_string()]);
    let email = t.get_index("email").unwrap();
    assert_eq!(email.name(), "users_email");
    assert_eq!(email.index_type(), IndexType::Secondary);
    assert_eq!(email.spec(), &spec(2));

    match t.create_index("email", spec(0)) {
        Err(HomeDbError::InvalidConfig(m)) => {
            assert_eq!(m, "Index 'email' already exists on table 'users'")
        }
        _ => panic!("the name is taken"),
    }
    let mut bad = spec(0);
    bad.key_spec.key_type = KeyType::Fixed(500);
    assert!(matches!(t.create_index("bad", bad), Err(HomeDbError::Config(_))));
    match t.get_index("bad") {
        Err(HomeDbError::InvalidConfig(m)) => {
            assert_eq!(m, "Index 'bad' not found on table 'users'")
        }
        _ => panic!("there is no such index"),
    }
    assert!(t.get_index_mut("bad").is_err());

    t.get_index_mut("age").unwrap().put(vec![42], k(1)).unwrap();
    assert_eq!(t.get_index("age").unwrap().get(vec![42]).unwrap(), Some(k(1)));
    assert_eq!(t.get_index("email").unwrap().get(vec![42]).unwrap(), None);
    assert_eq!(t.get(vec![42]).unwrap(), None);

    match t.drop_index("primary") {
        Err(HomeDbError::InvalidConfig(m)) => assert_eq!(m, "Cannot drop primary index"),
        _ => panic!("the primary index stays"),
    }
    t.drop_index("email").unwrap();
    match t.drop_index("email") {
        Err(HomeDbError::InvalidConfig(m)) => {
            assert_eq!(m, "Index 'email' not found on table 'users'")
        }
        _ => panic!("there is no such index"),
    }
    assert_eq!(t.get_index("age").unwrap().get(vec![42]).unwrap(), Some(k(1)));
    t.create_index("email", spec(0)).unwrap();
    assert_eq!(t.get_index("email").unwrap().get(vec![42]).unwrap(), None);
    assert_eq!(t.get_index("primary").unwrap().name(), "users_primary");
}
