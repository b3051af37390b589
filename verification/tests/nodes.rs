//! Records, node buffers and configurations.

use homedb::btree_config::BtreeConfig;
use homedb::btree_kvs::{BtreeKey, BtreeValue, ValueOrOverflow, EMPTY_BNODEID};
use homedb::btree_node::NodeCore;
use homedb::btree_req::BtreeKeyRange;
use homedb::btree_types::{BtreeError, BtreePutType, IoErrorKind};
use homedb::db_kv::{DbKey, DbValue};
use homedb::record_ops::{RecordPolicy, VAR_OBJECT_NODE};
use homedb::underlying::{MemBtree, UnderlyingBtree};
use homedb::var_node_ops::VarNodeOps;
use homedb::varlen_node_common::{
    get_arena_free_space, get_record_ptr, get_var_header, RecordHeader, VarKeyRecord, VarNodeHeader, VarObjRecord,
    VarRecordOps, VarValueRecord,
};

type Ops = VarNodeOps<RecordPolicy>;

fn key(b: &[u8]) -> DbKey {
    DbKey::from_bytes(b.to_vec())
}

fn inline(b: &[u8]) -> ValueOrOverflow<DbValue> {
    ValueOrOverflow::Inline(DbValue::from_bytes(b.to_vec()))
}

fn ops() -> Ops {
    VarNodeOps::new(RecordPolicy::VarObject { variant: VAR_OBJECT_NODE })
}

fn node(size: usize, leaf: bool) -> NodeCore {
    let mut c = MemBtree::new(size).create_node(leaf, VAR_OBJECT_NODE).unwrap();
    ops().init_new_node::<DbKey, DbValue>(&mut c);
    c
}

fn put(c: &mut NodeCore, idx: u32, k: &[u8], v: &[u8]) -> Result<(), BtreeError> {
    ops().insert::<DbKey, DbValue>(c, idx, &key(k), &inline(v))
}

fn entries(c: &NodeCore) -> Vec<(Vec<u8>, Vec<u8>)> {
    ops()
        .get_all_kvs::<DbKey, DbValue>(c)
        .into_iter()
        .map(|(k, v)| match v {
            ValueOrOverflow::Inline(v) => (k.into_vec(), v.into_vec()),
            ValueOrOverflow::Overflow(id) => (k.into_vec(), id.to_le_bytes().to_vec()),
        })
        .collect()
}

fn pair(k: &[u8], v: &[u8]) -> (Vec<u8>, Vec<u8>) {
    (k.to_vec(), v.to_vec())
}

#[test]
fn records_have_their_sizes() {
    assert_eq!(VarNodeHeader::size(), 4);
    assert_eq!(VarKeyRecord::size(), 4);
    assert_eq!(VarValueRecord::size(), 4);
    assert_eq!(VarObjRecord::size(), 6);
    assert_eq!(Ops::get_overhead_size(), (60, 2));
    let mut h = VarNodeHeader { tail_arena_offset: 0, available_space: 0 };
    h.init(512);
    assert_eq!(h.tail_arena_offset, 512);
    assert_eq!(h.available_space, 452);
}

#[test]
fn value_lengths_and_overflow_marks_are_packed() {
    let mut r = VarValueRecord { header: RecordHeader { obj_offset: 9 }, value_len_packed: 0 };
    r.set_value_len_tuple(0x7fff, true);
    assert_eq!(r.value_len_packed, 0xffff);
    assert_eq!(r.get_value_len_tuple(), (0x7fff, true));
    r.set_is_overflow(false);
    assert_eq!(r.value_len(), 0x7fff);
    assert!(!r.is_overflow());
    r.set_is_overflow(true);
    r.set_value_len(3);
    assert_eq!(r.value_len_packed, 0x8003);
    r.set_obj_offset(70);
    assert_eq!(r.obj_offset(), 70);

    let mut o = VarObjRecord { header: RecordHeader { obj_offset: 1 }, key_len: 2, value_len_packed: 0 };
    o.set_key_len(17);
    o.set_value_len_tuple(5, true);
    assert_eq!(o.key_len(), 17);
    assert_eq!(o.get_value_len_tuple(), (5, true));
    o.set_value_len(6);
    assert_eq!((o.value_len(), o.is_overflow()), (6, true));
    o.set_is_overflow(false);
    assert_eq!(o.value_len_packed, 6);

    let bytes = vec![0xaa, 0x34, 0x12, 0x05, 0x00, 0x08, 0x80];
    let k = VarKeyRecord::from_bytes(&bytes, 1);
    assert_eq!((k.header.obj_offset(), k.key_len()), (0x1234, 5));
    let o = VarObjRecord::from_bytes(&bytes, 1);
    assert_eq!(o.get_value_len_tuple(), (8, true));
}

#[test]
fn policies_name_their_variants() {
    assert_eq!(RecordPolicy::VarKey { value_size: 8 }.node_variant_type(), 1);
    assert_eq!(RecordPolicy::VarValue { key_size: 8 }.node_variant_type(), 2);
    assert_eq!(RecordPolicy::VarObject { variant: 3 }.node_variant_type(), 3);
    assert_eq!(RecordPolicy::VarKey { value_size: 8 }.record_size(), 4);
    assert_eq!(RecordPolicy::VarObject { variant: 4 }.record_size(), 6);
}

#[test]
fn entries_are_inserted_and_removed() {
    let mut c = node(200, true);
    assert_eq!(ops().available_size::<DbKey, DbValue>(&c), 140);
    put(&mut c, 0, b"b", b"22").unwrap();
    put(&mut c, 0, b"a", b"1").unwrap();
    put(&mut c, 2, b"dd", b"").unwrap();
    put(&mut c, 2, b"c", b"333").unwrap();
    assert_eq!(
        entries(&c),
        vec![pair(b"a", b"1"), pair(b"b", b"22"), pair(b"c", b"333"), pair(b"dd", b"")]
    );
    assert_eq!(c.header.nentries, 4);
    assert_eq!(c.header.node_gen, 4);
    assert_eq!(ops().available_size::<DbKey, DbValue>(&c), 140 - 4 * 6 - 11);
    assert_eq!(ops().occupied_size::<DbKey, DbValue>(&c), 4 + 4 * 6 + 11);
    assert_eq!(ops().get_entries_size::<DbKey, DbValue>(&c, 1, 3), 12 + 7);
    assert!(matches!(put(&mut c, 9, b"x", b"y"), Err(BtreeError::Io(IoErrorKind::InvalidInput))));
    assert!(matches!(
        put(&mut c, 0, b"x", &[7; 100]),
        Err(BtreeError::Io(IoErrorKind::OutOfMemory))
    ));
    assert_eq!(c.header.nentries, 4);

    ops().remove::<DbKey, DbValue>(&mut c, 1).unwrap();
    assert_eq!(entries(&c), vec![pair(b"a", b"1"), pair(b"c", b"333"), pair(b"dd", b"")]);
    ops().remove_range::<DbKey, DbValue>(&mut c, 0, 1).unwrap();
    assert_eq!(entries(&c), vec![pair(b"dd", b"")]);
    ops().remove_all::<DbKey, DbValue>(&mut c);
    assert!(entries(&c).is_empty());
    assert_eq!(ops().available_size::<DbKey, DbValue>(&c), 140);
}

#[test]
fn room_is_what_is_free_in_all() {
    let mut c = node(160, true);
    // 100 bytes in all
    put(&mut c, 0, b"a", &[1; 23]).unwrap();
    put(&mut c, 1, b"b", &[2; 23]).unwrap();
    put(&mut c, 2, b"c", &[3; 23]).unwrap();
    assert_eq!(ops().available_size::<DbKey, DbValue>(&c), 10);
    ops().remove::<DbKey, DbValue>(&mut c, 1).unwrap();
    assert_eq!(ops().available_size::<DbKey, DbValue>(&c), 40);
    assert_eq!(get_arena_free_space(&c, 6), 16);
    assert_eq!(get_arena_free_space(&c, 8), 12);
    assert_eq!(get_arena_free_space(&c, 14), 0);
    assert_eq!(get_arena_free_space(&c, usize::MAX), 0);
    assert_eq!(get_record_ptr(&c, 3, 10), 90);
    let room = |t: BtreePutType, v: u32| ops().has_room_for_put::<DbKey, DbValue>(&c, t, 1, v);
    assert!(room(BtreePutType::Insert, 33));
    assert!(!room(BtreePutType::Insert, 34));
    assert!(room(BtreePutType::Update, 39));
    assert!(!room(BtreePutType::Update, 40));
    assert!(room(BtreePutType::Upsert, 33));
    assert!(!room(BtreePutType::Upsert, 34));

    let mut d = c.copy();
    ops().compact::<DbKey, DbValue>(&mut d);
    assert_eq!(entries(&d), entries(&c));
    assert_eq!(get_arena_free_space(&d, 6), 40);
    assert_eq!(get_var_header(&d).tail_arena_offset, 160 - 48);
    let packed = d.phys_buf.clone();
    ops().compact::<DbKey, DbValue>(&mut d);
    assert_eq!(d.phys_buf, packed);
    assert_eq!(entries(&d), entries(&c));
    // an insert packs the data where it has to
    put(&mut c, 1, b"b", &[4; 33]).unwrap();
    assert_eq!(entries(&c), vec![pair(b"a", &[1; 23]), pair(b"b", &[4; 33]), pair(b"c", &[3; 23])]);
    assert_eq!(ops().available_size::<DbKey, DbValue>(&c), 0);
}

#[test]
fn entries_that_no_record_describes_are_refused() {
    let mut c = node(160, true);
    let before = c.phys_buf.clone();
    assert_eq!(put(&mut c, 0, b"a", &[1; 0x9000]), Err(BtreeError::Io(IoErrorKind::OutOfMemory)));
    assert_eq!(put(&mut c, 0, &[7; 0x12345], b""), Err(BtreeError::Io(IoErrorKind::OutOfMemory)));
    assert_eq!(c.phys_buf, before);
    put(&mut c, 0, b"a", &[1; 10]).unwrap();
    let r = ops().update::<DbKey, DbValue>(&mut c, 0, &inline(&[2; 0x9000]));
    assert_eq!(r, Err(BtreeError::Io(IoErrorKind::OutOfMemory)));
    // the old entry is gone by then
    assert_eq!(entries(&c), vec![]);
}

#[test]
fn entries_are_updated() {
    let mut c = node(160, true);
    put(&mut c, 0, b"a", b"one").unwrap();
    put(&mut c, 1, b"b", b"two").unwrap();
    ops().update::<DbKey, DbValue>(&mut c, 0, &inline(b"1")).unwrap();
    ops().update::<DbKey, DbValue>(&mut c, 1, &inline(&[9; 60])).unwrap();
    assert_eq!(entries(&c), vec![pair(b"a", b"1"), pair(b"b", &[9; 60])]);
    ops().update_with_key::<DbKey, DbValue>(&mut c, 0, &key(b"aa"), &inline(b"11")).unwrap();
    assert_eq!(entries(&c), vec![pair(b"aa", b"11"), pair(b"b", &[9; 60])]);
    ops().update::<DbKey, DbValue>(&mut c, 0, &ValueOrOverflow::Overflow(77)).unwrap();
    assert!(ops().is_nth_value_overflow::<DbKey, DbValue>(&c, 0));
    assert!(!ops().is_nth_value_overflow::<DbKey, DbValue>(&c, 1));
    assert!(matches!(
        ops().get_nth_value::<DbKey, DbValue>(&c, 0),
        ValueOrOverflow::Overflow(77)
    ));
}

#[test]
fn entries_move_to_the_right() {
    let fill = |c: &mut NodeCore, from: u8, n: u8| {
        for i in 0..n {
            put(c, i as u32, &[from + i], &[from + i; 3]).unwrap();
        }
    };
    let (mut a, mut b) = (node(200, true), node(200, true));
    fill(&mut a, 10, 8);
    fill(&mut b, 30, 2);
    assert_eq!(ops().move_out_to_right_by_entries::<DbKey, DbValue>(&mut a, &mut b, 3), 3);
    assert_eq!(a.header.nentries, 5);
    let ks: Vec<Vec<u8>> = entries(&b).into_iter().map(|e| e.0).collect();
    assert_eq!(ks, vec![vec![15], vec![16], vec![17], vec![30], vec![31]]);

    // ten bytes per entry
    assert_eq!(ops().move_out_to_right_by_size::<DbKey, DbValue>(&mut a, &mut b, 25), 2);
    assert_eq!(a.header.nentries, 3);
    assert_eq!(b.header.nentries, 7);
    assert_eq!(ops().move_out_to_right_by_entries::<DbKey, DbValue>(&mut a, &mut b, 0), 0);
    assert_eq!(ops().move_out_to_right_by_entries::<DbKey, DbValue>(&mut a, &mut b, 99), 3);
    assert_eq!(a.header.nentries, 0);
    let ks: Vec<Vec<u8>> = entries(&b).into_iter().map(|e| e.0).collect();
    assert_eq!(ks[0], vec![10]);
    assert_eq!(ks.len(), 10);
}

#[test]
fn entries_are_copied_behind_the_last_one() {
    let (mut a, mut b) = (node(200, true), node(200, true));
    for i in 0..6u8 {
        put(&mut b, i as u32, &[i], &[i; 3]).unwrap();
    }
    assert_eq!(ops().copy_by_size::<DbKey, DbValue>(&mut a, &b, 1, 29), 2);
    assert_eq!(entries(&a), vec![pair(&[1], &[1; 3]), pair(&[2], &[2; 3])]);
    let mut cursor: u32 = 3;
    // 24 bytes are in use, and ten more are allowed
    assert!(ops().append_copy_in_upto_size::<DbKey, DbValue>(&mut a, &b, &mut cursor, 34, true));
    assert_eq!((cursor, a.header.nentries), (3, 2));
    assert!(ops().append_copy_in_upto_size::<DbKey, DbValue>(&mut a, &b, &mut cursor, 34, false));
    assert_eq!((cursor, a.header.nentries), (4, 3));
    assert!(ops().append_copy_in_upto_size::<DbKey, DbValue>(&mut a, &b, &mut cursor, 34, false));
    assert_eq!((cursor, a.header.nentries), (4, 3));
    assert!(!ops().append_copy_in_upto_size::<DbKey, DbValue>(&mut a, &b, &mut cursor, 1000, true));
    assert_eq!((cursor, a.header.nentries), (6, 5));
    assert!(!ops().append_copy_in_upto_size::<DbKey, DbValue>(&mut a, &b, &mut cursor, 1000, true));
}

#[test]
fn nodes_are_searched() {
    let mut c = node(300, true);
    for i in 0..10u8 {
        put(&mut c, i as u32, &[i * 2], &[i]).unwrap();
    }
    assert_eq!(ops().find::<DbKey, DbValue>(&c, &key(&[8])), (true, 4));
    assert_eq!(ops().find::<DbKey, DbValue>(&c, &key(&[9])), (false, 5));
    assert_eq!(ops().find::<DbKey, DbValue>(&c, &key(&[99])), (false, 10));
    let r = |a: u8, ai: bool, b: u8, bi: bool| {
        ops().match_range::<DbKey, DbValue>(&c, &BtreeKeyRange::new(key(&[a]), ai, key(&[b]), bi))
    };
    assert_eq!(r(4, true, 8, true), (true, 2, 4));
    assert_eq!(r(4, false, 8, false), (true, 3, 3));
    assert!(!r(5, true, 5, true).0);
    assert!(!r(8, true, 4, true).0);
}

#[test]
fn the_child_behind_the_last_entry() {
    let policy = RecordPolicy::VarKey { value_size: 8 };
    let ops: Ops = VarNodeOps::new(policy);
    let mut c = MemBtree::new(200).create_node(false, 1).unwrap();
    ops.init_new_node::<DbKey, u64>(&mut c);
    assert!(!c.has_valid_edge());
    ops.insert::<DbKey, u64>(&mut c, 0, &key(b"m"), &ValueOrOverflow::Inline(11)).unwrap();
    ops.insert::<DbKey, u64>(&mut c, 1, &key(b"t"), &ValueOrOverflow::Inline(12)).unwrap();
    ops.update::<DbKey, u64>(&mut c, 2, &ValueOrOverflow::Inline(13)).unwrap();
    assert!(c.has_valid_edge());
    assert!(matches!(ops.get_nth_value::<DbKey, u64>(&c, 2), ValueOrOverflow::Inline(13)));
    // the last entry gives its child to the edge
    ops.remove::<DbKey, u64>(&mut c, 2).unwrap();
    assert_eq!(c.header.nentries, 1);
    assert_eq!(c.header.edge_id, 12);
    c.invalidate_edge();
    assert_eq!(c.header.edge_id, EMPTY_BNODEID);
}

#[test]
fn configurations_follow_the_node_size() {
    let mut c = BtreeConfig::new(4096, "c".to_string());
    // (4096 - 60) / 4 bytes of a value, and (4096 - 60) / 2 - 6 less for a key
    assert_eq!(c.inline_value_size, 1009);
    assert_eq!(c.max_key_size(), 1003);
    assert_eq!(c.ideal_fill_size, 3681);
    assert_eq!(c.suggested_min_size, 1636);
    c.suggest_inline_value_size(100);
    assert_eq!(c.inline_value_size, 100);
    assert_eq!(c.max_key_size(), 1912);
    c.suggest_inline_value_size(5000);
    assert_eq!(c.inline_value_size, 1009);
    c.suggest_inline_value_size(1);
    assert_eq!(c.max_key_size(), 2004);
    assert!(c.is_usable::<DbValue>());
    assert!(BtreeConfig::new(60, "c".to_string()).is_usable::<DbValue>());
    assert!(!BtreeConfig::new(59, "c".to_string()).is_usable::<DbValue>());
    assert!(!BtreeConfig::new(70_000, "c".to_string()).is_usable::<DbValue>());
    c.inline_value_size = 2500;
    assert_eq!(c.inline_size(), 1009);
    assert_eq!(c.max_key_size(), 1003);
    assert_eq!(BtreeConfig::new(10, "c".to_string()).max_key_size(), 0);
}

#[test]
fn keys_and_values_are_bytes() {
    let k = key(b"abc");
    assert_eq!(k.serialize(), b"abc".to_vec());
    assert_eq!(DbKey::deserialize_from(b"xyz").into_vec(), b"xyz".to_vec());
    assert_eq!(DbValue::deserialize_from(b"v").serialize(), b"v".to_vec());
    assert!(key(b"").is_less(&key(b"a")));
    assert!(key(b"a").is_less(&key(b"ab")));
    assert!(key(b"ab").is_less(&key(b"b")));
    assert!(!key(b"b").is_less(&key(b"ab")));
    assert!(!key(b"b").is_less(&key(b"b")));
}

#[test]
fn storages_keep_nodes_and_overflow_records() {
    let mut m = MemBtree::new(128);
    let c = m.create_node(true, 3).unwrap();
    let id = c.node_id();
    assert_ne!(id, EMPTY_BNODEID);
    assert!(c.is_leaf());
    assert_eq!(c.node_size(), 128);
    let mut c2 = m.read_node(id).unwrap();
    c2.set_next_node(5);
    m.write_node(&c2).unwrap();
    assert_eq!(m.read_node(id).unwrap().header.next_node, 5);
    m.delete_node(id).unwrap();
    assert!(matches!(m.read_node(id), Err(BtreeError::NodeNotFound)));
    m.on_root_changed(9).unwrap();
    assert_eq!(m.root_node_id(), 9);
    let ov = m.write_overflow(vec![1, 2, 3]).unwrap();
    assert_eq!(m.read_overflow(ov).unwrap(), vec![1, 2, 3]);
    m.delete_overflow(ov).unwrap();
    assert!(m.read_overflow(ov).is_err());
}
