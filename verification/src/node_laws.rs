//! What nodes hold and what is done to them, in bytes and entries.

use vstd::prelude::*;
use crate::btree_kvs::{BtreeKey, BtreeValue, Entry, ValueOrOverflow, EMPTY_BNODEID};
use crate::btree_node::{next_gen, CoreView};
use crate::btree_types::{BtreeError, IoErrorKind};
use crate::db_kv::{DbKey, DbValue};
use crate::node_layout::{data_size, lemma_data_size_nonneg};
use crate::node_search::is_position;
use crate::record_ops::RecordPolicy;
use crate::var_node_ops::VarNodeOps;
use crate::varlen_node_common::VarRecordOps;

verus! {

//==============================================================================
// Bytes
//==============================================================================

/// A number of two bytes, the low one first.
pub open spec fn two_bytes(b: Seq<u8>, p: int) -> int {
    b[p] + 256 * b[p + 1]
}

/// The bytes of a record.
pub open spec fn record_bytes(p: RecordPolicy) -> int {
    match p {
        RecordPolicy::VarObject { .. } => 6,
        _ => 4,
    }
}

/// The bytes of keys and values.
pub open spec fn bytes_of(es: Seq<Entry>) -> int
    decreases es.len(),
{
    if es.len() == 0 {
        0
    } else {
        bytes_of(es.drop_last()) + es.last().key.len() + es.last().val.len()
    }
}

/// The bytes of entries with their records.
pub open spec fn size_of(p: RecordPolicy, es: Seq<Entry>) -> int {
    record_bytes(p) * es.len() + bytes_of(es)
}

pub proof fn lemma_bytes_of(es: Seq<Entry>)
    ensures
        bytes_of(es) == data_size(es),
        bytes_of(es) >= 0,
    decreases es.len(),
{
    lemma_data_size_nonneg(es);
    if es.len() > 0 {
        lemma_bytes_of(es.drop_last());
    }
}

proof fn lemma_size_of<K: BtreeKey, V: BtreeValue>(ops: VarNodeOps<RecordPolicy>, es: Seq<Entry>)
    ensures
        ops.layout::<K, V>().entries_size(es) == size_of(ops.record_ops, es),
        ops.layout::<K, V>().rec == record_bytes(ops.record_ops),
{
    lemma_bytes_of(es);
}

/// Where a node keeps an entry: in a record, the records lying one after the other behind sixty
/// bytes of headers, stand the offset of the data, the length of the key and that of the value,
/// each in two bytes, unless a length is fixed. At the offset stand the key and the value. The
/// highest bit of the value's length marks a reference to an overflow record.
pub proof fn law_record_format(ops: VarNodeOps<RecordPolicy>, c: CoreView, i: int)
    requires
        0 <= i < c.header.nentries,
    ensures
        ops.entries::<DbKey, DbValue>(c).len() == c.header.nentries,
        ({
            let b = c.buf;
            let e = ops.entries::<DbKey, DbValue>(c)[i];
            match ops.record_ops {
                RecordPolicy::VarObject { .. } => {
                    let r = 60 + 6 * i;
                    let o = two_bytes(b, r);
                    let k = two_bytes(b, r + 2);
                    let v = two_bytes(b, r + 4) % 0x8000;
                    &&& e.key == b.subrange(o, o + k)
                    &&& e.val == b.subrange(o + k, o + k + v)
                    &&& e.overflow == (two_bytes(b, r + 4) >= 0x8000)
                },
                RecordPolicy::VarKey { value_size } => {
                    let r = 60 + 4 * i;
                    let o = two_bytes(b, r);
                    let k = two_bytes(b, r + 2);
                    &&& e.key == b.subrange(o, o + k)
                    &&& e.val == b.subrange(o + k, o + k + value_size)
                    &&& !e.overflow
                },
                RecordPolicy::VarValue { key_size } => {
                    let r = 60 + 4 * i;
                    let o = two_bytes(b, r);
                    let v = two_bytes(b, r + 2) % 0x8000;
                    &&& e.key == b.subrange(o, o + key_size)
                    &&& e.val == b.subrange(o + key_size, o + key_size + v)
                    &&& e.overflow == (two_bytes(b, r + 2) >= 0x8000)
                },
            }
        }),
{
    assert(4 * i == i * 4 && 6 * i == i * 6);
}

/// The number of the variant that records of a policy are for.
pub proof fn law_variant_of_records(p: RecordPolicy)
    ensures
        p is VarKey ==> p.spec_node_variant_type() == 1,
        p is VarValue ==> p.spec_node_variant_type() == 2,
        p matches RecordPolicy::VarObject { variant } ==> p.spec_node_variant_type() == variant,
{
}

/// The free bytes of a node are those that headers, records, keys and values leave.
pub proof fn law_free_bytes<K: BtreeKey, V: BtreeValue>(
    ops: VarNodeOps<RecordPolicy>,
    c: CoreView,
)
    ensures
        ops.free::<K, V>(c) == c.buf.len() - 60 - size_of(
            ops.record_ops,
            ops.entries::<K, V>(c),
        ),
{
    lemma_size_of::<K, V>(ops, ops.entries::<K, V>(c));
}

/// The bytes in use of a node are four of its header, its records, and everything from the lowest
/// data byte on, whose offset stands at byte fifty-six. Once the node is compacted, they are four
/// and those of its entries.
pub proof fn law_bytes_in_use<K: BtreeKey, V: BtreeValue>(
    ops: VarNodeOps<RecordPolicy>,
    c: CoreView,
    c2: CoreView,
)
    requires
        ops.compacted::<K, V>(c, c2),
    ensures
        ops.occupied::<K, V>(c) == 4 + record_bytes(ops.record_ops) * c.header.nentries
            + c.buf.len() - two_bytes(c.buf, 56),
        ops.entries::<K, V>(c2) == ops.entries::<K, V>(c),
        ops.occupied::<K, V>(c2) == 4 + size_of(ops.record_ops, ops.entries::<K, V>(c)),
{
    lemma_size_of::<K, V>(ops, ops.entries::<K, V>(c));
    assert(ops.entries::<K, V>(c2).len() == c2.header.nentries);
    assert(ops.entries::<K, V>(c).len() == c.header.nentries);
}

/// The size of entries is the sum of the sizes of its parts.
pub proof fn law_sizes_add_up<K: BtreeKey, V: BtreeValue>(
    ops: VarNodeOps<RecordPolicy>,
    es: Seq<Entry>,
    e: Entry,
)
    ensures
        ops.layout::<K, V>().entries_size(Seq::<Entry>::empty()) == 0,
        ops.layout::<K, V>().entries_size(es.push(e)) == ops.layout::<K, V>().entries_size(es)
            + record_bytes(ops.record_ops) + e.key.len() + e.val.len(),
        ops.layout::<K, V>().entry_size(e) == record_bytes(ops.record_ops) + e.key.len()
            + e.val.len(),
{
    lemma_size_of::<K, V>(ops, Seq::<Entry>::empty());
    lemma_size_of::<K, V>(ops, es);
    lemma_size_of::<K, V>(ops, es.push(e));
    assert(es.push(e).drop_last() =~= es);
    let r = record_bytes(ops.record_ops);
    let n = es.len() as int;
    assert(r * (n + 1) == r * n + r) by (nonlinear_arith);
    assert(r * 0 == 0);
}

//==============================================================================
// Changes of a node
//==============================================================================

/// Each change of a node counts as a new generation of it; the count starts over when its 64 bits
/// are used up.
pub proof fn law_generation(gen: u64)
    ensures
        next_gen(gen) as int == (gen + 1) % 0x1_0000_0000_0000_0000,
{
}

/// An entry is inserted before the given one exactly if there is such a place and the node has as
/// many free bytes as record, key and value take; the other entries stay in their order. Otherwise
/// nothing changes, and the error says which of the two it was.
pub proof fn law_node_insert<K: BtreeKey, V: BtreeValue>(
    ops: VarNodeOps<RecordPolicy>,
    c: CoreView,
    idx: int,
    e: Entry,
    c2: CoreView,
    r: Result<(), BtreeError>,
)
    requires
        ops.insert_outcome::<K, V>(c, idx, e, c2, r),
    ensures
        ({
            let es = ops.entries::<K, V>(c);
            let room = c.buf.len() - 60 - size_of(ops.record_ops, es);
            let size = record_bytes(ops.record_ops) + e.key.len() + e.val.len();
            &&& r is Ok == (idx <= c.header.nentries && size <= room)
            &&& r is Ok ==> {
                &&& ops.entries::<K, V>(c2) == es.insert(idx, e)
                &&& c2.header.node_id == c.header.node_id
                &&& c2.header.leaf == c.header.leaf
                &&& c2.header.node_variant == c.header.node_variant
                &&& c2.header.edge_id == c.header.edge_id
                &&& c2.header.next_node == c.header.next_node
                &&& c2.header.node_gen == next_gen(c.header.node_gen)
                &&& c2.buf.len() == c.buf.len()
            }
            &&& r is Err ==> c2 == c
            &&& idx > c.header.nentries ==> r == Err::<(), BtreeError>(
                BtreeError::Io(IoErrorKind::InvalidInput),
            )
            &&& idx <= c.header.nentries && size > room ==> r == Err::<(), BtreeError>(
                BtreeError::Io(IoErrorKind::OutOfMemory),
            )
        }),
{
    lemma_size_of::<K, V>(ops, ops.entries::<K, V>(c));
}

/// Entries are taken out of a node without a change to the others, and without data being moved.
pub proof fn law_node_remove<K: BtreeKey, V: BtreeValue>(
    ops: VarNodeOps<RecordPolicy>,
    c: CoreView,
    s: int,
    t: int,
    c2: CoreView,
    i: int,
)
    requires
        ops.removed::<K, V>(c, s, t, c2),
        0 <= s <= t <= c.header.nentries,
        0 <= i < c.header.nentries - (t - s),
    ensures
        c2.header.nentries == c.header.nentries - (t - s),
        ops.entries::<K, V>(c2)[i] == ops.entries::<K, V>(c)[if i < s {
            i
        } else {
            i + (t - s)
        }],
        c2.header.node_id == c.header.node_id,
        c2.header.leaf == c.header.leaf,
        c2.header.node_variant == c.header.node_variant,
        c2.header.edge_id == c.header.edge_id,
        c2.header.next_node == c.header.next_node,
        c2.header.node_gen == next_gen(c.header.node_gen),
        c2.buf.len() == c.buf.len(),
        two_bytes(c2.buf, 56) == two_bytes(c.buf, 56),
{
}

/// An entry is replaced exactly if the new one takes no more bytes than the old one and the free
/// ones together; otherwise the old one is gone.
pub proof fn law_node_update<K: BtreeKey, V: BtreeValue>(
    ops: VarNodeOps<RecordPolicy>,
    c: CoreView,
    idx: int,
    e: Entry,
    c2: CoreView,
    r: Result<(), BtreeError>,
)
    requires
        ops.update_outcome::<K, V>(c, idx, e, c2, r),
        0 <= idx < c.header.nentries,
    ensures
        ({
            let es = ops.entries::<K, V>(c);
            let room = c.buf.len() - 60 - size_of(ops.record_ops, es);
            let fits = e.key.len() + e.val.len() <= es[idx].key.len() + es[idx].val.len() + room;
            &&& r is Ok == fits
            &&& fits ==> ops.entries::<K, V>(c2) == es.update(idx, e)
            &&& !fits ==> r == Err::<(), BtreeError>(BtreeError::Io(IoErrorKind::OutOfMemory))
                && ops.entries::<K, V>(c2) == es.take(idx) + es.skip(idx + 1)
            &&& c2.header.node_id == c.header.node_id
            &&& c2.header.leaf == c.header.leaf
            &&& c2.header.node_variant == c.header.node_variant
            &&& c2.header.edge_id == c.header.edge_id
            &&& c2.header.next_node == c.header.next_node
            &&& c2.header.node_gen == next_gen(c.header.node_gen)
        }),
{
    lemma_size_of::<K, V>(ops, ops.entries::<K, V>(c));
}

/// The last entries of a node go to the front of another one, in their order. The edge of an
/// interior node goes with them, unless the other node is left empty.
pub proof fn law_move_right<K: BtreeKey, V: BtreeValue>(
    ops: VarNodeOps<RecordPolicy>,
    c: CoreView,
    d: CoreView,
    m: int,
    c2: CoreView,
    d2: CoreView,
)
    requires
        ops.moved_right::<K, V>(c, d, m, c2, d2),
    ensures
        ops.entries::<K, V>(c2) + ops.entries::<K, V>(d2) == ops.entries::<K, V>(c)
            + ops.entries::<K, V>(d),
        ops.entries::<K, V>(c2).len() == c.header.nentries - m,
        ({
            let along = !c.header.leaf && c.header.edge_id != EMPTY_BNODEID && ops.entries::<K, V>(
                d2,
            ).len() > 0;
            &&& along ==> c2.header.edge_id == EMPTY_BNODEID && d2.header.edge_id
                == c.header.edge_id
            &&& !along ==> c2.header.edge_id == c.header.edge_id && d2.header.edge_id
                == d.header.edge_id
        }),
        c2.header.node_id == c.header.node_id && d2.header.node_id == d.header.node_id,
        c2.header.leaf == c.header.leaf && d2.header.leaf == d.header.leaf,
        c2.header.node_variant == c.header.node_variant && d2.header.node_variant
            == d.header.node_variant,
        c2.header.next_node == c.header.next_node && d2.header.next_node == d.header.next_node,
        c2.header.node_gen == next_gen(c.header.node_gen) && d2.header.node_gen == next_gen(
            d.header.node_gen,
        ),
{
    let n = c.header.nentries as int;
    let es = ops.entries::<K, V>(c);
    assert(es.len() == n);
    assert(es.take(n - m) + (es.skip(n - m) + ops.entries::<K, V>(d)) =~= es + ops.entries::<K, V>(
        d,
    ));
}

/// The next entry from the right does not fit into the other node.
pub proof fn law_right_is_full<K: BtreeKey, V: BtreeValue>(
    ops: VarNodeOps<RecordPolicy>,
    c: CoreView,
    d: CoreView,
    m: int,
)
    requires
        0 <= m < c.header.nentries,
    ensures
        ops.right_is_full::<K, V>(c, d, m) == ({
            let es = ops.entries::<K, V>(c);
            let moved = es.skip(c.header.nentries - m) + ops.entries::<K, V>(d);
            let e = es[c.header.nentries - m - 1];
            record_bytes(ops.record_ops) + e.key.len() + e.val.len() > d.buf.len() - 60 - size_of(
                ops.record_ops,
                moved,
            )
        }),
{
    lemma_size_of::<K, V>(
        ops,
        ops.entries::<K, V>(c).skip(c.header.nentries - m) + ops.entries::<K, V>(d),
    );
}

/// Entries are copied behind those of another node, in their order, as long as they take no more
/// than the given bytes and fit.
pub proof fn law_copy_by_size<K: BtreeKey, V: BtreeValue>(
    ops: VarNodeOps<RecordPolicy>,
    d: CoreView,
    c: CoreView,
    start: int,
    m: int,
    size: int,
    d2: CoreView,
)
    requires
        ops.copied::<K, V>(d, c, start, m, d2),
        ops.copy_limit::<K, V>(d, c, start, m, size),
        0 <= start <= c.header.nentries,
    ensures
        ({
            let es = ops.entries::<K, V>(c);
            let ds = ops.entries::<K, V>(d);
            &&& ops.entries::<K, V>(d2) == ds + es.subrange(start, start + m)
            &&& size_of(ops.record_ops, es.subrange(start, start + m)) <= size
            &&& start + m < c.header.nentries ==> size_of(
                ops.record_ops,
                es.subrange(start, start + m + 1),
            ) > size || record_bytes(ops.record_ops) + es[start + m].key.len()
                + es[start + m].val.len() > d.buf.len() - 60 - size_of(
                ops.record_ops,
                ds + es.subrange(start, start + m),
            )
            &&& start + m == c.header.nentries && !c.header.leaf && c.header.edge_id
                != EMPTY_BNODEID ==> d2.header.edge_id == c.header.edge_id
            &&& c.header.leaf || c.header.edge_id == EMPTY_BNODEID || start + m < c.header.nentries
                ==> d2.header.edge_id == d.header.edge_id
            &&& d2.header.node_id == d.header.node_id
            &&& d2.header.leaf == d.header.leaf
            &&& d2.header.node_variant == d.header.node_variant
            &&& d2.header.next_node == d.header.next_node
            &&& d2.header.node_gen == next_gen(d.header.node_gen)
        }),
{
    let es = ops.entries::<K, V>(c);
    let ds = ops.entries::<K, V>(d);
    lemma_size_of::<K, V>(ops, es.subrange(start, start + m));
    lemma_size_of::<K, V>(ops, es.subrange(start, start + m + 1));
    lemma_size_of::<K, V>(ops, ds + es.subrange(start, start + m));
}

/// Entries are appended to a node until it has the given bytes in use: none where it has them
/// already, none where all or none are wanted and they are too many, and else as many as go in.
/// The edge comes along with the last entry, or where nothing is left and the node has none. The
/// answer is whether any entries are left.
pub proof fn law_append<K: BtreeKey, V: BtreeValue>(
    ops: VarNodeOps<RecordPolicy>,
    d: CoreView,
    c: CoreView,
    cursor: int,
    upto: int,
    whole: bool,
    d2: CoreView,
    cursor2: int,
    r: bool,
)
    requires
        ops.append_outcome::<K, V>(d, c, cursor, upto, whole, d2, cursor2, r),
        0 <= cursor,
    ensures
        ({
            let es = ops.entries::<K, V>(c);
            let n = c.header.nentries as int;
            let room = upto - (4 + record_bytes(ops.record_ops) * d.header.nentries + d.buf.len()
                - two_bytes(d.buf, 56));
            let rest = size_of(ops.record_ops, es.subrange(cursor, n));
            let none = room <= 0 || whole && rest > room;
            &&& r == (cursor2 < n)
            &&& cursor >= n ==> {
                &&& cursor2 == cursor
                &&& d2.buf == d.buf
                &&& d2.header.nentries == d.header.nentries
                &&& d2.header.node_gen == d.header.node_gen
                &&& d2.header.edge_id == if d.header.edge_id == EMPTY_BNODEID {
                    c.header.edge_id
                } else {
                    d.header.edge_id
                }
            }
            &&& cursor < n && none ==> cursor2 == cursor && d2 == d
            &&& cursor < n && !none ==> {
                &&& cursor <= cursor2 <= n
                &&& ops.entries::<K, V>(d2) == ops.entries::<K, V>(d) + es.subrange(cursor, cursor2)
                &&& d2.header.edge_id == if cursor2 == n && !c.header.leaf && c.header.edge_id
                    != EMPTY_BNODEID {
                    c.header.edge_id
                } else {
                    d.header.edge_id
                }
                &&& d2.header.node_gen == next_gen(d.header.node_gen)
                &&& size_of(ops.record_ops, es.subrange(cursor, cursor2)) <= room
                &&& cursor2 < n ==> size_of(ops.record_ops, es.subrange(cursor, cursor2 + 1)) > room
                    || record_bytes(ops.record_ops) + es[cursor2].key.len() + es[cursor2].val.len()
                    > d.buf.len() - 60 - size_of(
                    ops.record_ops,
                    ops.entries::<K, V>(d) + es.subrange(cursor, cursor2),
                )
            }
        }),
{
    let es = ops.entries::<K, V>(c);
    let ds = ops.entries::<K, V>(d);
    let n = c.header.nentries as int;
    assert(es.len() == n);
    assert(ds.len() == d.header.nentries);
    lemma_size_of::<K, V>(ops, es.subrange(cursor, n));
    lemma_size_of::<K, V>(ops, es.subrange(cursor, cursor2));
    lemma_size_of::<K, V>(ops, es.subrange(cursor, cursor2 + 1));
    lemma_size_of::<K, V>(ops, ds + es.subrange(cursor, cursor2));
    lemma_size_of::<K, V>(ops, ds);
}

/// The place of a key is before all entries with keys that are not smaller, and behind the others.
pub proof fn law_position<K: BtreeKey>(es: Seq<Entry>, k: Seq<u8>, i: int, j: int)
    requires
        is_position::<K>(es, k, i),
        0 <= j < es.len(),
    ensures
        0 <= i <= es.len(),
        K::lt(es[j].key, k) == (j < i),
{
}

/// A value is stored as its bytes, and a reference as the eight bytes of the id, the lowest first.
pub proof fn law_stored_value<V: BtreeValue>(v: V, id: u64, key: Seq<u8>)
    ensures
        ValueOrOverflow::Inline(v).entry(key) == (Entry { key, val: v.bytes(), overflow: false }),
        ValueOrOverflow::<V>::Overflow(id).entry(key) == (Entry {
            key,
            val: vstd::bytes::spec_u64_to_le_bytes(id),
            overflow: true,
        }),
{
}

} // verus!
