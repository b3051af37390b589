//! The operations on variable-length nodes, once for all record layouts.

use vstd::prelude::*;
use crate::btree_kvs::{
    id_bytes, id_of, BNodeId, BtreeKey, BtreeValue, Entry, ValueOrOverflow, EMPTY_BNODEID,
};
use crate::btree_node::{next_gen, CoreView, NodeCore, PersistentHeader};
use crate::btree_types::{BtreeError, BtreePutType, IoErrorKind};
use crate::bytes::{copy_within, le16, overlay, rd16, read_bytes, write_bytes};
use crate::node_layout::{
    avail, data_size, lemma_data_size_add, lemma_data_size_insert, lemma_data_size_nonneg,
    lemma_data_size_one, lemma_data_size_push, lemma_data_size_update, lemma_entry_lens,
    lemma_fitting, lemma_insert, lemma_nonneg, lemma_remove, lemma_replace, tail, Layout,
};
use crate::record_sizes::lemma_times_add;
use crate::varlen_node_common::{
    get_arena_free_space, get_obj_ptr, get_record_ptr, get_var_header, set_var_header, RecordHeader,
    VarNodeHeader, VarRecordOps,
};

verus! {

/// The node operations over the records of one variant.
pub struct VarNodeOps<R> {
    pub record_ops: R,
}

impl<R> VarNodeOps<R> {
    pub fn new(record_ops: R) -> (r: Self)
        ensures
            r.record_ops == record_ops,
    {
        VarNodeOps { record_ops }
    }

    /// Bytes that all headers of a node take, and the least that each entry takes beside its
    /// data.
    pub fn get_overhead_size() -> (r: (u32, u32))
        ensures
            r == (60u32, 2u32),
    {
        let header_size: u32 = PersistentHeader::size() as u32 + VarNodeHeader::size() as u32;
        (header_size, 2)
    }
}

impl<R: VarRecordOps> VarNodeOps<R> {
    /// The records of a node with keys `K` and values `V`.
    pub open spec fn layout<K: BtreeKey, V: BtreeValue>(&self) -> Layout {
        self.record_ops.layout().with_fixed(
            K::spec_fixed_serialized_size(),
            V::spec_fixed_serialized_size(),
        )
    }

    /// Whether the node is in order.
    pub open spec fn wf<K: BtreeKey, V: BtreeValue>(&self, c: CoreView) -> bool {
        self.layout::<K, V>().node_wf(c.buf, c.header.nentries as int)
    }

    /// The entries of a node.
    pub open spec fn entries<K: BtreeKey, V: BtreeValue>(&self, c: CoreView) -> Seq<Entry> {
        self.layout::<K, V>().entries(c.buf, c.header.nentries as int)
    }

    /// Free bytes of a node.
    pub open spec fn free<K: BtreeKey, V: BtreeValue>(&self, c: CoreView) -> int {
        self.layout::<K, V>().free(c.buf.len() as int, self.entries::<K, V>(c))
    }

    /// Key length of entry `idx`: that of the type where it has one, else that of the record.
    pub fn get_key_size<K: BtreeKey, V: BtreeValue>(&self, core: &NodeCore, idx: u32) -> (r: usize)
        requires
            self.wf::<K, V>(core@),
            idx < core@.header.nentries,
        ensures
            r as int == self.layout::<K, V>().key_len(core@.buf, idx as int),
            r as int == self.entries::<K, V>(core@)[idx as int].key.len(),
    {
        broadcast use crate::record_sizes::lemma_times;

        proof {
            lemma_entry_lens(
                self.layout::<K, V>(),
                core@.buf,
                core@.header.nentries as int,
                idx as int,
            );
        }
        match K::fixed_serialized_size() {
            Some(size) => size as usize,
            None => self.record_ops.get_key_size(core, idx),
        }
    }

    /// Value length of entry `idx`: that of the type where it has one, else that of the record.
    pub fn get_value_size<K: BtreeKey, V: BtreeValue>(&self, core: &NodeCore, idx: u32) -> (r:
        usize)
        requires
            self.wf::<K, V>(core@),
            idx < core@.header.nentries,
        ensures
            r as int == self.layout::<K, V>().val_len(core@.buf, idx as int),
            r as int == self.entries::<K, V>(core@)[idx as int].val.len(),
    {
        broadcast use crate::record_sizes::lemma_times;

        proof {
            lemma_entry_lens(
                self.layout::<K, V>(),
                core@.buf,
                core@.header.nentries as int,
                idx as int,
            );
        }
        match V::fixed_serialized_size() {
            Some(size) => size as usize,
            None => self.record_ops.get_value_size(core, idx),
        }
    }

    /// Makes an empty node of the buffer.
    pub fn init_new_node<K: BtreeKey, V: BtreeValue>(&self, core: &mut NodeCore)
        requires
            60 <= old(core)@.buf.len() <= 0xffff,
            self.layout::<K, V>().wf(),
        ensures
            self.wf::<K, V>(final(core)@),
            self.entries::<K, V>(final(core)@) == Seq::<Entry>::empty(),
            final(core)@.header == (PersistentHeader {
                nentries: 0,
                edge_id: EMPTY_BNODEID,
                node_variant: self.record_ops.spec_node_variant_type(),
                ..old(core)@.header
            }),
            final(core)@.buf.len() == old(core)@.buf.len(),
            tail(final(core)@.buf) == old(core)@.buf.len(),
    {
        core.set_nentries(0);
        core.header.edge_id = EMPTY_BNODEID;
        core.header.node_variant = self.record_ops.node_variant_type();
        let mut var_hdr = VarNodeHeader { tail_arena_offset: 0, available_space: 0 };
        var_hdr.init(core.node_size() as u16);
        set_var_header(core, var_hdr);
        assert(self.entries::<K, V>(core@) =~= Seq::<Entry>::empty());
    }

    /// Free bytes between the last record and the data.
    fn get_arena_free_space<K: BtreeKey, V: BtreeValue>(&self, core: &NodeCore) -> (r: usize)
        requires
            self.wf::<K, V>(core@),
        ensures
            r as int == tail(core@.buf) - self.layout::<K, V>().rec_pos(
                core@.header.nentries as int,
            ),
    {
        let rec_size: usize = self.record_ops.record_size();
        get_arena_free_space(core, rec_size)
    }

    /// Offset of record `idx`.
    fn record_offset<K: BtreeKey, V: BtreeValue>(&self, core: &NodeCore, idx: u32) -> (r: usize)
        requires
            self.layout::<K, V>().wf(),
            self.layout::<K, V>().rec_pos(idx as int) <= core@.buf.len() <= 0xffff,
        ensures
            r as int == self.layout::<K, V>().rec_pos(idx as int),
    {
        get_record_ptr(core, idx, self.record_ops.record_size())
    }

    /// Offset of the data of entry `idx`.
    fn object_offset<K: BtreeKey, V: BtreeValue>(&self, core: &NodeCore, idx: u32) -> (r: usize)
        requires
            self.wf::<K, V>(core@),
            idx < core@.header.nentries,
        ensures
            r as int == self.layout::<K, V>().off(core@.buf, idx as int),
            r + self.layout::<K, V>().obj_len(core@.buf, idx as int) <= core@.buf.len(),
    {
        proof {
            let l = self.layout::<K, V>();
            lemma_entry_lens(l, core@.buf, core@.header.nentries as int, idx as int);
            assert(l.obj_inside(core@.buf, idx as int));
        }
        let rec_ptr: usize = self.record_offset::<K, V>(core, idx);
        get_obj_ptr(core, rec_ptr)
    }

    /// A copy of the key bytes of entry `idx`.
    pub fn get_nth_key_bytes<K: BtreeKey, V: BtreeValue>(&self, core: &NodeCore, idx: u32) -> (r:
        Vec<u8>)
        requires
            self.wf::<K, V>(core@),
            idx < core@.header.nentries,
        ensures
            r@ == self.entries::<K, V>(core@)[idx as int].key,
    {
        let obj_ptr: usize = self.object_offset::<K, V>(core, idx);
        let key_size: usize = self.get_key_size::<K, V>(core, idx);
        let val_size: usize = self.get_value_size::<K, V>(core, idx);
        let len: usize = core.phys_buf.len();
        read_bytes(&core.phys_buf, obj_ptr, key_size)
    }

    /// A copy of the stored value bytes of entry `idx`.
    pub fn get_nth_value_bytes<K: BtreeKey, V: BtreeValue>(
        &self,
        core: &NodeCore,
        idx: u32,
    ) -> (r: Vec<u8>)
        requires
            self.wf::<K, V>(core@),
            idx < core@.header.nentries,
        ensures
            r@ == self.entries::<K, V>(core@)[idx as int].val,
    {
        let obj_ptr: usize = self.object_offset::<K, V>(core, idx);
        let key_size: usize = self.get_key_size::<K, V>(core, idx);
        let val_size: usize = self.get_value_size::<K, V>(core, idx);
        let len: usize = core.phys_buf.len();
        read_bytes(&core.phys_buf, obj_ptr + key_size, val_size)
    }

    /// Whether the stored value of entry `idx` is an overflow reference.
    fn entry_overflow<K: BtreeKey, V: BtreeValue>(&self, core: &NodeCore, idx: u32) -> (r: bool)
        requires
            self.wf::<K, V>(core@),
            idx < core@.header.nentries,
        ensures
            r == self.entries::<K, V>(core@)[idx as int].overflow,
    {
        broadcast use crate::record_sizes::lemma_times;

        proof {
            lemma_entry_lens(
                self.layout::<K, V>(),
                core@.buf,
                core@.header.nentries as int,
                idx as int,
            );
        }
        self.record_ops.is_value_overflow(core, idx)
    }
}

//==============================================================================
// Compaction
//==============================================================================

/// Bytes of the entries that are marked as moved.
spec fn moved_size(es: Seq<Entry>, moved: Seq<bool>) -> int
    decreases es.len(),
{
    if es.len() == 0 {
        0
    } else {
        moved_size(es.drop_last(), moved.drop_last()) + if moved.last() {
            es.last().size()
        } else {
            0
        }
    }
}

/// Number of objects that are not moved yet.
spec fn unmoved(moved: Seq<bool>) -> nat
    decreases moved.len(),
{
    if moved.len() == 0 {
        0
    } else {
        unmoved(moved.drop_last()) + if moved.last() {
            0nat
        } else {
            1nat
        }
    }
}

proof fn lemma_mark_moved(es: Seq<Entry>, moved: Seq<bool>, i: int)
    requires
        es.len() == moved.len(),
        0 <= i < es.len(),
        !moved[i],
    ensures
        moved_size(es, moved.update(i, true)) == moved_size(es, moved) + es[i].size(),
        unmoved(moved.update(i, true)) + 1 == unmoved(moved),
    decreases es.len(),
{
    let m2 = moved.update(i, true);
    if i == es.len() - 1 {
        assert(m2.drop_last() =~= moved.drop_last());
    } else {
        lemma_mark_moved(es.drop_last(), moved.drop_last(), i);
        assert(m2.drop_last() =~= moved.drop_last().update(i, true));
    }
}

proof fn lemma_moved_size(es: Seq<Entry>, moved: Seq<bool>)
    requires
        es.len() == moved.len(),
    ensures
        0 <= moved_size(es, moved) <= data_size(es),
        (forall|i: int| 0 <= i < es.len() ==> moved[i]) ==> moved_size(es, moved) == data_size(es),
        (forall|i: int| 0 <= i < es.len() ==> !moved[i]) ==> moved_size(es, moved) == 0,
    decreases es.len(),
{
    if es.len() > 0 {
        lemma_moved_size(es.drop_last(), moved.drop_last());
        assert(moved.drop_last().len() == es.drop_last().len());
        if forall|i: int| 0 <= i < es.len() ==> moved[i] {
            assert forall|i: int| 0 <= i < es.drop_last().len() implies moved.drop_last()[i] by {
                assert(moved[i]);
            }
            assert(moved[es.len() - 1]);
        }
        if forall|i: int| 0 <= i < es.len() ==> !moved[i] {
            assert forall|i: int| 0 <= i < es.drop_last().len() implies !moved.drop_last()[i] by {
                assert(!moved[i]);
            }
            assert(!moved[es.len() - 1]);
        }
    }
}

/// What is known of a buffer `b` while the objects of `b0` are packed to its end: records keep
/// their lengths, a moved object is intact in its new place above `last`, and the others are
/// where they were.
spec fn packing(l: Layout, b0: Seq<u8>, n: int, moved: Seq<bool>, last: int, b: Seq<u8>) -> bool {
    let es = l.entries(b0, n);
    &&& b.len() == b0.len()
    &&& moved.len() == n
    &&& last == b0.len() - moved_size(es, moved)
    &&& forall|p: int| 56 <= p < 60 ==> b[p] == #[trigger] b0[p]
    &&& forall|i: int, k: int|
        0 <= i < n && 2 <= k < l.rec ==> #[trigger] b[l.rec_pos(i) + k] == b0[l.rec_pos(i) + k]
    &&& forall|i: int| 0 <= i < n && moved[i] ==> {
        &&& last <= #[trigger] l.off(b, i)
        &&& l.off(b, i) + l.obj_len(b0, i) <= b0.len()
        &&& b.subrange(l.off(b, i), l.off(b, i) + l.obj_len(b0, i)) == b0.subrange(
            l.off(b0, i),
            l.off(b0, i) + l.obj_len(b0, i),
        )
    }
    &&& forall|i: int, j: int|
        0 <= i < n && 0 <= j < n && i != j && moved[i] && moved[j] ==> {
            ||| #[trigger] l.off(b, i) + l.obj_len(b0, i) <= #[trigger] l.off(b, j)
            ||| l.off(b, j) + l.obj_len(b0, j) <= l.off(b, i)
        }
}

/// Moving one more object keeps the packing.
proof fn lemma_packing_step(
    l: Layout,
    b0: Seq<u8>,
    n: int,
    moved: Seq<bool>,
    last: int,
    b: Seq<u8>,
    idx: int,
    b2: Seq<u8>,
)
    requires
        l.node_wf(b0, n),
        packing(l, b0, n, moved, last, b),
        0 <= idx < n,
        !moved[idx],
        b2 == overlay(
            overlay(
                b,
                last - l.obj_len(b0, idx),
                b0.subrange(l.off(b0, idx), l.off(b0, idx) + l.obj_len(b0, idx)),
            ),
            l.rec_pos(idx),
            le16(last - l.obj_len(b0, idx)),
        ),
    ensures
        packing(l, b0, n, moved.update(idx, true), last - l.obj_len(b0, idx), b2),
        l.rec_pos(n) <= last - l.obj_len(b0, idx) <= 0xffff,
{
    broadcast use crate::record_sizes::lemma_times;

    let es = l.entries(b0, n);
    let m2 = moved.update(idx, true);
    let len = l.obj_len(b0, idx);
    let last2 = last - len;
    lemma_entry_lens(l, b0, n, idx);
    lemma_mark_moved(es, moved, idx);
    lemma_moved_size(es, moved);
    lemma_moved_size(es, m2);
    lemma_nonneg(l, b0, idx);
    assert(l.obj_inside(b0, idx));
    assert(last2 >= l.rec_pos(n));
    assert(rd16(b2, l.rec_pos(idx)) == last2);
    assert(l.off(b2, idx) == last2);
    assert forall|i: int, k: int| 0 <= i < n && 2 <= k < l.rec implies #[trigger] b2[l.rec_pos(i)
        + k] == b0[l.rec_pos(i) + k] by {
        assert(b[l.rec_pos(i) + k] == b0[l.rec_pos(i) + k]);
    }
    assert forall|i: int| 0 <= i < n && i != idx implies l.off(b2, i) == l.off(b, i) by {}
    assert forall|i: int| 0 <= i < n && m2[i] implies {
        &&& last2 <= #[trigger] l.off(b2, i)
        &&& l.off(b2, i) + l.obj_len(b0, i) <= b0.len()
        &&& b2.subrange(l.off(b2, i), l.off(b2, i) + l.obj_len(b0, i)) == b0.subrange(
            l.off(b0, i),
            l.off(b0, i) + l.obj_len(b0, i),
        )
    } by {
        if i != idx {
            assert(l.off(b, i) >= last);
            lemma_nonneg(l, b0, i);
            assert(b2.subrange(l.off(b2, i), l.off(b2, i) + l.obj_len(b0, i)) =~= b.subrange(
                l.off(b, i),
                l.off(b, i) + l.obj_len(b0, i),
            ));
        } else {
            assert(b2.subrange(last2, last2 + len) =~= b0.subrange(
                l.off(b0, i),
                l.off(b0, i) + len,
            ));
        }
    }
    assert forall|i: int, j: int|
        0 <= i < n && 0 <= j < n && i != j && m2[i] && m2[j] implies {
        ||| #[trigger] l.off(b2, i) + l.obj_len(b0, i) <= #[trigger] l.off(b2, j)
        ||| l.off(b2, j) + l.obj_len(b0, j) <= l.off(b2, i)
    } by {
        if i != idx {
            assert(l.off(b, i) >= last);
        }
        if j != idx {
            assert(l.off(b, j) >= last);
        }
    }
}

/// Once all objects are moved, only the tail offset is left to be set.
proof fn lemma_packing_done(
    l: Layout,
    b0: Seq<u8>,
    n: int,
    moved: Seq<bool>,
    last: int,
    b: Seq<u8>,
    b2: Seq<u8>,
)
    requires
        l.node_wf(b0, n),
        packing(l, b0, n, moved, last, b),
        forall|i: int| 0 <= i < n ==> moved[i],
        b2.len() == b.len(),
        tail(b2) == last,
        avail(b2) == avail(b0),
        forall|p: int| 60 <= p < b.len() ==> b2[p] == #[trigger] b[p],
    ensures
        l.node_wf(b2, n),
        l.entries(b2, n) == l.entries(b0, n),
        tail(b2) == b0.len() - data_size(l.entries(b0, n)),
{
    let es = l.entries(b0, n);
    lemma_moved_size(es, moved);
    lemma_data_size_nonneg(es);
    assert forall|i: int| 0 <= i < n implies l.entry(b2, i) == l.entry(b0, i) && l.off(b2, i)
        == l.off(b, i) && l.obj_len(b2, i) == l.obj_len(b0, i) by {
        lemma_entry_lens(l, b0, n, i);
        lemma_nonneg(l, b0, i);
        assert(l.obj_inside(b0, i));
        assert(moved[i]);
        assert(l.off(b, i) >= last);
        if let Some(p) = l.key_field {
            assert(b[l.rec_pos(i) + p] == b0[l.rec_pos(i) + p]);
            assert(b[l.rec_pos(i) + (p + 1)] == b0[l.rec_pos(i) + (p + 1)]);
        }
        if let Some(p) = l.val_field {
            assert(b[l.rec_pos(i) + p] == b0[l.rec_pos(i) + p]);
            assert(b[l.rec_pos(i) + (p + 1)] == b0[l.rec_pos(i) + (p + 1)]);
        }
        let o = l.off(b, i);
        let o0 = l.off(b0, i);
        let s = b.subrange(o, o + l.obj_len(b0, i));
        let s0 = b0.subrange(o0, o0 + l.obj_len(b0, i));
        assert(s == s0);
        assert forall|p: int| o <= p < o + l.obj_len(b0, i) implies #[trigger] b2[p] == b0[p - o
            + o0] by {
            assert(s[p - o] == s0[p - o]);
        }
        assert(l.entry(b2, i).key =~= l.entry(b0, i).key);
        assert(l.entry(b2, i).val =~= l.entry(b0, i).val);
    }
    assert(l.entries(b2, n) =~= es);
    assert forall|i: int| 0 <= i < n implies #[trigger] l.obj_inside(b2, i) by {
        assert(moved[i]);
        assert(l.off(b, i) >= last);
    }
    assert forall|i: int, j: int| 0 <= i < n && 0 <= j < n && i != j implies #[trigger] l.apart(
        b2,
        i,
        j,
    ) by {
        assert(moved[i] && moved[j]);
        assert(l.off(b, i) + l.obj_len(b0, i) <= l.off(b, j) || l.off(b, j) + l.obj_len(b0, j)
            <= l.off(b, i));
    }
}

/// The data of the entries fills the node from its tail on, and none of it is empty.
pub open spec fn is_packed(b: Seq<u8>, es: Seq<Entry>) -> bool {
    &&& tail(b) == b.len() - data_size(es)
    &&& forall|i: int| 0 <= i < es.len() ==> 0 < (#[trigger] es[i]).size()
}

/// No unmoved object has a higher offset.
spec fn is_highest(l: Layout, b: Seq<u8>, n: int, moved: Seq<bool>, idx: int) -> bool {
    &&& 0 <= idx < n
    &&& !moved[idx]
    &&& forall|j: int| 0 <= j < n && !moved[j] ==> #[trigger] l.off(b, j) <= l.off(b, idx)
}

/// Where an object is unmoved, one of the unmoved has the highest offset.
proof fn lemma_highest(l: Layout, b: Seq<u8>, n: int, moved: Seq<bool>) -> (r: int)
    requires
        0 <= n <= moved.len(),
        exists|i: int| 0 <= i < n && !moved[i],
    ensures
        is_highest(l, b, n, moved, r),
    decreases n,
{
    if exists|i: int| 0 <= i < n - 1 && !moved[i] {
        let r = lemma_highest(l, b, n - 1, moved);
        if !moved[n - 1] && l.off(b, n - 1) > l.off(b, r) {
            n - 1
        } else {
            r
        }
    } else {
        n - 1
    }
}

/// Objects below offset `h` have no more bytes than there are between the tail and `h`.
proof fn lemma_unmoved_room(l: Layout, b: Seq<u8>, n: int, moved: Seq<bool>, h: int)
    requires
        l.node_wf(b, n),
        moved.len() == n,
        tail(b) <= h,
        forall|i: int| 0 <= i < n ==> 0 < (#[trigger] l.entries(b, n)[i]).size(),
        forall|i: int|
            0 <= i < n && !moved[i] ==> #[trigger] l.off(b, i) + l.obj_len(b, i) <= h,
    ensures
        data_size(l.entries(b, n)) - moved_size(l.entries(b, n), moved) <= h - tail(b),
    decreases unmoved(moved),
{
    let es = l.entries(b, n);
    lemma_moved_size(es, moved);
    if exists|i: int| 0 <= i < n && !moved[i] {
        let r = lemma_highest(l, b, n, moved);
        let m2 = moved.update(r, true);
        lemma_mark_moved(es, moved, r);
        lemma_entry_lens(l, b, n, r);
        assert(l.obj_inside(b, r));
        assert(0 < es[r].size());
        assert forall|i: int| 0 <= i < n && !m2[i] implies #[trigger] l.off(b, i) + l.obj_len(b, i)
            <= l.off(b, r) by {
            assert(l.apart(b, i, r));
        }
        lemma_unmoved_room(l, b, n, m2, l.off(b, r));
    }
}

/// Bytes and a 16-bit field written where they were read change nothing.
proof fn lemma_own_bytes(b: Seq<u8>, o: int, len: int, p: int)
    requires
        0 <= o <= o + len <= b.len(),
        0 <= p <= b.len() - 2,
    ensures
        overlay(overlay(b, o, b.subrange(o, o + len)), p, le16(rd16(b, p))) == b,
{
    let low = b[p] as int;
    let high = b[p + 1] as int;
    let v = rd16(b, p);
    assert(v == low + 256 * high);
    assert(v % 256 == low && v / 256 == high);
    let b1 = overlay(b, o, b.subrange(o, o + len));
    assert(b1 =~= b);
    assert(overlay(b1, p, le16(v)) =~= b);
}

/// In a packed node the highest unmoved object ends where the next one has to end.
proof fn lemma_in_place(l: Layout, b: Seq<u8>, n: int, moved: Seq<bool>, last: int, idx: int)
    requires
        l.node_wf(b, n),
        moved.len() == n,
        is_packed(b, l.entries(b, n)),
        is_highest(l, b, n, moved, idx),
        last == b.len() - moved_size(l.entries(b, n), moved),
        forall|i: int|
            0 <= i < n && !moved[i] ==> #[trigger] l.off(b, i) + l.obj_len(b, i) <= last,
    ensures
        l.off(b, idx) + l.obj_len(b, idx) == last,
        forall|i: int|
            0 <= i < n && !moved.update(idx, true)[i] ==> #[trigger] l.off(b, i) + l.obj_len(b, i)
                <= l.off(b, idx),
        overlay(
            overlay(
                b,
                l.off(b, idx),
                b.subrange(l.off(b, idx), l.off(b, idx) + l.obj_len(b, idx)),
            ),
            l.rec_pos(idx),
            le16(l.off(b, idx)),
        ) == b,
{
    let es = l.entries(b, n);
    let m2 = moved.update(idx, true);
    let o = l.off(b, idx);
    lemma_mark_moved(es, moved, idx);
    lemma_entry_lens(l, b, n, idx);
    assert(l.obj_inside(b, idx));
    assert(0 < es[idx].size());
    assert forall|i: int| 0 <= i < n && !m2[i] implies #[trigger] l.off(b, i) + l.obj_len(b, i) <= o by {
        assert(l.apart(b, i, idx));
    }
    lemma_unmoved_room(l, b, n, m2, o);
    lemma_own_bytes(b, o, l.obj_len(b, idx), l.rec_pos(idx));
}

/// Two buffers that differ at most in their headers, which say the same, are the same.
proof fn lemma_same_header(b: Seq<u8>, b2: Seq<u8>)
    requires
        60 <= b.len(),
        b2.len() == b.len(),
        tail(b2) == tail(b),
        avail(b2) == avail(b),
        forall|p: int| 0 <= p < b.len() && !(56 <= p < 60) ==> #[trigger] b2[p] == b[p],
    ensures
        b2 == b,
{
    assert(b2[56] == b[56] && b2[57] == b[57]);
    assert(b2[58] == b[58] && b2[59] == b[59]);
    assert(b2 =~= b);
}

impl<R: VarRecordOps> VarNodeOps<R> {
    /// The unmoved object with the highest offset.
    fn highest_unmoved<K: BtreeKey, V: BtreeValue>(&self, core: &NodeCore, moved: &Vec<bool>) -> (r:
        Option<u32>)
        requires
            self.wf::<K, V>(core@),
            moved@.len() == core@.header.nentries,
        ensures
            match r {
                Some(i) => is_highest(
                    self.layout::<K, V>(),
                    core@.buf,
                    core@.header.nentries as int,
                    moved@,
                    i as int,
                ),
                None => forall|i: int| 0 <= i < core@.header.nentries ==> moved@[i],
            },
    {
        let n: u32 = core.header.nentries;
        let mut best: Option<u32> = None;
        let mut best_offset: usize = 0;
        let mut i: u32 = 0;
        while i < n
            invariant
                self.wf::<K, V>(core@),
                n == core@.header.nentries,
                moved@.len() == n,
                i <= n,
                match best {
                    Some(j) => j < n && !moved@[j as int] && best_offset as int
                        == self.layout::<K, V>().off(core@.buf, j as int) && forall|k: int|
                        0 <= k < i && !moved@[k] ==> #[trigger] self.layout::<K, V>().off(core@.buf, k)
                            <= best_offset,
                    None => forall|j: int| 0 <= j < i ==> moved@[j],
                },
            decreases n - i,
        {
            if !moved[i as usize] {
                let offset: usize = self.object_offset::<K, V>(core, i);
                if best.is_none() || offset > best_offset {
                    best = Some(i);
                    best_offset = offset;
                }
            }
            i = i + 1;
        }
        best
    }

    /// `c2` is `c1` with the data at the end of the node. A node that is packed stays as it is.
    pub open spec fn compacted<K: BtreeKey, V: BtreeValue>(&self, c1: CoreView, c2: CoreView) -> bool {
        &&& self.wf::<K, V>(c2)
        &&& self.entries::<K, V>(c2) == self.entries::<K, V>(c1)
        &&& c2.header == c1.header
        &&& c2.buf.len() == c1.buf.len()
        &&& tail(c2.buf) == c1.buf.len() - data_size(self.entries::<K, V>(c1))
        &&& is_packed(c1.buf, self.entries::<K, V>(c1)) ==> c2 == c1
    }

    /// Packs the data of the node to its end, so that all free bytes are contiguous.
    pub fn compact<K: BtreeKey, V: BtreeValue>(&self, core: &mut NodeCore)
        requires
            self.wf::<K, V>(old(core)@),
        ensures
            self.compacted::<K, V>(old(core)@, final(core)@),
    {
        let ghost l = self.layout::<K, V>();
        let ghost es = self.entries::<K, V>(core@);
        let ghost b0 = core@.buf;
        let ghost whole = is_packed(b0, es);
        let n: u32 = core.header.nentries;
        let before = core.copy();
        let len: usize = core.phys_buf.len();
        let mut moved: Vec<bool> = Vec::new();
        let mut k: u32 = 0;
        while k < n
            invariant
                k <= n,
                moved@ == Seq::new(k as nat, |i: int| false),
            decreases n - k,
        {
            moved.push(false);
            k = k + 1;
            assert(moved@ =~= Seq::new(k as nat, |i: int| false));
        }
        let mut last: usize = len;
        proof {
            lemma_moved_size(es, moved@);
            lemma_data_size_nonneg(es);
            assert forall|i: int| 0 <= i < n implies #[trigger] l.off(b0, i) + l.obj_len(b0, i)
                <= len by {
                assert(l.obj_inside(b0, i));
            }
        }
        loop
            invariant
                whole == is_packed(b0, es),
                whole ==> core@.buf == b0 && forall|i: int|
                    0 <= i < n && !moved@[i] ==> #[trigger] l.off(b0, i) + l.obj_len(b0, i) <= last,
                l == self.layout::<K, V>(),
                es == l.entries(b0, n as int),
                l.node_wf(b0, n as int),
                before@ == (CoreView { header: old(core)@.header, buf: b0 }),
                core@.header == old(core)@.header,
                n == old(core)@.header.nentries,
                packing(l, b0, n as int, moved@, last as int, core@.buf),
                last <= 0xffff,
                l.rec_pos(n as int) <= last,
            ensures
                forall|i: int| 0 <= i < n ==> moved@[i],
            decreases unmoved(moved@),
        {
            match self.highest_unmoved::<K, V>(&before, &moved) {
                None => {
                    break;
                },
                Some(idx) => {
                    let key_size: usize = self.get_key_size::<K, V>(&before, idx);
                    let val_size: usize = self.get_value_size::<K, V>(&before, idx);
                    let offset: usize = self.object_offset::<K, V>(&before, idx);
                    proof {
                        lemma_entry_lens(l, b0, n as int, idx as int);
                        lemma_mark_moved(es, moved@, idx as int);
                        lemma_moved_size(es, moved@);
                        lemma_moved_size(es, moved@.update(idx as int, true));
                        if whole {
                            lemma_in_place(l, b0, n as int, moved@, last as int, idx as int);
                        }
                    }
                    let size: usize = key_size + val_size;
                    let dst: usize = last - size;
                    let blen: usize = before.phys_buf.len();
                    let data = read_bytes(&before.phys_buf, offset, size);
                    let rec_ptr: usize = self.record_offset::<K, V>(&before, idx);
                    let ghost bl = core@.buf;
                    write_bytes(&mut core.phys_buf, dst, data.as_slice());
                    let mut base_rec = RecordHeader { obj_offset: 0 };
                    base_rec.set_obj_offset(dst as u16);
                    let clen: usize = core.phys_buf.len();
                    base_rec.write(&mut core.phys_buf, rec_ptr);
                    proof {
                        lemma_packing_step(
                            l,
                            b0,
                            n as int,
                            moved@,
                            last as int,
                            bl,
                            idx as int,
                            core@.buf,
                        );
                    }
                    moved.set(idx as usize, true);
                    last = dst;
                },
            }
        }
        let ghost b1 = core@.buf;
        let avail_space: u16 = get_var_header(&before).available_space;
        set_var_header(
            core,
            VarNodeHeader { tail_arena_offset: last as u16, available_space: avail_space },
        );
        proof {
            lemma_packing_done(l, b0, n as int, moved@, last as int, b1, core@.buf);
            if whole {
                lemma_same_header(b0, core@.buf);
            }
        }
    }
}

//==============================================================================
// Insertion
//==============================================================================

impl<R: VarRecordOps> VarNodeOps<R> {
    /// `c2` is `c1` with the entry inserted before entry `idx`.
    pub open spec fn inserted<K: BtreeKey, V: BtreeValue>(
        &self,
        c1: CoreView,
        idx: int,
        e: Entry,
        c2: CoreView,
    ) -> bool {
        &&& self.wf::<K, V>(c2)
        &&& self.entries::<K, V>(c2) == self.entries::<K, V>(c1).insert(idx, e)
        &&& c2.header == (PersistentHeader {
            nentries: (c1.header.nentries + 1) as u32,
            node_gen: next_gen(c1.header.node_gen),
            ..c1.header
        })
        &&& c2.buf.len() == c1.buf.len()
        &&& self.occupied::<K, V>(c2) == self.layout::<K, V>().used_after(
            c1.buf.len() as int,
            self.occupied::<K, V>(c1),
            self.entries::<K, V>(c1),
            e,
        )
    }

    /// Records can describe the entry, if it can be inserted before entry `idx` at all.
    pub open spec fn insertable<K: BtreeKey, V: BtreeValue>(
        &self,
        c: CoreView,
        idx: int,
        e: Entry,
    ) -> bool {
        idx <= c.header.nentries && self.layout::<K, V>().entry_size(e) <= self.free::<K, V>(c)
            ==> self.layout::<K, V>().fits(e)
    }

    /// What an attempt to insert the entry before entry `idx` does: it is refused where the
    /// index is out of range or the free bytes do not suffice, and succeeds otherwise.
    pub open spec fn insert_outcome<K: BtreeKey, V: BtreeValue>(
        &self,
        c1: CoreView,
        idx: int,
        e: Entry,
        c2: CoreView,
        r: Result<(), BtreeError>,
    ) -> bool {
        let too_far = idx > c1.header.nentries;
        let too_big = self.layout::<K, V>().entry_size(e) > self.free::<K, V>(c1);
        match r {
            Ok(()) => !too_far && !too_big && self.inserted::<K, V>(c1, idx, e, c2),
            Err(err) => {
                &&& c2 == c1
                &&& err == BtreeError::Io(IoErrorKind::InvalidInput) && too_far || err
                    == BtreeError::Io(IoErrorKind::OutOfMemory) && !too_far && too_big
            },
        }
    }

    /// Writes record `idx`.
    fn set_record<K: BtreeKey, V: BtreeValue>(
        &self,
        core: &mut NodeCore,
        idx: u32,
        offset: u16,
        key_size: usize,
        val_size: usize,
        overflow: bool,
        Ghost(e): Ghost<Entry>,
    )
        requires
            self.layout::<K, V>().wf(),
            self.layout::<K, V>().rec_pos(idx + 1) <= old(core)@.buf.len() <= 0xffff,
            self.layout::<K, V>().fits(e),
            key_size == e.key.len(),
            val_size == e.val.len(),
            overflow == e.overflow,
        ensures
            final(core)@.header == old(core)@.header,
            final(core)@.buf.len() == old(core)@.buf.len(),
            self.layout::<K, V>().off(final(core)@.buf, idx as int) == offset,
            self.layout::<K, V>().key_len(final(core)@.buf, idx as int) == key_size,
            self.layout::<K, V>().val_len(final(core)@.buf, idx as int) == val_size,
            self.layout::<K, V>().overflow(final(core)@.buf, idx as int) == overflow,
            forall|p: int|
                0 <= p < old(core)@.buf.len() && !(self.layout::<K, V>().rec_pos(idx as int) <= p
                    < self.layout::<K, V>().rec_pos(idx + 1)) ==> #[trigger] final(core)@.buf[p]
                    == old(core)@.buf[p],
    {
        broadcast use crate::record_sizes::lemma_times;

        let rec_ptr: usize = self.record_offset::<K, V>(core, idx);
        let mut base_rec = RecordHeader { obj_offset: 0 };
        base_rec.set_obj_offset(offset);
        let len: usize = core.phys_buf.len();
        base_rec.write(&mut core.phys_buf, rec_ptr);
        self.record_ops.set_key_len(core, idx, key_size);
        self.record_ops.set_value_len(core, idx, val_size, overflow);
    }

    /// Inserts an entry for which there is contiguous room.
    #[verifier::spinoff_prover]
    #[verifier::rlimit(40)]
    fn insert_fitting<K: BtreeKey, V: BtreeValue>(
        &self,
        core: &mut NodeCore,
        idx: u32,
        key: &[u8],
        val: &[u8],
        overflow: bool,
    )
        requires
            self.wf::<K, V>(old(core)@),
            self.layout::<K, V>().fits(Entry { key: key@, val: val@, overflow }),
            idx <= old(core)@.header.nentries,
            self.layout::<K, V>().rec_pos(old(core)@.header.nentries as int)
                + self.layout::<K, V>().rec + key@.len() + val@.len() <= tail(old(core)@.buf),
            self.layout::<K, V>().rec + key@.len() + val@.len() <= avail(old(core)@.buf),
        ensures
            self.inserted::<K, V>(
                old(core)@,
                idx as int,
                Entry { key: key@, val: val@, overflow },
                final(core)@,
            ),
    {
        broadcast use crate::record_sizes::lemma_times;

        let ghost l = self.layout::<K, V>();
        let ghost e = Entry { key: key@, val: val@, overflow };
        let ghost b1 = core@.buf;
        let n: u32 = core.header.nentries;
        let key_size: usize = key.len();
        let val_size: usize = val.len();
        let rec_size: usize = self.record_ops.record_size();
        let obj_size: usize = key_size + val_size;
        let to_insert_size: usize = obj_size + rec_size;
        let records_end: usize = self.record_offset::<K, V>(core, n);
        let rec_ptr: usize = self.record_offset::<K, V>(core, idx);
        let len: usize = core.phys_buf.len();
        copy_within(&mut core.phys_buf, rec_ptr, rec_ptr + rec_size, records_end - rec_ptr);
        let ghost ba = core@.buf;
        assert(tail(ba) == tail(b1) && avail(ba) == avail(b1));
        let var_hdr = get_var_header(core);
        let offset: u16 = var_hdr.tail_arena_offset - obj_size as u16;
        set_var_header(
            core,
            VarNodeHeader {
                tail_arena_offset: offset,
                available_space: var_hdr.available_space - to_insert_size as u16,
            },
        );
        self.set_record::<K, V>(core, idx, offset, key_size, val_size, overflow, Ghost(e));
        let ghost bb = core@.buf;
        write_bytes(&mut core.phys_buf, offset as usize, key);
        write_bytes(&mut core.phys_buf, offset as usize + key_size, val);
        proof {
            let b2 = core@.buf;
            let t = offset as int;
            assert(forall|p: int|
                0 <= p < b2.len() && !(t <= p < tail(b1)) ==> #[trigger] b2[p] == bb[p]);
            assert(b2.subrange(t, t + e.key.len() as int) =~= e.key);
            assert(b2.subrange(t + e.key.len() as int, tail(b1)) =~= e.val);
            assert(forall|p: int| 60 <= p < l.rec_pos(idx as int) ==> b1[p] == #[trigger] b2[p]);
            assert(forall|p: int|
                l.rec_pos(idx + 1) <= p < l.rec_pos(n + 1) ==> b1[p - l.rec] == #[trigger] b2[p]);
            assert(forall|p: int| tail(b1) <= p < b1.len() ==> b1[p] == #[trigger] b2[p]);
            lemma_insert(l, b1, n as int, idx as int, e, b2);
        }
        core.set_nentries(n + 1);
        core.set_gen_after(core.header.node_gen);
    }

    /// Inserts an entry, given by its stored bytes, before entry `idx`.
    pub fn insert_bytes<K: BtreeKey, V: BtreeValue>(
        &self,
        core: &mut NodeCore,
        idx: u32,
        key: &[u8],
        val: &[u8],
        overflow: bool,
    ) -> (r: Result<(), BtreeError>)
        requires
            self.wf::<K, V>(old(core)@),
            self.insertable::<K, V>(
                old(core)@,
                idx as int,
                (Entry { key: key@, val: val@, overflow }),
            ),
        ensures
            self.insert_outcome::<K, V>(
                old(core)@,
                idx as int,
                Entry { key: key@, val: val@, overflow },
                final(core)@,
                r,
            ),
    {
        let ghost l = self.layout::<K, V>();
        let ghost e = Entry { key: key@, val: val@, overflow };
        let ghost es = self.entries::<K, V>(core@);
        let n: u32 = core.header.nentries;
        if idx > n {
            return Err(BtreeError::Io(IoErrorKind::InvalidInput));
        }
        let key_size: usize = key.len();
        let val_size: usize = val.len();
        let rec_size: usize = self.record_ops.record_size();
        let avail_space: usize = get_var_header(core).available_space as usize;
        if key_size > avail_space || val_size > avail_space || key_size + val_size + rec_size
            > avail_space {
            return Err(BtreeError::Io(IoErrorKind::OutOfMemory));
        }
        let obj_size: usize = key_size + val_size;
        let to_insert_size: usize = obj_size + rec_size;
        let arena_free: usize = self.get_arena_free_space::<K, V>(core);
        if to_insert_size > arena_free {
            self.compact::<K, V>(core);
        }
        self.insert_fitting::<K, V>(core, idx, key, val, overflow);
        Ok(())
    }

    /// Inserts a key and its value before entry `idx`.
    pub fn insert<K: BtreeKey, V: BtreeValue>(
        &self,
        core: &mut NodeCore,
        idx: u32,
        key: &K,
        val: &ValueOrOverflow<V>,
    ) -> (r: Result<(), BtreeError>)
        requires
            self.wf::<K, V>(old(core)@),
            self.insertable::<K, V>(old(core)@, idx as int, val.entry(key.bytes())),
        ensures
            self.insert_outcome::<K, V>(
                old(core)@,
                idx as int,
                val.entry(key.bytes()),
                final(core)@,
                r,
            ),
    {
        let key_bytes = key.serialize();
        let val_bytes = val.serialize();
        self.insert_bytes::<K, V>(
            core,
            idx,
            key_bytes.as_slice(),
            val_bytes.as_slice(),
            val.is_overflow(),
        )
    }
}

//==============================================================================
// Removal
//==============================================================================

/// The bytes of a stretch of entries grow by one entry at a time.
proof fn lemma_stretch_next(l: Layout, es: Seq<Entry>, s: int, i: int)
    requires
        l.wf(),
        0 <= s <= i < es.len(),
    ensures
        l.entries_size(es.subrange(s, i + 1)) == l.entries_size(es.subrange(s, i)) + l.entry_size(
            es[i],
        ),
{
    broadcast use crate::record_sizes::lemma_times;

    assert(es.subrange(s, i + 1) =~= es.subrange(s, i).push(es[i]));
    lemma_data_size_push(es.subrange(s, i), es[i]);
}

/// One more entry before the last ones takes its bytes.
proof fn lemma_stretch_before(l: Layout, es: Seq<Entry>, i: int)
    requires
        l.wf(),
        0 <= i < es.len(),
    ensures
        l.entries_size(es.skip(i)) == l.entries_size(es.skip(i + 1)) + l.entry_size(es[i]),
{
    broadcast use crate::record_sizes::lemma_times;

    assert(es.skip(i) =~= seq![es[i]] + es.skip(i + 1));
    lemma_data_size_add(seq![es[i]], es.skip(i + 1));
    lemma_data_size_one(es[i]);
}

/// A stretch of the entries takes no more than all of them.
proof fn lemma_stretch_bound(l: Layout, es: Seq<Entry>, s: int, t: int)
    requires
        l.wf(),
        0 <= s <= t <= es.len(),
    ensures
        0 <= l.entries_size(es.subrange(s, t)) <= l.entries_size(es),
{
    broadcast use crate::record_sizes::lemma_times;

    assert(es =~= es.take(s) + es.subrange(s, t) + es.skip(t));
    lemma_data_size_add(es.take(s), es.subrange(s, t));
    lemma_data_size_add(es.take(s) + es.subrange(s, t), es.skip(t));
    lemma_data_size_nonneg(es.take(s));
    lemma_data_size_nonneg(es.subrange(s, t));
    lemma_data_size_nonneg(es.skip(t));
}

impl<R: VarRecordOps> VarNodeOps<R> {
    /// `c2` is `c1` without the entries from `s` to before `t`.
    pub open spec fn removed<K: BtreeKey, V: BtreeValue>(
        &self,
        c1: CoreView,
        s: int,
        t: int,
        c2: CoreView,
    ) -> bool {
        &&& self.wf::<K, V>(c2)
        &&& self.entries::<K, V>(c2) == self.entries::<K, V>(c1).take(s) + self.entries::<K, V>(
            c1,
        ).skip(t)
        &&& c2.header == (PersistentHeader {
            nentries: (c1.header.nentries - (t - s)) as u32,
            node_gen: next_gen(c1.header.node_gen),
            ..c1.header
        })
        &&& c2.buf.len() == c1.buf.len()
        &&& tail(c2.buf) == tail(c1.buf)
    }

    /// Bytes of the entries from `s` to before `t`, records included.
    fn stretch_size<K: BtreeKey, V: BtreeValue>(&self, core: &NodeCore, s: u32, t: u32) -> (r:
        usize)
        requires
            self.wf::<K, V>(core@),
            s <= t <= core@.header.nentries,
        ensures
            r as int == self.layout::<K, V>().entries_size(
                self.entries::<K, V>(core@).subrange(s as int, t as int),
            ),
            r <= core@.buf.len(),
    {
        let ghost l = self.layout::<K, V>();
        let ghost es = self.entries::<K, V>(core@);
        let rec_size: usize = self.record_ops.record_size();
        let mut size: usize = 0;
        let mut i: u32 = s;
        assert(es.subrange(s as int, s as int) =~= Seq::<Entry>::empty());
        while i < t
            invariant
                l == self.layout::<K, V>(),
                es == self.entries::<K, V>(core@),
                self.wf::<K, V>(core@),
                rec_size == l.rec,
                s <= i <= t <= core@.header.nentries,
                size as int == l.entries_size(es.subrange(s as int, i as int)),
            decreases t - i,
        {
            proof {
                lemma_stretch_next(l, es, s as int, i as int);
                lemma_stretch_bound(l, es, s as int, i + 1);
                lemma_entry_lens(l, core@.buf, core@.header.nentries as int, i as int);
                lemma_nonneg(l, core@.buf, i as int);
            }
            let key_size: usize = self.get_key_size::<K, V>(core, i);
            let val_size: usize = self.get_value_size::<K, V>(core, i);
            size = size + (key_size + val_size + rec_size);
            i = i + 1;
        }
        proof {
            lemma_stretch_bound(l, es, s as int, t as int);
            lemma_nonneg(l, core@.buf, 0);
        }
        size
    }

    /// Removes the entries from `s` to before `t` and closes the gap between the records.
    fn remove_stretch<K: BtreeKey, V: BtreeValue>(&self, core: &mut NodeCore, s: u32, t: u32)
        requires
            self.wf::<K, V>(old(core)@),
            s <= t <= old(core)@.header.nentries,
        ensures
            self.removed::<K, V>(old(core)@, s as int, t as int, final(core)@),
    {
        broadcast use crate::record_sizes::lemma_times;

        let ghost l = self.layout::<K, V>();
        let ghost es = self.entries::<K, V>(core@);
        let ghost b1 = core@.buf;
        let n: u32 = core.header.nentries;
        let freed: usize = self.stretch_size::<K, V>(core, s, t);
        let src: usize = self.record_offset::<K, V>(core, t);
        let dst: usize = self.record_offset::<K, V>(core, s);
        let end: usize = self.record_offset::<K, V>(core, n);
        let len: usize = core.phys_buf.len();
        let var_hdr = get_var_header(core);
        proof {
            lemma_stretch_bound(l, es, s as int, t as int);
        }
        set_var_header(
            core,
            VarNodeHeader {
                tail_arena_offset: var_hdr.tail_arena_offset,
                available_space: var_hdr.available_space + freed as u16,
            },
        );
        let ghost ba = core@.buf;
        copy_within(&mut core.phys_buf, src, dst, end - src);
        proof {
            let b2 = core@.buf;
            lemma_times_add(l.rec, s as int, t - s);
            lemma_times_add(l.rec, n - (t - s), t - s);
            assert(forall|p: int| 56 <= p < 60 ==> #[trigger] b2[p] == ba[p]);
            assert(forall|p: int| 60 <= p < l.rec_pos(s as int) ==> b1[p] == #[trigger] b2[p]);
            assert(forall|p: int|
                l.rec_pos(s as int) <= p < l.rec_pos(n - (t - s)) ==> b1[p + l.records_size(t - s)]
                    == #[trigger] b2[p]);
            lemma_remove(l, b1, n as int, s as int, t as int, b2);
        }
        core.set_nentries(n - (t - s));
        core.set_gen_after(core.header.node_gen);
    }

    /// Removes the entries from `start_idx` to `end_idx`, the last included.
    ///
    /// In an interior node `end_idx` may be the position of the edge. Then the child before the
    /// removed ones becomes the edge.
    pub fn remove_range<K: BtreeKey, V: BtreeValue>(
        &self,
        core: &mut NodeCore,
        start_idx: u32,
        end_idx: u32,
    ) -> (r: Result<(), BtreeError>)
        requires
            self.wf::<K, V>(old(core)@),
            start_idx <= end_idx <= old(core)@.header.nentries,
            end_idx == old(core)@.header.nentries ==> !old(core)@.header.leaf
                && old(core)@.header.edge_id != EMPTY_BNODEID && start_idx > 0
                && self.entries::<K, V>(old(core)@)[start_idx - 1].val.len() == 8,
        ensures
            r is Ok,
            end_idx < old(core)@.header.nentries ==> self.removed::<K, V>(
                old(core)@,
                start_idx as int,
                end_idx + 1,
                final(core)@,
            ),
            end_idx == old(core)@.header.nentries ==> self.removed::<K, V>(
                CoreView {
                    header: PersistentHeader {
                        edge_id: id_of(self.entries::<K, V>(old(core)@)[start_idx - 1].val),
                        ..old(core)@.header
                    },
                    ..old(core)@
                },
                start_idx - 1,
                end_idx as int,
                final(core)@,
            ),
    {
        let n: u32 = core.header.nentries;
        if end_idx == n {
            let last_val = self.get_nth_value_bytes::<K, V>(core, start_idx - 1);
            core.set_edge(vstd::bytes::u64_from_le_bytes(last_val.as_slice()));
            self.remove_stretch::<K, V>(core, start_idx - 1, n);
        } else {
            self.remove_stretch::<K, V>(core, start_idx, end_idx + 1);
        }
        Ok(())
    }

    /// Removes entry `idx`.
    pub fn remove<K: BtreeKey, V: BtreeValue>(&self, core: &mut NodeCore, idx: u32) -> (r: Result<
        (),
        BtreeError,
    >)
        requires
            self.wf::<K, V>(old(core)@),
            idx <= old(core)@.header.nentries,
            idx == old(core)@.header.nentries ==> !old(core)@.header.leaf
                && old(core)@.header.edge_id != EMPTY_BNODEID && idx > 0 && self.entries::<K, V>(
                old(core)@,
            )[idx - 1].val.len() == 8,
        ensures
            r is Ok,
            idx < old(core)@.header.nentries ==> self.removed::<K, V>(
                old(core)@,
                idx as int,
                idx + 1,
                final(core)@,
            ),
            idx == old(core)@.header.nentries ==> self.removed::<K, V>(
                CoreView {
                    header: PersistentHeader {
                        edge_id: id_of(self.entries::<K, V>(old(core)@)[idx - 1].val),
                        ..old(core)@.header
                    },
                    ..old(core)@
                },
                idx - 1,
                idx as int,
                final(core)@,
            ),
    {
        self.remove_range::<K, V>(core, idx, idx)
    }

    /// Removes all entries and the edge.
    pub fn remove_all<K: BtreeKey, V: BtreeValue>(&self, core: &mut NodeCore)
        requires
            self.wf::<K, V>(old(core)@),
        ensures
            self.wf::<K, V>(final(core)@),
            self.entries::<K, V>(final(core)@) == Seq::<Entry>::empty(),
            final(core)@.header == (PersistentHeader {
                nentries: 0,
                edge_id: EMPTY_BNODEID,
                node_gen: next_gen(old(core)@.header.node_gen),
                ..old(core)@.header
            }),
            final(core)@.buf.len() == old(core)@.buf.len(),
            tail(final(core)@.buf) == old(core)@.buf.len(),
    {
        core.set_nentries(0);
        core.invalidate_edge();
        core.set_gen_after(core.header.node_gen);
        let mut var_hdr = get_var_header(core);
        var_hdr.init(core.node_size() as u16);
        set_var_header(core, var_hdr);
        assert(self.entries::<K, V>(core@) =~= Seq::<Entry>::empty());
    }
}

//==============================================================================
// Access to entries
//==============================================================================

impl<R: VarRecordOps> VarNodeOps<R> {
    /// The key of entry `idx`.
    pub fn get_nth_key<K: BtreeKey, V: BtreeValue>(&self, core: &NodeCore, idx: u32) -> (r: K)
        requires
            self.wf::<K, V>(core@),
            idx < core@.header.nentries,
            K::valid(self.entries::<K, V>(core@)[idx as int].key),
        ensures
            r.bytes() == self.entries::<K, V>(core@)[idx as int].key,
    {
        let bytes = self.get_nth_key_bytes::<K, V>(core, idx);
        K::deserialize_from(bytes.as_slice())
    }

    /// The value of entry `idx`; behind the last entry of an interior node that is the edge.
    pub fn get_nth_value<K: BtreeKey, V: BtreeValue>(&self, core: &NodeCore, idx: u32) -> (r:
        ValueOrOverflow<V>)
        requires
            self.wf::<K, V>(core@),
            idx <= core@.header.nentries,
            idx == core@.header.nentries ==> !core@.header.leaf && core@.header.edge_id
                != EMPTY_BNODEID && V::valid(id_bytes(core@.header.edge_id)),
            idx < core@.header.nentries ==> ValueOrOverflow::<V>::readable(
                self.entries::<K, V>(core@)[idx as int].val,
                self.entries::<K, V>(core@)[idx as int].overflow,
            ),
        ensures
            idx == core@.header.nentries ==> r is Inline && r.stored() == id_bytes(
                core@.header.edge_id,
            ),
            idx < core@.header.nentries ==> r.entry(self.entries::<K, V>(core@)[idx as int].key)
                == self.entries::<K, V>(core@)[idx as int],
    {
        if idx == core.header.nentries {
            let edge = vstd::bytes::u64_to_le_bytes(core.header.edge_id);
            return ValueOrOverflow::Inline(V::deserialize_from(edge.as_slice()));
        }
        let bytes = self.get_nth_value_bytes::<K, V>(core, idx);
        ValueOrOverflow::deserialize_from(bytes.as_slice(), self.entry_overflow::<K, V>(core, idx))
    }

    /// Whether the value of entry `idx` is an overflow reference; an edge never is.
    pub fn is_nth_value_overflow<K: BtreeKey, V: BtreeValue>(&self, core: &NodeCore, idx: u32) -> (r:
        bool)
        requires
            self.wf::<K, V>(core@),
            idx <= core@.header.nentries,
            idx == core@.header.nentries ==> !core@.header.leaf && core@.header.edge_id
                != EMPTY_BNODEID,
        ensures
            r == (idx < core@.header.nentries && self.entries::<K, V>(
                core@,
            )[idx as int].overflow),
    {
        if idx == core.header.nentries {
            return false;
        }
        self.entry_overflow::<K, V>(core, idx)
    }

    /// All keys and values of the node.
    pub fn get_all_kvs<K: BtreeKey, V: BtreeValue>(&self, core: &NodeCore) -> (r: Vec<
        (K, ValueOrOverflow<V>),
    >)
        requires
            self.wf::<K, V>(core@),
            forall|i: int|
                0 <= i < core@.header.nentries ==> {
                    let e = #[trigger] self.entries::<K, V>(core@)[i];
                    K::valid(e.key) && ValueOrOverflow::<V>::readable(e.val, e.overflow)
                },
        ensures
            r@.len() == core@.header.nentries,
            forall|i: int|
                0 <= i < core@.header.nentries ==> #[trigger] r@[i].1.entry(r@[i].0.bytes())
                    == self.entries::<K, V>(core@)[i],
    {
        let n: u32 = core.header.nentries;
        let mut out: Vec<(K, ValueOrOverflow<V>)> = Vec::with_capacity(n as usize);
        let mut i: u32 = 0;
        while i < n
            invariant
                n == core@.header.nentries,
                i <= n,
                self.wf::<K, V>(core@),
                forall|j: int|
                    0 <= j < n ==> {
                        let e = #[trigger] self.entries::<K, V>(core@)[j];
                        K::valid(e.key) && ValueOrOverflow::<V>::readable(e.val, e.overflow)
                    },
                out@.len() == i,
                forall|j: int|
                    0 <= j < i ==> #[trigger] out@[j].1.entry(out@[j].0.bytes()) == self.entries::<
                        K,
                        V,
                    >(core@)[j],
            decreases n - i,
        {
            let ghost e = self.entries::<K, V>(core@)[i as int];
            let key = self.get_nth_key::<K, V>(core, i);
            let val = self.get_nth_value::<K, V>(core, i);
            out.push((key, val));
            i = i + 1;
        }
        out
    }

    /// Free bytes of the node.
    pub fn available_size<K: BtreeKey, V: BtreeValue>(&self, core: &NodeCore) -> (r: u32)
        requires
            self.wf::<K, V>(core@),
        ensures
            r as int == self.free::<K, V>(core@),
    {
        get_var_header(core).available_space as u32
    }

    /// Whether an entry with the given lengths can be put: a new entry needs a record too.
    pub fn has_room_for_put<K: BtreeKey, V: BtreeValue>(
        &self,
        core: &NodeCore,
        put_type: BtreePutType,
        key_size: u32,
        value_size: u32,
    ) -> (r: bool)
        requires
            self.wf::<K, V>(core@),
        ensures
            r == (self.free::<K, V>(core@) >= key_size + value_size + if put_type
                == BtreePutType::Update {
                0
            } else {
                self.layout::<K, V>().rec
            }),
    {
        let mut needed: u64 = key_size as u64 + value_size as u64;
        if put_type == BtreePutType::Insert || put_type == BtreePutType::Upsert {
            needed = needed + self.record_ops.record_size() as u64;
        }
        self.available_size::<K, V>(core) as u64 >= needed
    }

    /// Bytes in use: the header, the records, and everything from the tail offset on.
    pub fn occupied_size<K: BtreeKey, V: BtreeValue>(&self, core: &NodeCore) -> (r: usize)
        requires
            self.wf::<K, V>(core@),
        ensures
            r as int == self.occupied::<K, V>(core@),
    {
        let tail_offset: usize = get_var_header(core).tail_arena_offset as usize;
        let records_end: usize = self.record_offset::<K, V>(core, core.header.nentries);
        VarNodeHeader::size() as usize + (records_end - 60) + (core.node_size() - tail_offset)
    }

    /// Bytes in use: the header, the records, and everything from the tail offset on.
    pub open spec fn occupied<K: BtreeKey, V: BtreeValue>(&self, c: CoreView) -> int {
        4 + self.layout::<K, V>().records_size(c.header.nentries as int) + c.buf.len() - tail(c.buf)
    }

    /// Bytes of the entries from `start_idx` to before `end_idx`, records included.
    pub fn get_entries_size<K: BtreeKey, V: BtreeValue>(
        &self,
        core: &NodeCore,
        start_idx: u32,
        end_idx: u32,
    ) -> (r: u32)
        requires
            self.wf::<K, V>(core@),
            start_idx <= end_idx <= core@.header.nentries,
        ensures
            r as int == self.layout::<K, V>().entries_size(
                self.entries::<K, V>(core@).subrange(start_idx as int, end_idx as int),
            ),
    {
        self.stretch_size::<K, V>(core, start_idx, end_idx) as u32
    }
}

//==============================================================================
// Updates
//==============================================================================

impl<R: VarRecordOps> VarNodeOps<R> {
    /// The node has room for `e` in place of entry `idx`.
    pub open spec fn roomy<K: BtreeKey, V: BtreeValue>(
        &self,
        c: CoreView,
        idx: int,
        e: Entry,
    ) -> bool {
        e.size() <= self.entries::<K, V>(c)[idx].size() + self.free::<K, V>(c)
    }

    /// What an attempt to replace entry `idx` by `e` does. Where `e` is too large for the node,
    /// the attempt fails and the old entry is gone.
    pub open spec fn update_outcome<K: BtreeKey, V: BtreeValue>(
        &self,
        c1: CoreView,
        idx: int,
        e: Entry,
        c2: CoreView,
        r: Result<(), BtreeError>,
    ) -> bool {
        let es = self.entries::<K, V>(c1);
        let roomy = self.roomy::<K, V>(c1, idx, e);
        match r {
            Ok(()) => {
                &&& roomy
                &&& self.wf::<K, V>(c2)
                &&& self.entries::<K, V>(c2) == es.update(idx, e)
                &&& c2.header == (PersistentHeader {
                    node_gen: next_gen(c1.header.node_gen),
                    ..c1.header
                })
                &&& c2.buf.len() == c1.buf.len()
            },
            Err(err) => {
                &&& !roomy
                &&& err == BtreeError::Io(IoErrorKind::OutOfMemory)
                &&& self.removed::<K, V>(c1, idx, idx + 1, c2)
            },
        }
    }

    /// Writes an entry over entry `idx`, in whose place it fits.
    fn replace_in_place<K: BtreeKey, V: BtreeValue>(
        &self,
        core: &mut NodeCore,
        idx: u32,
        key: &[u8],
        val: &[u8],
        overflow: bool,
    )
        requires
            self.wf::<K, V>(old(core)@),
            idx < old(core)@.header.nentries,
            self.layout::<K, V>().fits(Entry { key: key@, val: val@, overflow }),
            key@.len() + val@.len() <= self.entries::<K, V>(old(core)@)[idx as int].size(),
        ensures
            self.wf::<K, V>(final(core)@),
            self.entries::<K, V>(final(core)@) == self.entries::<K, V>(old(core)@).update(
                idx as int,
                Entry { key: key@, val: val@, overflow },
            ),
            final(core)@.header == old(core)@.header,
            final(core)@.buf.len() == old(core)@.buf.len(),
    {
        broadcast use crate::record_sizes::lemma_times;

        let ghost l = self.layout::<K, V>();
        let ghost e = Entry { key: key@, val: val@, overflow };
        let ghost b1 = core@.buf;
        let ghost n = core@.header.nentries as int;
        proof {
            lemma_entry_lens(l, b1, n, idx as int);
            lemma_data_size_update(self.entries::<K, V>(core@), idx as int, e);
            lemma_data_size_nonneg(self.entries::<K, V>(core@).update(idx as int, e));
            assert(l.obj_inside(b1, idx as int));
        }
        let key_size: usize = key.len();
        let val_size: usize = val.len();
        let cur_obj_size: usize = self.get_key_size::<K, V>(core, idx) + self.get_value_size::<
            K,
            V,
        >(core, idx);
        let new_obj_size: usize = key_size + val_size;
        let offset: usize = self.object_offset::<K, V>(core, idx);
        let var_hdr = get_var_header(core);
        set_var_header(
            core,
            VarNodeHeader {
                tail_arena_offset: var_hdr.tail_arena_offset,
                available_space: var_hdr.available_space + (cur_obj_size - new_obj_size) as u16,
            },
        );
        self.set_record::<K, V>(core, idx, offset as u16, key_size, val_size, overflow, Ghost(e));
        let ghost bb = core@.buf;
        write_bytes(&mut core.phys_buf, offset, key);
        write_bytes(&mut core.phys_buf, offset + key_size, val);
        proof {
            let b2 = core@.buf;
            let t = offset as int;
            assert(forall|p: int|
                0 <= p < b2.len() && !(t <= p < t + e.size()) ==> #[trigger] b2[p] == bb[p]);
            assert(b2.subrange(t, t + e.key.len() as int) =~= e.key);
            assert(b2.subrange(t + e.key.len() as int, t + e.size()) =~= e.val);
            lemma_replace(l, b1, n, idx as int, e, b2);
        }
    }

    /// Replaces entry `idx`: in place where the new entry is no larger, else by removing the
    /// old entry and inserting the new one.
    fn replace_bytes<K: BtreeKey, V: BtreeValue>(
        &self,
        core: &mut NodeCore,
        idx: u32,
        key: &[u8],
        val: &[u8],
        overflow: bool,
    ) -> (r: Result<(), BtreeError>)
        requires
            self.wf::<K, V>(old(core)@),
            idx < old(core)@.header.nentries,
            self.roomy::<K, V>(
                old(core)@,
                idx as int,
                (Entry { key: key@, val: val@, overflow }),
            ) ==> self.layout::<K, V>().fits((Entry { key: key@, val: val@, overflow })),
        ensures
            self.update_outcome::<K, V>(
                old(core)@,
                idx as int,
                Entry { key: key@, val: val@, overflow },
                final(core)@,
                r,
            ),
    {
        broadcast use crate::record_sizes::lemma_times;

        let ghost l = self.layout::<K, V>();
        let ghost e = Entry { key: key@, val: val@, overflow };
        let ghost es = self.entries::<K, V>(core@);
        proof {
            lemma_entry_lens(l, core@.buf, core@.header.nentries as int, idx as int);
            lemma_nonneg(l, core@.buf, 0);
            assert(l.obj_inside(core@.buf, idx as int));
        }
        let current_gen: u64 = core.header.node_gen;
        let cur_obj_size: usize = self.get_key_size::<K, V>(core, idx) + self.get_value_size::<
            K,
            V,
        >(core, idx);
        if key.len() <= cur_obj_size && val.len() <= cur_obj_size - key.len() {
            self.replace_in_place::<K, V>(core, idx, key, val, overflow);
        } else {
            self.remove_stretch::<K, V>(core, idx, idx + 1);
            proof {
                let rest = es.take(idx as int) + es.skip(idx + 1);
                assert(rest =~= es.remove(idx as int));
                assert(rest.insert(idx as int, es[idx as int]) =~= es);
                lemma_data_size_insert(rest, idx as int, es[idx as int]);
                assert(rest.insert(idx as int, e) =~= es.update(idx as int, e));
            }
            match self.insert_bytes::<K, V>(core, idx, key, val, overflow) {
                Ok(()) => {},
                Err(err) => {
                    return Err(err);
                },
            }
        }
        core.set_gen_after(current_gen);
        Ok(())
    }

    /// Replaces the value of entry `idx`; behind the last entry of an interior node, the edge.
    pub fn update<K: BtreeKey, V: BtreeValue>(
        &self,
        core: &mut NodeCore,
        idx: u32,
        val: &ValueOrOverflow<V>,
    ) -> (r: Result<(), BtreeError>)
        requires
            self.wf::<K, V>(old(core)@),
            idx <= old(core)@.header.nentries,
            idx == old(core)@.header.nentries ==> !old(core)@.header.leaf && val is Inline
                && val.stored().len() == 8,
            idx < old(core)@.header.nentries && self.roomy::<K, V>(
                old(core)@,
                idx as int,
                val.entry(self.entries::<K, V>(old(core)@)[idx as int].key),
            ) ==> self.layout::<K, V>().fits(
                val.entry(self.entries::<K, V>(old(core)@)[idx as int].key),
            ),
        ensures
            idx == old(core)@.header.nentries ==> r is Ok && final(core)@ == (CoreView {
                header: PersistentHeader { edge_id: id_of(val.stored()), ..old(core)@.header },
                ..old(core)@
            }),
            idx < old(core)@.header.nentries ==> self.update_outcome::<K, V>(
                old(core)@,
                idx as int,
                val.entry(self.entries::<K, V>(old(core)@)[idx as int].key),
                final(core)@,
                r,
            ),
    {
        let val_bytes = val.serialize();
        if idx == core.header.nentries {
            core.set_edge(vstd::bytes::u64_from_le_bytes(val_bytes.as_slice()));
            return Ok(());
        }
        let key_bytes = self.get_nth_key_bytes::<K, V>(core, idx);
        self.replace_bytes::<K, V>(
            core,
            idx,
            key_bytes.as_slice(),
            val_bytes.as_slice(),
            val.is_overflow(),
        )
    }

    /// Replaces key and value of entry `idx`; behind the last entry of an interior node, the
    /// edge.
    pub fn update_with_key<K: BtreeKey, V: BtreeValue>(
        &self,
        core: &mut NodeCore,
        idx: u32,
        key: &K,
        val: &ValueOrOverflow<V>,
    ) -> (r: Result<(), BtreeError>)
        requires
            self.wf::<K, V>(old(core)@),
            idx <= old(core)@.header.nentries,
            idx == old(core)@.header.nentries ==> !old(core)@.header.leaf && val is Inline
                && val.stored().len() == 8,
            idx < old(core)@.header.nentries && self.roomy::<K, V>(
                old(core)@,
                idx as int,
                val.entry(key.bytes()),
            ) ==> self.layout::<K, V>().fits(val.entry(key.bytes())),
        ensures
            idx == old(core)@.header.nentries ==> r is Ok && final(core)@ == (CoreView {
                header: PersistentHeader { edge_id: id_of(val.stored()), ..old(core)@.header },
                ..old(core)@
            }),
            idx < old(core)@.header.nentries ==> self.update_outcome::<K, V>(
                old(core)@,
                idx as int,
                val.entry(key.bytes()),
                final(core)@,
                r,
            ),
    {
        let val_bytes = val.serialize();
        if idx == core.header.nentries {
            core.set_edge(vstd::bytes::u64_from_le_bytes(val_bytes.as_slice()));
            return Ok(());
        }
        let key_bytes = key.serialize();
        self.replace_bytes::<K, V>(
            core,
            idx,
            key_bytes.as_slice(),
            val_bytes.as_slice(),
            val.is_overflow(),
        )
    }
}

//==============================================================================
// Moving and copying entries between nodes
//==============================================================================

impl<R: VarRecordOps> VarNodeOps<R> {
    /// The last `m` entries of node `c1` have gone to the front of node `d1`, which makes `c2`
    /// and `d2`. The edge of an interior node goes along, unless the right node is left empty.
    pub open spec fn moved_right<K: BtreeKey, V: BtreeValue>(
        &self,
        c1: CoreView,
        d1: CoreView,
        m: int,
        c2: CoreView,
        d2: CoreView,
    ) -> bool {
        let es = self.entries::<K, V>(c1);
        let ds = self.entries::<K, V>(d1);
        let n = c1.header.nentries;
        let edge_moves = !c1.header.leaf && d1.header.nentries + m != 0 && c1.header.edge_id
            != EMPTY_BNODEID;
        &&& 0 <= m <= n
        &&& self.wf::<K, V>(c2)
        &&& self.wf::<K, V>(d2)
        &&& self.entries::<K, V>(c2) == es.take(n - m)
        &&& self.entries::<K, V>(d2) == es.skip(n - m) + ds
        &&& c2.header == (PersistentHeader {
            nentries: (n - m) as u32,
            node_gen: next_gen(c1.header.node_gen),
            edge_id: if edge_moves {
                EMPTY_BNODEID
            } else {
                c1.header.edge_id
            },
            ..c1.header
        })
        &&& d2.header == (PersistentHeader {
            nentries: (d1.header.nentries + m) as u32,
            node_gen: next_gen(d1.header.node_gen),
            edge_id: if edge_moves {
                c1.header.edge_id
            } else {
                d1.header.edge_id
            },
            ..d1.header
        })
        &&& c2.buf.len() == c1.buf.len()
        &&& d2.buf.len() == d1.buf.len()
    }

    /// Whether the next entry, from the right, does not fit into node `d1` after the last `m`
    /// entries of node `c1`.
    pub open spec fn right_is_full<K: BtreeKey, V: BtreeValue>(
        &self,
        c1: CoreView,
        d1: CoreView,
        m: int,
    ) -> bool {
        let es = self.entries::<K, V>(c1);
        let n = c1.header.nentries;
        let l = self.layout::<K, V>();
        l.entry_size(es[n - m - 1]) > l.free(
            d1.buf.len() as int,
            es.skip(n - m) + self.entries::<K, V>(d1),
        )
    }

    /// Puts the entry before the last `m` of `src` to the front of `dst`, which holds those
    /// already. Answers whether it fitted.
    fn move_one<K: BtreeKey, V: BtreeValue>(
        &self,
        src: &NodeCore,
        dst: &mut NodeCore,
        m: u32,
        Ghost(d1): Ghost<CoreView>,
    ) -> (r: bool)
        requires
            self.wf::<K, V>(src@),
            self.wf::<K, V>(old(dst)@),
            self.wf::<K, V>(d1),
            m < src@.header.nentries,
            self.entries::<K, V>(old(dst)@) == self.entries::<K, V>(src@).skip(
                src@.header.nentries - m,
            ) + self.entries::<K, V>(d1),
            old(dst)@.header.nentries == d1.header.nentries + m,
            old(dst)@.buf.len() == d1.buf.len(),
        ensures
            self.wf::<K, V>(final(dst)@),
            r == !self.right_is_full::<K, V>(src@, d1, m as int),
            r ==> self.entries::<K, V>(final(dst)@) == self.entries::<K, V>(src@).skip(
                src@.header.nentries - m - 1,
            ) + self.entries::<K, V>(d1),
            !r ==> self.entries::<K, V>(final(dst)@) == self.entries::<K, V>(old(dst)@),
            final(dst)@.header == (PersistentHeader {
                nentries: (old(dst)@.header.nentries + if r {
                    1int
                } else {
                    0int
                }) as u32,
                node_gen: final(dst)@.header.node_gen,
                ..old(dst)@.header
            }),
            r ==> old(dst)@.header.nentries < u32::MAX,
            final(dst)@.buf.len() == old(dst)@.buf.len(),
    {
        let ghost es = self.entries::<K, V>(src@);
        let ghost n = src@.header.nentries as int;
        let idx: u32 = src.header.nentries - m - 1;
        proof {
            lemma_entry_lens(self.layout::<K, V>(), src@.buf, n, idx as int);
            assert(self.layout::<K, V>().rec_pos(old(dst)@.header.nentries as int) <= 0xffff);
        }
        let key = self.get_nth_key_bytes::<K, V>(src, idx);
        let val = self.get_nth_value_bytes::<K, V>(src, idx);
        let overflow: bool = self.entry_overflow::<K, V>(src, idx);
        let ghost e = Entry { key: key@, val: val@, overflow };
        assert(e =~= es[idx as int]);
        let result = self.insert_bytes::<K, V>(
            dst,
            0,
            key.as_slice(),
            val.as_slice(),
            overflow,
        );
        proof {
            if result is Ok {
                assert((es.skip(n - m) + self.entries::<K, V>(d1)).insert(0, e) =~= es.skip(n - m - 1)
                    + self.entries::<K, V>(d1));
            }
        }
        result.is_ok()
    }

    /// Takes the last `m` entries, which `dst` has received, out of `src`, and lets the edge
    /// follow them.
    fn finish_move<K: BtreeKey, V: BtreeValue>(
        &self,
        src: &mut NodeCore,
        dst: &mut NodeCore,
        m: u32,
        dst_gen: u64,
        Ghost(d1): Ghost<CoreView>,
    )
        requires
            self.wf::<K, V>(old(src)@),
            self.wf::<K, V>(old(dst)@),
            m <= old(src)@.header.nentries,
            self.entries::<K, V>(old(dst)@) == self.entries::<K, V>(old(src)@).skip(
                old(src)@.header.nentries - m,
            ) + self.entries::<K, V>(d1),
            old(dst)@.header == (PersistentHeader {
                nentries: (d1.header.nentries + m) as u32,
                node_gen: old(dst)@.header.node_gen,
                ..d1.header
            }),
            d1.header.nentries + m <= u32::MAX,
            dst_gen == d1.header.node_gen,
            old(dst)@.buf.len() == d1.buf.len(),
        ensures
            self.moved_right::<K, V>(old(src)@, d1, m as int, final(src)@, final(dst)@),
    {
        let ghost es = self.entries::<K, V>(src@);
        let n: u32 = src.header.nentries;
        let src_gen: u64 = src.header.node_gen;
        self.remove_stretch::<K, V>(src, n - m, n);
        proof {
            assert(es.take(n - m) + es.skip(n as int) =~= es.take(n - m));
        }
        if !src.is_leaf() && dst.header.nentries != 0 {
            let edge_id: BNodeId = src.header.edge_id;
            if edge_id != EMPTY_BNODEID {
                dst.set_edge(edge_id);
                src.invalidate_edge();
            }
        }
        src.set_gen_after(src_gen);
        dst.set_gen_after(dst_gen);
    }

    /// Moves up to `nentries` entries from the end of `src` to the front of `dst`, as many as
    /// fit, and answers how many.
    pub fn move_out_to_right_by_entries<K: BtreeKey, V: BtreeValue>(
        &self,
        src: &mut NodeCore,
        dst: &mut NodeCore,
        nentries: u32,
    ) -> (r: u32)
        requires
            self.wf::<K, V>(old(src)@),
            self.wf::<K, V>(old(dst)@),
        ensures
            nentries == 0 || old(src)@.header.nentries == 0 ==> r == 0 && final(src)@ == old(src)@
                && final(dst)@ == old(dst)@,
            nentries > 0 && old(src)@.header.nentries > 0 ==> self.moved_right::<K, V>(
                old(src)@,
                old(dst)@,
                r as int,
                final(src)@,
                final(dst)@,
            ),
            r <= nentries,
            r < nentries && r < old(src)@.header.nentries ==> self.right_is_full::<K, V>(
                old(src)@,
                old(dst)@,
                r as int,
            ),
    {
        let n: u32 = src.header.nentries;
        let limit: u32 = if nentries < n {
            nentries
        } else {
            n
        };
        if limit == 0 {
            return 0;
        }
        let ghost d1 = dst@;
        let ghost es = self.entries::<K, V>(src@);
        let dst_gen: u64 = dst.header.node_gen;
        let mut moved: u32 = 0;
        assert(es.skip(n as int) + self.entries::<K, V>(d1) =~= self.entries::<K, V>(d1));
        while moved < limit
            invariant
                src@ == old(src)@,
                self.wf::<K, V>(src@),
                self.wf::<K, V>(dst@),
                self.wf::<K, V>(d1),
                n == src@.header.nentries,
                es == self.entries::<K, V>(src@),
                moved <= limit <= n,
                self.entries::<K, V>(dst@) == es.skip(n - moved) + self.entries::<K, V>(d1),
                dst@.header == (PersistentHeader {
                    nentries: (d1.header.nentries + moved) as u32,
                    node_gen: dst@.header.node_gen,
                    ..d1.header
                }),
                d1.header.nentries + moved <= u32::MAX,
                dst@.buf.len() == d1.buf.len(),
            ensures
                moved <= limit,
                self.entries::<K, V>(dst@) == es.skip(n - moved) + self.entries::<K, V>(d1),
                moved < limit ==> self.right_is_full::<K, V>(src@, d1, moved as int),
            decreases limit - moved,
        {
            if !self.move_one::<K, V>(src, dst, moved, Ghost(d1)) {
                break;
            }
            moved = moved + 1;
        }
        self.finish_move::<K, V>(src, dst, moved, dst_gen, Ghost(d1));
        moved
    }

    /// Moves entries from the end of `src` to the front of `dst` while they fit and take no
    /// more than `size_to_move` bytes in all, and answers how many.
    pub fn move_out_to_right_by_size<K: BtreeKey, V: BtreeValue>(
        &self,
        src: &mut NodeCore,
        dst: &mut NodeCore,
        size_to_move: u32,
    ) -> (r: u32)
        requires
            self.wf::<K, V>(old(src)@),
            self.wf::<K, V>(old(dst)@),
        ensures
            old(src)@.header.nentries == 0 ==> r == 0 && final(src)@ == old(src)@ && final(dst)@
                == old(dst)@,
            old(src)@.header.nentries > 0 ==> self.moved_right::<K, V>(
                old(src)@,
                old(dst)@,
                r as int,
                final(src)@,
                final(dst)@,
            ),
            self.layout::<K, V>().entries_size(
                self.entries::<K, V>(old(src)@).skip(old(src)@.header.nentries - r),
            ) <= size_to_move,
            r < old(src)@.header.nentries ==> self.right_is_full::<K, V>(
                old(src)@,
                old(dst)@,
                r as int,
            ) || self.layout::<K, V>().entries_size(
                self.entries::<K, V>(old(src)@).skip(old(src)@.header.nentries - r - 1),
            ) > size_to_move,
    {
        let n: u32 = src.header.nentries;
        let ghost l = self.layout::<K, V>();
        let ghost d1 = dst@;
        let ghost es = self.entries::<K, V>(src@);
        assert(es.skip(n as int) =~= Seq::<Entry>::empty());
        if n == 0 {
            return 0;
        }
        let dst_gen: u64 = dst.header.node_gen;
        let rec_size: usize = self.record_ops.record_size();
        let mut left: u32 = size_to_move;
        let mut moved: u32 = 0;
        assert(es.skip(n as int) + self.entries::<K, V>(d1) =~= self.entries::<K, V>(d1));
        while moved < n
            invariant
                src@ == old(src)@,
                self.wf::<K, V>(src@),
                self.wf::<K, V>(dst@),
                self.wf::<K, V>(d1),
                n == src@.header.nentries,
                l == self.layout::<K, V>(),
                rec_size == l.rec,
                es == self.entries::<K, V>(src@),
                moved <= n,
                self.entries::<K, V>(dst@) == es.skip(n - moved) + self.entries::<K, V>(d1),
                left == size_to_move - l.entries_size(es.skip(n - moved)),
                dst@.header == (PersistentHeader {
                    nentries: (d1.header.nentries + moved) as u32,
                    node_gen: dst@.header.node_gen,
                    ..d1.header
                }),
                d1.header.nentries + moved <= u32::MAX,
                dst@.buf.len() == d1.buf.len(),
            ensures
                moved <= n,
                self.entries::<K, V>(dst@) == es.skip(n - moved) + self.entries::<K, V>(d1),
                moved < n ==> self.right_is_full::<K, V>(src@, d1, moved as int) || l.entries_size(
                    es.skip(n - moved - 1),
                ) > size_to_move,
            decreases n - moved,
        {
            let idx: u32 = n - moved - 1;
            proof {
                lemma_entry_lens(l, src@.buf, n as int, idx as int);
                assert(l.obj_inside(src@.buf, idx as int));
                lemma_stretch_before(l, es, idx as int);
                lemma_nonneg(l, src@.buf, idx as int);
            }
            let key_size: usize = self.get_key_size::<K, V>(src, idx);
            let val_size: usize = self.get_value_size::<K, V>(src, idx);
            let entry_size: u32 = (key_size + val_size + rec_size) as u32;
            if entry_size > left {
                break;
            }
            if !self.move_one::<K, V>(src, dst, moved, Ghost(d1)) {
                break;
            }
            moved = moved + 1;
            left = left - entry_size;
        }
        self.finish_move::<K, V>(src, dst, moved, dst_gen, Ghost(d1));
        moved
    }

    /// Node `d2` is node `d1` with the entries of `c` from `start` to before `start + m` behind
    /// its own, and with the edge of `c` where they reach its end.
    pub open spec fn copied<K: BtreeKey, V: BtreeValue>(
        &self,
        d1: CoreView,
        c: CoreView,
        start: int,
        m: int,
        d2: CoreView,
    ) -> bool {
        let es = self.entries::<K, V>(c);
        let n = c.header.nentries;
        &&& 0 <= m <= n - start
        &&& self.wf::<K, V>(d2)
        &&& self.entries::<K, V>(d2) == self.entries::<K, V>(d1) + es.subrange(start, start + m)
        &&& d2.header == (PersistentHeader {
            nentries: (d1.header.nentries + m) as u32,
            node_gen: next_gen(d1.header.node_gen),
            edge_id: if !c.header.leaf && c.header.edge_id != EMPTY_BNODEID && start + m == n {
                c.header.edge_id
            } else {
                d1.header.edge_id
            },
            ..d1.header
        })
        &&& d1.header.nentries + m <= u32::MAX
        &&& d2.buf.len() == d1.buf.len()
        &&& self.occupied::<K, V>(d2) == self.layout::<K, V>().used_with(
            d1.buf.len() as int,
            self.occupied::<K, V>(d1),
            self.entries::<K, V>(d1),
            es.subrange(start, start + m),
        )
    }

    /// As many entries as `m` from `start` on take no more than `size` bytes and fit into
    /// `d1`, and one more would not.
    pub open spec fn copy_limit<K: BtreeKey, V: BtreeValue>(
        &self,
        d1: CoreView,
        c: CoreView,
        start: int,
        m: int,
        size: int,
    ) -> bool {
        let es = self.entries::<K, V>(c);
        let ds = self.entries::<K, V>(d1);
        let l = self.layout::<K, V>();
        &&& l.entries_size(es.subrange(start, start + m)) <= size
        &&& start + m < c.header.nentries ==> l.entries_size(es.subrange(start, start + m + 1))
            > size || l.entry_size(es[start + m]) > l.free(
            d1.buf.len() as int,
            ds + es.subrange(start, start + m),
        )
    }

    /// Copies entries of `src`, from `start_idx` on, behind those of `dst` while they fit and
    /// take no more than `copy_size` bytes in all, and answers how many.
    pub fn copy_by_size<K: BtreeKey, V: BtreeValue>(
        &self,
        dst: &mut NodeCore,
        src: &NodeCore,
        start_idx: u32,
        copy_size: u32,
    ) -> (r: u32)
        requires
            self.wf::<K, V>(old(dst)@),
            self.wf::<K, V>(src@),
            start_idx <= src@.header.nentries,
        ensures
            self.copied::<K, V>(old(dst)@, src@, start_idx as int, r as int, final(dst)@),
            self.copy_limit::<K, V>(
                old(dst)@,
                src@,
                start_idx as int,
                r as int,
                copy_size as int,
            ),
    {
        let ghost l = self.layout::<K, V>();
        let ghost d1 = dst@;
        let ghost es = self.entries::<K, V>(src@);
        let ghost ds = self.entries::<K, V>(d1);
        let this_gen: u64 = dst.header.node_gen;
        let n: u32 = src.header.nentries;
        let rec_size: usize = self.record_ops.record_size();
        let mut left: u32 = copy_size;
        let mut idx: u32 = start_idx;
        assert(es.subrange(start_idx as int, start_idx as int) =~= Seq::<Entry>::empty());
        assert(ds + Seq::<Entry>::empty() =~= ds);
        while idx < n
            invariant
                self.wf::<K, V>(src@),
                self.wf::<K, V>(dst@),
                self.wf::<K, V>(d1),
                n == src@.header.nentries,
                l == self.layout::<K, V>(),
                rec_size == l.rec,
                es == self.entries::<K, V>(src@),
                ds == self.entries::<K, V>(d1),
                start_idx <= idx <= n,
                self.entries::<K, V>(dst@) == ds + es.subrange(start_idx as int, idx as int),
                left == copy_size - l.entries_size(es.subrange(start_idx as int, idx as int)),
                dst@.header == (PersistentHeader {
                    nentries: (d1.header.nentries + (idx - start_idx)) as u32,
                    node_gen: dst@.header.node_gen,
                    ..d1.header
                }),
                d1.header.nentries + (idx - start_idx) <= u32::MAX,
                dst@.buf.len() == d1.buf.len(),
                self.occupied::<K, V>(dst@) == l.used_with(
                    d1.buf.len() as int,
                    self.occupied::<K, V>(d1),
                    ds,
                    es.subrange(start_idx as int, idx as int),
                ),
            ensures
                idx <= n,
                self.entries::<K, V>(dst@) == ds + es.subrange(start_idx as int, idx as int),
                idx < n ==> l.entries_size(es.subrange(start_idx as int, idx + 1)) > copy_size
                    || l.entry_size(es[idx as int]) > l.free(
                    d1.buf.len() as int,
                    ds + es.subrange(start_idx as int, idx as int),
                ),
            decreases n - idx,
        {
            proof {
                lemma_entry_lens(l, src@.buf, n as int, idx as int);
                assert(l.obj_inside(src@.buf, idx as int));
                lemma_stretch_next(l, es, start_idx as int, idx as int);
                lemma_nonneg(l, src@.buf, idx as int);
                assert(l.rec_pos(dst@.header.nentries as int) <= 0xffff);
            }
            let key_size: usize = self.get_key_size::<K, V>(src, idx);
            let val_size: usize = self.get_value_size::<K, V>(src, idx);
            let entry_size: u32 = (key_size + val_size + rec_size) as u32;
            if entry_size > left {
                break;
            }
            let key = self.get_nth_key_bytes::<K, V>(src, idx);
            let val = self.get_nth_value_bytes::<K, V>(src, idx);
            let overflow: bool = self.entry_overflow::<K, V>(src, idx);
            let ghost e = Entry { key: key@, val: val@, overflow };
            assert(e =~= es[idx as int]);
            let dst_nentries: u32 = dst.header.nentries;
            if self.insert_bytes::<K, V>(
                dst,
                dst_nentries,
                key.as_slice(),
                val.as_slice(),
                overflow,
            ).is_err() {
                break;
            }
            proof {
                let before = ds + es.subrange(start_idx as int, idx as int);
                assert(es.subrange(start_idx as int, idx + 1).drop_last() =~= es.subrange(
                    start_idx as int,
                    idx as int,
                ));
                assert(before.insert(before.len() as int, e) =~= ds + es.subrange(
                    start_idx as int,
                    idx + 1,
                ));
            }
            idx = idx + 1;
            left = left - entry_size;
        }
        let copied: u32 = idx - start_idx;
        dst.set_gen_after(this_gen);
        if !src.is_leaf() && src.has_valid_edge() && start_idx + copied == n {
            dst.set_edge(src.header.edge_id);
        }
        copied
    }

    /// What an attempt to append the entries of `c` from `cursor` on to `d1` does, up to
    /// `upto_size` bytes in use, and all or none where `all_or_none` asks for that. Answers
    /// whether entries are left.
    pub open spec fn append_outcome<K: BtreeKey, V: BtreeValue>(
        &self,
        d1: CoreView,
        c: CoreView,
        cursor: int,
        upto_size: int,
        all_or_none: bool,
        d2: CoreView,
        cursor2: int,
        r: bool,
    ) -> bool {
        let n = c.header.nentries;
        let room = upto_size - self.occupied::<K, V>(d1);
        let rest = self.layout::<K, V>().entries_size(
            self.entries::<K, V>(c).subrange(cursor, n as int),
        );
        if cursor >= n {
            &&& !r
            &&& cursor2 == cursor
            &&& d2 == if c.header.edge_id != EMPTY_BNODEID && d1.header.edge_id == EMPTY_BNODEID {
                CoreView {
                    header: PersistentHeader { edge_id: c.header.edge_id, ..d1.header },
                    ..d1
                }
            } else {
                d1
            }
        } else if room <= 0 || all_or_none && rest > room {
            r && cursor2 == cursor && d2 == d1
        } else {
            &&& r == (cursor2 < n)
            &&& self.copied::<K, V>(d1, c, cursor, cursor2 - cursor, d2)
            &&& self.copy_limit::<K, V>(d1, c, cursor, cursor2 - cursor, room)
        }
    }

    /// Bytes that entries can take in a node before it has `upto_size` bytes in use or is full.
    pub open spec fn append_room<K: BtreeKey, V: BtreeValue>(
        &self,
        d: CoreView,
        upto_size: int,
    ) -> int {
        if upto_size - self.occupied::<K, V>(d) <= self.free::<K, V>(d) {
            upto_size - self.occupied::<K, V>(d)
        } else {
            self.free::<K, V>(d)
        }
    }

    /// How many entries are appended, and the bytes in use afterwards.
    pub proof fn lemma_append_count<K: BtreeKey, V: BtreeValue>(
        &self,
        d1: CoreView,
        c: CoreView,
        cursor: int,
        upto_size: int,
        all_or_none: bool,
        d2: CoreView,
        cursor2: int,
        r: bool,
    )
        requires
            self.wf::<K, V>(d1),
            self.wf::<K, V>(c),
            0 <= cursor <= c.header.nentries,
            self.append_outcome::<K, V>(
                d1,
                c,
                cursor,
                upto_size,
                all_or_none,
                d2,
                cursor2,
                r,
            ),
        ensures
            ({
                let rest = self.layout::<K, V>().entries_size(
                    self.entries::<K, V>(c).skip(cursor),
                );
                cursor2 - cursor == if all_or_none && rest > upto_size - self.occupied::<K, V>(
                    d1,
                ) {
                    0
                } else {
                    self.layout::<K, V>().fitting(
                        self.append_room::<K, V>(d1, upto_size),
                        self.entries::<K, V>(c).skip(cursor),
                    )
                }
            }),
            self.occupied::<K, V>(d2) == self.layout::<K, V>().used_with(
                d1.buf.len() as int,
                self.occupied::<K, V>(d1),
                self.entries::<K, V>(d1),
                self.entries::<K, V>(c).subrange(cursor, cursor2),
            ),
    {
        let l = self.layout::<K, V>();
        let n = c.header.nentries as int;
        let es = self.entries::<K, V>(c);
        let ds = self.entries::<K, V>(d1);
        let e = es.skip(cursor);
        let room = self.append_room::<K, V>(d1, upto_size);
        let m = cursor2 - cursor;
        assert(es.subrange(cursor, n) =~= e);
        assert(e.take(m) =~= es.subrange(cursor, cursor2));
        let budget = upto_size - self.occupied::<K, V>(d1);
        let rest = l.entries_size(e);
        if cursor < n && budget > 0 && !(all_or_none && rest > budget) {
            lemma_data_size_add(ds, e.take(m));
            lemma_times_add(l.rec, ds.len() as int, m);
            if m < e.len() {
                assert(e.take(m + 1) =~= es.subrange(cursor, cursor + m + 1));
                lemma_stretch_next(l, es, cursor, cursor + m);
            }
            lemma_fitting(l, room, e, m);
        }
    }

    /// Appends entries of `src`, from the cursor on, to `dst` until `dst` has `upto_size` bytes
    /// in use, and moves the cursor along. Answers whether `src` has entries left.
    pub fn append_copy_in_upto_size<K: BtreeKey, V: BtreeValue>(
        &self,
        dst: &mut NodeCore,
        src: &NodeCore,
        other_cursor: &mut u32,
        upto_size: u32,
        copy_only_if_fits: bool,
    ) -> (r: bool)
        requires
            self.wf::<K, V>(old(dst)@),
            self.wf::<K, V>(src@),
        ensures
            self.append_outcome::<K, V>(
                old(dst)@,
                src@,
                *old(other_cursor) as int,
                upto_size as int,
                copy_only_if_fits,
                final(dst)@,
                *final(other_cursor) as int,
                r,
            ),
    {
        let n: u32 = src.header.nentries;
        if *other_cursor >= n {
            if src.has_valid_edge() && !dst.has_valid_edge() {
                dst.set_edge(src.header.edge_id);
            }
            return false;
        }
        let dst_occupied: usize = self.occupied_size::<K, V>(dst);
        if dst_occupied >= upto_size as usize {
            return true;
        }
        let room: u32 = upto_size - dst_occupied as u32;
        if copy_only_if_fits {
            let entries_size: u32 = self.get_entries_size::<K, V>(src, *other_cursor, n);
            if entries_size > room {
                return true;
            }
        }
        let ncopied: u32 = self.copy_by_size::<K, V>(dst, src, *other_cursor, room);
        *other_cursor = *other_cursor + ncopied;
        *other_cursor < n
    }
}

} // verus!
