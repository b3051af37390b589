//! What the bytes of a variable-length node mean.
//!
//! A [`Layout`] says how long a record is and where it keeps the two lengths. From it follow
//! the entries that a buffer holds and whether the buffer is in order.

use vstd::prelude::*;
use vstd::set_lib::{lemma_int_range, lemma_len_subset, lemma_set_disjoint_lens, set_int_range};
use crate::btree_kvs::Entry;
use crate::bytes::rd16;
use crate::record_sizes::{lemma_times_add, times};
use crate::varlen_node_common::{packed_len, packed_overflow};

verus! {

broadcast use crate::record_sizes::lemma_times;

/// Shape of the records of a node.
///
/// A length comes from the fixed size where there is one, and else from the field at the given
/// offset inside the record.
#[verifier::ext_equal]
pub struct Layout {
    /// Bytes per record, four or six.
    pub rec: int,
    pub key_field: Option<int>,
    pub key_fixed: Option<int>,
    pub val_field: Option<int>,
    pub val_fixed: Option<int>,
}

/// Offset of the lowest data byte.
pub open spec fn tail(b: Seq<u8>) -> int {
    rd16(b, 56)
}

/// Free bytes, as the node header counts them.
pub open spec fn avail(b: Seq<u8>) -> int {
    rd16(b, 58)
}

/// Bytes that keys and values of the entries take.
pub open spec fn data_size(es: Seq<Entry>) -> int
    decreases es.len(),
{
    if es.len() == 0 {
        0
    } else {
        data_size(es.drop_last()) + es.last().size()
    }
}

impl Layout {
    pub open spec fn wf(self) -> bool {
        &&& 2 <= self.rec <= 0xffff
        &&& self.key_field matches Some(p) ==> 2 <= p <= self.rec - 2
        &&& self.val_field matches Some(p) ==> 2 <= p <= self.rec - 2
        &&& self.key_fixed matches Some(n) ==> 0 <= n
        &&& self.val_fixed matches Some(n) ==> 0 <= n
        &&& self.key_fixed is None ==> self.key_field is Some
        &&& self.val_fixed is None ==> self.val_field is Some
        &&& self.val_fixed is Some && self.val_field is Some ==> self.val_fixed->0 <= 0x7fff
        &&& self.key_field is Some && self.val_field is Some ==> self.key_field->0 + 2
            <= self.val_field->0 || self.val_field->0 + 2 <= self.key_field->0
    }

    /// The same records where the types of keys and values fix their lengths.
    pub open spec fn with_fixed(self, key: Option<u32>, val: Option<u32>) -> Layout {
        Layout {
            key_fixed: match key {
                Some(n) => Some(n as int),
                None => self.key_fixed,
            },
            val_fixed: match val {
                Some(n) => Some(n as int),
                None => self.val_fixed,
            },
            ..self
        }
    }

    /// Bytes that `n` records take.
    pub open spec fn records_size(self, n: int) -> int {
        times(self.rec, n)
    }

    /// Offset of record `i`.
    pub open spec fn rec_pos(self, i: int) -> int {
        60 + self.records_size(i)
    }

    /// Offset of the data of entry `i`.
    pub open spec fn off(self, b: Seq<u8>, i: int) -> int {
        rd16(b, self.rec_pos(i))
    }

    pub open spec fn key_len(self, b: Seq<u8>, i: int) -> int {
        match self.key_fixed {
            Some(n) => n,
            None => rd16(b, self.rec_pos(i) + self.key_field->0),
        }
    }

    pub open spec fn val_len(self, b: Seq<u8>, i: int) -> int {
        match self.val_fixed {
            Some(n) => n,
            None => packed_len(rd16(b, self.rec_pos(i) + self.val_field->0)),
        }
    }

    pub open spec fn overflow(self, b: Seq<u8>, i: int) -> bool {
        match self.val_field {
            Some(p) => packed_overflow(rd16(b, self.rec_pos(i) + p)),
            None => false,
        }
    }

    /// Bytes of the data of entry `i`.
    pub open spec fn obj_len(self, b: Seq<u8>, i: int) -> int {
        self.key_len(b, i) + self.val_len(b, i)
    }

    pub open spec fn entry(self, b: Seq<u8>, i: int) -> Entry {
        let o = self.off(b, i);
        let k = self.key_len(b, i);
        Entry {
            key: b.subrange(o, o + k),
            val: b.subrange(o + k, o + k + self.val_len(b, i)),
            overflow: self.overflow(b, i),
        }
    }

    /// The entries of a buffer with `n` records.
    pub open spec fn entries(self, b: Seq<u8>, n: int) -> Seq<Entry> {
        Seq::new(n as nat, |i: int| self.entry(b, i))
    }

    /// Whether records of this layout can describe the entry.
    pub open spec fn fits(self, e: Entry) -> bool {
        &&& self.key_fixed matches Some(n) ==> e.key.len() == n
        &&& self.val_fixed matches Some(n) ==> e.val.len() == n
        &&& self.key_field is Some ==> e.key.len() <= 0xffff
        &&& self.val_field is Some ==> e.val.len() <= 0x7fff
        &&& self.val_field is None ==> !e.overflow
    }

    /// Bytes that an entry takes, record included.
    pub open spec fn entry_size(self, e: Entry) -> int {
        e.size() + self.rec
    }

    /// Bytes that entries take, records included.
    pub open spec fn entries_size(self, es: Seq<Entry>) -> int {
        self.records_size(es.len() as int) + data_size(es)
    }

    /// Bytes in use of a node of `len` bytes, with `occ` bytes in use for the entries `es`, once
    /// an entry has been inserted. The data is packed first if there are not enough free bytes
    /// between the records and the data.
    pub open spec fn used_after(self, len: int, occ: int, es: Seq<Entry>, e: Entry) -> int {
        if self.entry_size(e) > len - 56 - occ {
            4 + self.entries_size(es) + self.entry_size(e)
        } else {
            occ + self.entry_size(e)
        }
    }

    /// Bytes in use once further entries have been appended, one by one.
    pub open spec fn used_with(self, len: int, occ: int, es: Seq<Entry>, more: Seq<Entry>) -> int
        decreases more.len(),
    {
        if more.len() == 0 {
            occ
        } else {
            self.used_after(
                len,
                self.used_with(len, occ, es, more.drop_last()),
                es + more.drop_last(),
                more.last(),
            )
        }
    }

    /// How many of the entries, from the first one on, fit into `room` bytes.
    pub open spec fn fitting(self, room: int, es: Seq<Entry>) -> int
        decreases es.len(),
    {
        if es.len() == 0 || self.entry_size(es[0]) > room {
            0
        } else {
            1 + self.fitting(room - self.entry_size(es[0]), es.skip(1))
        }
    }

    /// Free bytes of a node of `len` bytes that holds the entries.
    pub open spec fn free(self, len: int, es: Seq<Entry>) -> int {
        len - 60 - self.entries_size(es)
    }

    /// Whether the data of entry `i` lies in the data area.
    pub open spec fn obj_inside(self, b: Seq<u8>, i: int) -> bool {
        tail(b) <= self.off(b, i) && self.off(b, i) + self.obj_len(b, i) <= b.len()
    }

    /// Whether the data of two entries lie apart.
    pub open spec fn apart(self, b: Seq<u8>, i: int, j: int) -> bool {
        self.off(b, i) + self.obj_len(b, i) <= self.off(b, j) || self.off(b, j) + self.obj_len(
            b,
            j,
        ) <= self.off(b, i)
    }

    /// A buffer with `n` records is in order: the records end before the data starts, each
    /// object lies in the data area, no two overlap, and the header counts the free bytes.
    pub open spec fn node_wf(self, b: Seq<u8>, n: int) -> bool {
        &&& self.wf()
        &&& 60 <= b.len() <= 0xffff
        &&& 0 <= n
        &&& self.rec_pos(n) <= tail(b) <= b.len()
        &&& forall|i: int| 0 <= i < n ==> #[trigger] self.obj_inside(b, i)
        &&& forall|i: int, j: int|
            0 <= i < n && 0 <= j < n && i != j ==> #[trigger] self.apart(b, i, j)
        &&& avail(b) == self.free(b.len() as int, self.entries(b, n))
    }
}

//==============================================================================
// Sizes
//==============================================================================

pub proof fn lemma_data_size_nonneg(es: Seq<Entry>)
    ensures
        data_size(es) >= 0,
    decreases es.len(),
{
    if es.len() > 0 {
        lemma_data_size_nonneg(es.drop_last());
    }
}

pub proof fn lemma_data_size_add(a: Seq<Entry>, b: Seq<Entry>)
    ensures
        data_size(a + b) == data_size(a) + data_size(b),
    decreases b.len(),
{
    if b.len() == 0 {
        assert(a + b =~= a);
    } else {
        assert((a + b).drop_last() =~= a + b.drop_last());
        assert((a + b).last() == b.last());
        lemma_data_size_add(a, b.drop_last());
    }
}

pub proof fn lemma_data_size_one(e: Entry)
    ensures
        data_size(seq![e]) == e.size(),
{
    reveal_with_fuel(data_size, 2);
    assert(seq![e].drop_last() =~= Seq::<Entry>::empty());
}

pub proof fn lemma_data_size_insert(es: Seq<Entry>, i: int, e: Entry)
    requires
        0 <= i <= es.len(),
    ensures
        data_size(es.insert(i, e)) == data_size(es) + e.size(),
{
    lemma_data_size_one(e);
    lemma_data_size_add(es.take(i), es.skip(i));
    lemma_data_size_add(es.take(i), seq![e]);
    lemma_data_size_add(es.take(i) + seq![e], es.skip(i));
    assert(es.take(i) + es.skip(i) =~= es);
    assert(es.take(i) + seq![e] + es.skip(i) =~= es.insert(i, e));
}

pub proof fn lemma_data_size_push(es: Seq<Entry>, e: Entry)
    ensures
        data_size(es.push(e)) == data_size(es) + e.size(),
{
    assert(es.push(e).drop_last() =~= es);
}

pub proof fn lemma_data_size_split(es: Seq<Entry>, i: int)
    requires
        0 <= i <= es.len(),
    ensures
        data_size(es) == data_size(es.take(i)) + data_size(es.skip(i)),
{
    assert(es.take(i) + es.skip(i) =~= es);
    lemma_data_size_add(es.take(i), es.skip(i));
}

pub proof fn lemma_data_size_update(es: Seq<Entry>, i: int, e: Entry)
    requires
        0 <= i < es.len(),
    ensures
        data_size(es.update(i, e)) == data_size(es) - es[i].size() + e.size(),
{
    let rest = es.remove(i);
    lemma_data_size_insert(rest, i, es[i]);
    lemma_data_size_insert(rest, i, e);
    assert(rest.insert(i, es[i]) =~= es);
    assert(rest.insert(i, e) =~= es.update(i, e));
}

/// Entries fit up to the first one that is too much.
pub proof fn lemma_fitting(l: Layout, room: int, es: Seq<Entry>, m: int)
    requires
        l.wf(),
        0 <= m <= es.len(),
        l.entries_size(es.take(m)) <= room,
        m < es.len() ==> l.entries_size(es.take(m + 1)) > room,
    ensures
        l.fitting(room, es) == m,
    decreases es.len(),
{
    if es.len() > 0 {
        let rest = es.skip(1);
        assert(es.take(1) =~= seq![es[0]]);
        lemma_data_size_one(es[0]);
        if m > 0 {
            assert(es.take(m) =~= seq![es[0]] + rest.take(m - 1));
            lemma_data_size_add(seq![es[0]], rest.take(m - 1));
            lemma_data_size_nonneg(rest.take(m - 1));
            if m < es.len() {
                assert(es.take(m + 1) =~= seq![es[0]] + rest.take(m));
                lemma_data_size_add(seq![es[0]], rest.take(m));
            }
            lemma_fitting(l, room - l.entry_size(es[0]), rest, m - 1);
        }
    }
}

/// Appended entries take at most their bytes, and the data takes at least its own.
pub proof fn lemma_used_with(l: Layout, len: int, occ: int, es: Seq<Entry>, more: Seq<Entry>)
    requires
        l.wf(),
        4 + l.entries_size(es) <= occ,
    ensures
        4 + l.entries_size(es + more) <= l.used_with(len, occ, es, more) <= occ + l.entries_size(
            more,
        ),
    decreases more.len(),
{
    if more.len() == 0 {
        assert(es + more =~= es);
    } else {
        let m = more.drop_last();
        lemma_used_with(l, len, occ, es, m);
        assert(more =~= m.push(more.last()));
        assert(es + more =~= (es + m).push(more.last()));
        lemma_data_size_push(m, more.last());
        lemma_data_size_push(es + m, more.last());
    }
}

//==============================================================================
// Records that hold the same bytes
//==============================================================================

/// Two records with the same bytes say the same.
pub proof fn lemma_same_record(l: Layout, b1: Seq<u8>, i1: int, b2: Seq<u8>, i2: int)
    requires
        l.wf(),
        forall|k: int|
            0 <= k < l.rec ==> #[trigger] b1[l.rec_pos(i1) + k] == b2[l.rec_pos(i2) + k],
    ensures
        l.off(b1, i1) == l.off(b2, i2),
        l.key_len(b1, i1) == l.key_len(b2, i2),
        l.val_len(b1, i1) == l.val_len(b2, i2),
        l.overflow(b1, i1) == l.overflow(b2, i2),
{
    let p1 = l.rec_pos(i1);
    let p2 = l.rec_pos(i2);
    assert(b1[p1 + 0] == b2[p2 + 0]);
    assert(b1[p1 + 1] == b2[p2 + 1]);
    if let Some(p) = l.key_field {
        assert(b1[p1 + p] == b2[p2 + p]);
        assert(b1[p1 + (p + 1)] == b2[p2 + (p + 1)]);
    }
    if let Some(p) = l.val_field {
        assert(b1[p1 + p] == b2[p2 + p]);
        assert(b1[p1 + (p + 1)] == b2[p2 + (p + 1)]);
    }
}

/// Two records with the same bytes over the same data make the same entry.
pub proof fn lemma_same_entry(l: Layout, b1: Seq<u8>, i1: int, b2: Seq<u8>, i2: int)
    requires
        l.wf(),
        b1.len() == b2.len(),
        forall|k: int|
            0 <= k < l.rec ==> #[trigger] b1[l.rec_pos(i1) + k] == b2[l.rec_pos(i2) + k],
        l.obj_inside(b1, i1),
        forall|p: int|
            l.off(b1, i1) <= p < l.off(b1, i1) + l.obj_len(b1, i1) ==> b1[p] == #[trigger] b2[p],
        0 <= l.off(b1, i1),
        0 <= l.key_len(b1, i1),
        0 <= l.val_len(b1, i1),
    ensures
        l.entry(b1, i1) == l.entry(b2, i2),
        l.off(b1, i1) == l.off(b2, i2),
        l.obj_len(b1, i1) == l.obj_len(b2, i2),
{
    lemma_same_record(l, b1, i1, b2, i2);
    assert(l.entry(b1, i1).key =~= l.entry(b2, i2).key);
    assert(l.entry(b1, i1).val =~= l.entry(b2, i2).val);
}

/// Lengths and offsets are never negative.
pub proof fn lemma_nonneg(l: Layout, b: Seq<u8>, i: int)
    requires
        l.wf(),
    ensures
        0 <= l.off(b, i),
        0 <= l.key_len(b, i),
        0 <= l.val_len(b, i),
        0 <= tail(b),
        0 <= avail(b),
{
}

/// The lengths of an entry are those that its record states, and an entry of a node in order
/// can be described by a record of the same layout.
pub proof fn lemma_entry_lens(l: Layout, b: Seq<u8>, n: int, i: int)
    requires
        l.node_wf(b, n),
        0 <= i < n,
    ensures
        l.entry(b, i).key.len() == l.key_len(b, i),
        l.entry(b, i).val.len() == l.val_len(b, i),
        l.entry(b, i).size() == l.obj_len(b, i),
        l.fits(l.entry(b, i)),
        l.rec_pos(i) + l.rec <= l.rec_pos(n) <= b.len(),
{
    lemma_nonneg(l, b, i);
    assert(l.obj_inside(b, i));
}

/// The bytes that the data of the first `n` entries cover.
spec fn covered(l: Layout, b: Seq<u8>, n: int) -> Set<int> {
    Set::new(
        |p: int|
            exists|i: int|
                0 <= i < n && #[trigger] l.off(b, i) <= p < l.off(b, i) + l.obj_len(b, i),
    )
}

/// Data that lies apart covers as many bytes as it has.
proof fn lemma_covered(l: Layout, b: Seq<u8>, n: int, m: int)
    requires
        l.node_wf(b, n),
        0 <= m <= n,
    ensures
        covered(l, b, m).finite(),
        covered(l, b, m).len() == data_size(l.entries(b, m)),
    decreases m,
{
    let es = l.entries(b, m);
    if m == 0 {
        assert(covered(l, b, m) =~= Set::empty());
    } else {
        let i = m - 1;
        let o = l.off(b, i);
        let len = l.obj_len(b, i);
        lemma_covered(l, b, n, i);
        lemma_nonneg(l, b, i);
        assert(l.obj_inside(b, i));
        lemma_int_range(o, o + len);
        let rest = covered(l, b, i);
        let own = set_int_range(o, o + len);
        assert(rest.disjoint(own)) by {
            assert forall|p: int| #[trigger] rest.contains(p) implies !own.contains(p) by {
                let j = choose|j: int|
                    0 <= j < i && #[trigger] l.off(b, j) <= p < l.off(b, j) + l.obj_len(b, j);
                assert(l.apart(b, i, j));
            }
        }
        lemma_set_disjoint_lens(rest, own);
        assert(covered(l, b, m) =~= rest + own) by {
            assert forall|p: int| own.contains(p) implies covered(l, b, m).contains(p) by {
                assert(l.off(b, i) <= p < l.off(b, i) + l.obj_len(b, i));
            }
        }
        assert(es.drop_last() =~= l.entries(b, i));
        lemma_entry_lens(l, b, n, i);
        assert(es.last() == l.entries(b, n)[i]);
    }
}

/// The data area has room for the data of all entries.
pub proof fn lemma_data_inside(l: Layout, b: Seq<u8>, n: int)
    requires
        l.node_wf(b, n),
    ensures
        data_size(l.entries(b, n)) <= b.len() - tail(b),
{
    lemma_covered(l, b, n, n);
    lemma_int_range(tail(b), b.len() as int);
    let area = set_int_range(tail(b), b.len() as int);
    assert(covered(l, b, n).subset_of(area)) by {
        assert forall|p: int| #[trigger] covered(l, b, n).contains(p) implies area.contains(p) by {
            let j = choose|j: int|
                0 <= j < n && #[trigger] l.off(b, j) <= p < l.off(b, j) + l.obj_len(b, j);
            assert(l.obj_inside(b, j));
        }
    }
    lemma_len_subset(covered(l, b, n), area);
}

//==============================================================================
// Changes of a buffer
//==============================================================================

/// Where a record has been put in at `idx`, record `j` says what it said before, or what the record
/// before it said.
proof fn lemma_shifted_record(l: Layout, b1: Seq<u8>, n: int, idx: int, b2: Seq<u8>, j: int)
    requires
        l.node_wf(b1, n),
        0 <= idx <= n,
        0 <= j <= n,
        j != idx,
        b2.len() == b1.len(),
        forall|p: int| 60 <= p < l.rec_pos(idx) ==> b1[p] == #[trigger] b2[p],
        forall|p: int| l.rec_pos(idx + 1) <= p < l.rec_pos(n + 1) ==> b1[p - l.rec]
            == #[trigger] b2[p],
        forall|p: int| tail(b1) <= p < b1.len() ==> b1[p] == #[trigger] b2[p],
    ensures
        ({
            let i = if j < idx {
                j
            } else {
                j - 1
            };
            &&& l.entry(b2, j) == l.entry(b1, i)
            &&& l.off(b2, j) == l.off(b1, i)
            &&& l.obj_len(b2, j) == l.obj_len(b1, i)
        }),
{
    let i = if j < idx {
        j
    } else {
        j - 1
    };
    assert(l.obj_inside(b1, i));
    lemma_nonneg(l, b1, i);
    assert forall|k: int| 0 <= k < l.rec implies #[trigger] b1[l.rec_pos(i) + k]
        == b2[l.rec_pos(j) + k] by {
        if j > idx {
            assert(b1[(l.rec_pos(j) + k) - l.rec] == b2[l.rec_pos(j) + k]);
        }
    }
    lemma_same_entry(l, b1, i, b2, j);
}

/// A new record at `idx`, with its data right below the data area, inserts the entry.
#[verifier::rlimit(20)]
pub proof fn lemma_insert(l: Layout, b1: Seq<u8>, n: int, idx: int, e: Entry, b2: Seq<u8>)
    requires
        l.node_wf(b1, n),
        0 <= idx <= n,
        l.fits(e),
        b2.len() == b1.len(),
        l.rec_pos(n) + l.rec + e.size() <= tail(b1),
        tail(b2) == tail(b1) - e.size(),
        avail(b2) == avail(b1) - e.size() - l.rec,
        forall|p: int| 60 <= p < l.rec_pos(idx) ==> b1[p] == #[trigger] b2[p],
        forall|p: int| l.rec_pos(idx + 1) <= p < l.rec_pos(n + 1) ==> b1[p - l.rec]
            == #[trigger] b2[p],
        forall|p: int| tail(b1) <= p < b1.len() ==> b1[p] == #[trigger] b2[p],
        l.off(b2, idx) == tail(b2),
        l.key_len(b2, idx) == e.key.len(),
        l.val_len(b2, idx) == e.val.len(),
        l.overflow(b2, idx) == e.overflow,
        b2.subrange(tail(b2), tail(b2) + e.key.len() as int) == e.key,
        b2.subrange(tail(b2) + e.key.len() as int, tail(b1)) == e.val,
    ensures
        l.node_wf(b2, n + 1),
        l.entries(b2, n + 1) == l.entries(b1, n).insert(idx, e),
{
    let es1 = l.entries(b1, n);
    let es2 = l.entries(b2, n + 1);
    let src = |j: int|
        if j < idx {
            j
        } else {
            j - 1
        };
    assert forall|j: int| 0 <= j <= n && j != idx implies l.entry(b2, j) == l.entry(
        b1,
        src(j),
    ) && l.off(b2, j) == l.off(b1, src(j)) && l.obj_len(b2, j) == l.obj_len(b1, src(j)) by {
        lemma_shifted_record(l, b1, n, idx, b2, j);
    }
    assert(l.entry(b2, idx) =~= e);
    assert(es2 =~= es1.insert(idx, e));
    lemma_data_size_insert(es1, idx, e);
    assert forall|i: int| 0 <= i < n + 1 implies #[trigger] l.obj_inside(b2, i) by {
        if i != idx {
            assert(l.obj_inside(b1, src(i)));
        }
    }
    assert forall|i: int, j: int|
        0 <= i < n + 1 && 0 <= j < n + 1 && i != j implies #[trigger] l.apart(b2, i, j) by {
        if i != idx && j != idx {
            assert(l.apart(b1, src(i), src(j)));
        } else if i != idx {
            assert(l.obj_inside(b1, src(i)));
        } else {
            assert(l.obj_inside(b1, src(j)));
        }
    }
}

/// Where the records from `s` to before `t` have been dropped, record `j` says what it said before,
/// or what the record says that has moved to its place.
proof fn lemma_moved_record(l: Layout, b1: Seq<u8>, n: int, s: int, t: int, b2: Seq<u8>, j: int)
    requires
        l.node_wf(b1, n),
        0 <= s <= t <= n,
        0 <= j < n - (t - s),
        b2.len() == b1.len(),
        forall|p: int| 60 <= p < l.rec_pos(s) ==> b1[p] == #[trigger] b2[p],
        forall|p: int| l.rec_pos(s) <= p < l.rec_pos(n - (t - s)) ==> b1[p + l.records_size(t - s)]
            == #[trigger] b2[p],
        forall|p: int| tail(b1) <= p < b1.len() ==> b1[p] == #[trigger] b2[p],
    ensures
        ({
            let i = if j < s {
                j
            } else {
                j + (t - s)
            };
            &&& l.entry(b2, j) == l.entry(b1, i)
            &&& l.off(b2, j) == l.off(b1, i)
            &&& l.obj_len(b2, j) == l.obj_len(b1, i)
        }),
{
    let c = t - s;
    let i = if j < s {
        j
    } else {
        j + c
    };
    assert(l.obj_inside(b1, i));
    lemma_nonneg(l, b1, i);
    assert forall|k: int| 0 <= k < l.rec implies #[trigger] b1[l.rec_pos(i) + k]
        == b2[l.rec_pos(j) + k] by {
        if j >= s {
            lemma_times_add(l.rec, j, c);
            assert(b1[(l.rec_pos(j) + k) + l.records_size(c)] == b2[l.rec_pos(j) + k]);
        }
    }
    lemma_same_entry(l, b1, i, b2, j);
}

/// What entries take without those from `s` to before `t`.
proof fn lemma_size_without(l: Layout, es: Seq<Entry>, s: int, t: int)
    requires
        0 <= s <= t <= es.len(),
    ensures
        l.entries_size(es.take(s) + es.skip(t)) == l.entries_size(es) - l.entries_size(
            es.subrange(s, t),
        ),
{
    assert(es =~= es.take(s) + es.subrange(s, t) + es.skip(t));
    lemma_data_size_add(es.take(s), es.subrange(s, t));
    lemma_data_size_add(es.take(s) + es.subrange(s, t), es.skip(t));
    lemma_data_size_add(es.take(s), es.skip(t));
    lemma_times_add(l.rec, es.len() - (t - s), t - s);
}

/// Dropping the records from `s` to before `t`, and closing the gap, removes those entries.
#[verifier::rlimit(50)]
pub proof fn lemma_remove(l: Layout, b1: Seq<u8>, n: int, s: int, t: int, b2: Seq<u8>)
    requires
        l.node_wf(b1, n),
        0 <= s <= t <= n,
        b2.len() == b1.len(),
        tail(b2) == tail(b1),
        avail(b2) == avail(b1) + l.entries_size(l.entries(b1, n).subrange(s, t)),
        forall|p: int| 60 <= p < l.rec_pos(s) ==> b1[p] == #[trigger] b2[p],
        forall|p: int| l.rec_pos(s) <= p < l.rec_pos(n - (t - s)) ==> b1[p + l.records_size(t - s)]
            == #[trigger] b2[p],
        forall|p: int| tail(b1) <= p < b1.len() ==> b1[p] == #[trigger] b2[p],
    ensures
        l.node_wf(b2, n - (t - s)),
        l.entries(b2, n - (t - s)) == l.entries(b1, n).take(s) + l.entries(b1, n).skip(t),
{
    let c = t - s;
    let m = n - c;
    let es1 = l.entries(b1, n);
    let src = |j: int|
        if j < s {
            j
        } else {
            j + c
        };
    assert forall|j: int| 0 <= j < m implies l.entry(b2, j) == l.entry(b1, src(j)) && l.off(b2, j)
        == l.off(b1, src(j)) && l.obj_len(b2, j) == l.obj_len(b1, src(j)) by {
        lemma_moved_record(l, b1, n, s, t, b2, j);
    }
    let es2 = l.entries(b2, m);
    assert(es2 =~= es1.take(s) + es1.skip(t));
    lemma_size_without(l, es1, s, t);
    assert(l.rec_pos(m) <= l.rec_pos(n));
    assert forall|i: int| 0 <= i < m implies #[trigger] l.obj_inside(b2, i) by {
        assert(l.obj_inside(b1, src(i)));
    }
    assert forall|i: int, j: int| 0 <= i < m && 0 <= j < m && i != j implies #[trigger] l.apart(
        b2,
        i,
        j,
    ) by {
        assert(l.apart(b1, src(i), src(j)));
    }
}

/// A smaller object written over the data of entry `idx` replaces the entry.
pub proof fn lemma_replace(l: Layout, b1: Seq<u8>, n: int, idx: int, e: Entry, b2: Seq<u8>)
    requires
        l.node_wf(b1, n),
        0 <= idx < n,
        l.fits(e),
        e.size() <= l.obj_len(b1, idx),
        b2.len() == b1.len(),
        tail(b2) == tail(b1),
        avail(b2) == avail(b1) + l.obj_len(b1, idx) - e.size(),
        l.off(b2, idx) == l.off(b1, idx),
        l.key_len(b2, idx) == e.key.len(),
        l.val_len(b2, idx) == e.val.len(),
        l.overflow(b2, idx) == e.overflow,
        forall|p: int|
            60 <= p < l.rec_pos(n) && !(l.rec_pos(idx) <= p < l.rec_pos(idx + 1)) ==> b1[p]
                == #[trigger] b2[p],
        forall|p: int|
            tail(b1) <= p < b1.len() && !(l.off(b1, idx) <= p < l.off(b1, idx) + e.size())
                ==> b1[p] == #[trigger] b2[p],
        b2.subrange(l.off(b1, idx), l.off(b1, idx) + e.key.len() as int) == e.key,
        b2.subrange(l.off(b1, idx) + e.key.len() as int, l.off(b1, idx) + e.size()) == e.val,
    ensures
        l.node_wf(b2, n),
        l.entries(b2, n) == l.entries(b1, n).update(idx, e),
{
    let es1 = l.entries(b1, n);
    lemma_entry_lens(l, b1, n, idx);
    assert(l.obj_inside(b1, idx));
    assert forall|j: int| 0 <= j < n && j != idx implies l.entry(b2, j) == l.entry(b1, j) && l.off(
        b2,
        j,
    ) == l.off(b1, j) && l.obj_len(b2, j) == l.obj_len(b1, j) by {
        assert(l.obj_inside(b1, j));
        assert(l.apart(b1, j, idx));
        lemma_nonneg(l, b1, j);
        assert forall|k: int| 0 <= k < l.rec implies #[trigger] b1[l.rec_pos(j) + k]
            == b2[l.rec_pos(j) + k] by {}
        lemma_same_entry(l, b1, j, b2, j);
    }
    assert(l.entry(b2, idx) =~= e);
    assert(l.entries(b2, n) =~= es1.update(idx, e));
    lemma_data_size_update(es1, idx, e);
    assert forall|i: int| 0 <= i < n implies #[trigger] l.obj_inside(b2, i) by {
        assert(l.obj_inside(b1, i));
    }
    assert forall|i: int, j: int| 0 <= i < n && 0 <= j < n && i != j implies #[trigger] l.apart(
        b2,
        i,
        j,
    ) by {
        assert(l.apart(b1, i, j));
    }
}

} // verus!
