//! Removing from the tree.

use vstd::prelude::*;
use crate::btree::Btree;
use crate::btree_kvs::{id_of, BNodeId, BtreeKey, BtreeValue, Entry};
use crate::btree_node::{CoreView, NodeCore};
use crate::btree_req::{
    copy_key, removes, AcceptAll, BtreeKeyRange, RangeView, RemoveFilter, RemoveFilterDecision,
};
use crate::btree_types::{BtreeError, MergePolicy};
use crate::contents::{
    lemma_filter_add, lemma_filter_contains, lemma_filter_none, lemma_filter_not, lemma_filter_one,
    lemma_pick_none, lemma_pick_some, not, ordered, pick, with_key,
};
use crate::merge::{kept, lemma_kept_placed};
use crate::node_search::is_position;
use crate::put::lemma_leaves_both;
use crate::query::{none_in, opt_val, reach};
use crate::settled::{
    lemma_all_settled, lemma_own_shape, lemma_walk_breaks_off, lemma_walk_ends, lemma_walk_goes_on,
    lemma_walk_starts, merge_wanted, same_shape, settled, walked,
};
use crate::tidy_lemmas::{
    lemma_tidy_both, lemma_tidy_fewer, lemma_tidy_kid, lemma_tidy_same, lemma_tidy_under,
};
use crate::tree_lemmas::{
    lemma_flat_all_one, lemma_kid_holds, lemma_lt_not_lt, lemma_ov_frame, lemma_rep_frame,
    lemma_remove_next, lemma_rep_has, lemma_replace_kid, lemma_reshaped_trans,
};
use crate::tree_measure::{count, each, lemma_count_depth, lemma_total_kid, lemma_total_one};
use crate::tree_model::{
    core_rep, distinct, flat, flat_all, has_id, kv, kvs, node_rep, ov_ok, placed, refers, rep,
    reshaped, sound, tidy, val_ok, KV, Params, Place, Store, Tree,
};
use crate::underlying::UnderlyingBtree;
use crate::variants::{
    alike, as_configured, lemma_alike, lemma_alike_both, lemma_alike_same, lemma_alike_write, same_kind,
};

verus! {

//==============================================================================
// Progress
//==============================================================================

/// What has been removed so far: how many entries, and the last one.
#[verifier::ext_equal]
pub struct Gone {
    pub count: nat,
    pub last: KV,
}

/// Entries `s1` have become `s2`: only entries with the property have been removed, and they
/// have been counted.
pub open spec fn progress(
    sel: spec_fn(KV) -> bool,
    s1: Seq<KV>,
    g1: Gone,
    s2: Seq<KV>,
    g2: Gone,
) -> bool {
    &&& s2.filter(not(sel)) == s1.filter(not(sel))
    &&& g2.count + s2.filter(sel).len() == g1.count + s1.filter(sel).len()
    &&& forall|e: KV| #[trigger] s2.contains(e) ==> s1.contains(e)
    &&& g1.count <= g2.count
    &&& g1.count < g2.count ==> sel(g2.last) && s1.contains(g2.last)
    &&& g1.count == g2.count ==> g1 == g2
}

pub proof fn lemma_progress_refl(sel: spec_fn(KV) -> bool, s: Seq<KV>, g: Gone)
    ensures
        progress(sel, s, g, s, g),
{
}

pub proof fn lemma_progress_trans(
    sel: spec_fn(KV) -> bool,
    s1: Seq<KV>,
    g1: Gone,
    s2: Seq<KV>,
    g2: Gone,
    s3: Seq<KV>,
    g3: Gone,
)
    requires
        progress(sel, s1, g1, s2, g2),
        progress(sel, s2, g2, s3, g3),
    ensures
        progress(sel, s1, g1, s3, g3),
{
}

/// Progress in the middle of three pieces.
pub proof fn lemma_progress_middle(
    sel: spec_fn(KV) -> bool,
    a: Seq<KV>,
    s1: Seq<KV>,
    g1: Gone,
    s2: Seq<KV>,
    g2: Gone,
    b: Seq<KV>,
)
    requires
        progress(sel, s1, g1, s2, g2),
    ensures
        progress(sel, a + s1 + b, g1, a + s2 + b, g2),
{
    let x1 = a + s1 + b;
    let x2 = a + s2 + b;
    lemma_filter_add(a + s1, b, sel);
    lemma_filter_add(a, s1, sel);
    lemma_filter_add(a + s2, b, sel);
    lemma_filter_add(a, s2, sel);
    lemma_filter_add(a + s1, b, not(sel));
    lemma_filter_add(a, s1, not(sel));
    lemma_filter_add(a + s2, b, not(sel));
    lemma_filter_add(a, s2, not(sel));
    assert forall|e: KV| s1.contains(e) implies #[trigger] x1.contains(e) by {
        let i = choose|i: int| 0 <= i < s1.len() && s1[i] == e;
        assert(x1[a.len() + i] == e);
    }
    assert forall|e: KV| #[trigger] x2.contains(e) implies x1.contains(e) by {
        let i = choose|i: int| 0 <= i < x2.len() && x2[i] == e;
        if i < a.len() {
            assert(x1[i] == e);
        } else if i < a.len() + s2.len() {
            assert(s2[i - a.len()] == e);
            assert(s2.contains(e));
        } else {
            assert(x1[i - s2.len() + s1.len()] == e);
        }
    }
}

/// The entries that a removal is about.
pub open spec fn victims<K: BtreeKey, V: BtreeValue, F: RemoveFilter<K, V>>(
    range: RangeView,
    filter: Option<&F>,
) -> spec_fn(KV) -> bool {
    |e: KV| range.has::<K>(e.key) && removes::<K, V, F>(filter, e)
}

/// Nothing has the property.
pub open spec fn none_left(s: Seq<KV>, sel: spec_fn(KV) -> bool) -> bool {
    forall|j: int| 0 <= j < s.len() ==> !sel(#[trigger] s[j])
}

/// The number of removed entries, and the value of the last one.
pub struct RemoveResult<V> {
    pub removed: u32,
    pub value: Option<V>,
    pub gone: Ghost<Gone>,
}

impl<V: BtreeValue> RemoveResult<V> {
    pub open spec fn wf(&self) -> bool {
        &&& self.removed == if self.gone@.count <= u32::MAX {
            self.gone@.count as int
        } else {
            u32::MAX as int
        }
        &&& self.value is Some == (self.gone@.count > 0)
        &&& self.value matches Some(v) ==> v.bytes() == self.gone@.last.val
    }

    fn new() -> (r: Self)
        ensures
            r.wf(),
            r.gone@.count == 0,
    {
        RemoveResult {
            removed: 0,
            value: None,
            gone: Ghost(Gone { count: 0, last: KV { key: Seq::empty(), val: Seq::empty() } }),
        }
    }

    /// Counts one more entry.
    fn note(&mut self, value: V, Ghost(e): Ghost<KV>)
        requires
            old(self).wf(),
            value.bytes() == e.val,
        ensures
            final(self).wf(),
            final(self).gone@ == (Gone { count: old(self).gone@.count + 1, last: e }),
    {
        if self.removed < u32::MAX {
            self.removed = self.removed + 1;
        }
        self.value = Some(value);
        self.gone = Ghost(Gone { count: self.gone@.count + 1, last: e });
    }
}

//==============================================================================
// Leaves
//==============================================================================

/// A leaf without entry `i`.
pub open spec fn without(t: Tree, i: int) -> Tree {
    Tree { es: t.es.remove(i), ..t }
}

/// A leaf without one of its entries is still in its place, and no longer refers to the
/// overflow record of the entry.
proof fn lemma_without<K: BtreeKey, V: BtreeValue>(
    p: Params,
    ov: Map<u64, Seq<u8>>,
    w: Place,
    i: int,
)
    requires
        sound::<K, V>(p, w.t, w.h, w.after, w.lo, w.hi),
        w.t.leaf,
        0 <= i < w.t.es.len(),
        ov_ok::<V>(ov, w.t.es),
    ensures
        sound::<K, V>(p, without(w.t, i), w.h, w.after, w.lo, w.hi),
        ov_ok::<V>(ov, w.t.es.remove(i)),
        forall|x: u64| #[trigger] refers(w.t.es.remove(i), x) ==> refers(w.t.es, x),
        forall|x: u64| #[trigger]
            refers(w.t.es, x) ==> refers(w.t.es.remove(i), x) || w.t.es[i].overflow && x == id_of(
                w.t.es[i].val,
            ),
        w.t.es[i].overflow ==> !refers(w.t.es.remove(i), id_of(w.t.es[i].val)) && refers(
            w.t.es,
            id_of(w.t.es[i].val),
        ),
{
    let es = w.t.es;
    let es2 = es.remove(i);
    assert forall|j: int| 0 <= j < es2.len() implies #[trigger] es2[j] == es[if j < i {
        j
    } else {
        j + 1
    }] by {}
    assert forall|x: u64| #[trigger] refers(es2, x) implies refers(es, x) by {
        let j = choose|j: int|
            0 <= j < es2.len() && (#[trigger] es2[j]).overflow && id_of(es2[j].val) == x;
        assert(es[if j < i {
            j
        } else {
            j + 1
        }] == es2[j]);
    }
    assert forall|x: u64| #[trigger] refers(es, x) implies refers(es2, x) || es[i].overflow && x
        == id_of(es[i].val) by {
        let j = choose|j: int|
            0 <= j < es.len() && (#[trigger] es[j]).overflow && id_of(es[j].val) == x;
        if j < i {
            assert(es2[j] == es[j]);
        } else if j > i {
            assert(es2[j - 1] == es[j]);
        }
    }
    if es[i].overflow {
        let x = id_of(es[i].val);
        if refers(es2, x) {
            let j = choose|j: int|
                0 <= j < es2.len() && (#[trigger] es2[j]).overflow && id_of(es2[j].val) == x;
            let m = if j < i {
                j
            } else {
                j + 1
            };
            assert(es[m] == es2[j]);
        }
    }
}

impl<K: BtreeKey, V: BtreeValue, S: UnderlyingBtree> Btree<K, V, S> {
    /// What the filter makes of an entry, and its value where it is to be removed.
    fn apply_remove_filter<F: RemoveFilter<K, V>>(
        &self,
        node: &NodeCore,
        idx: u32,
        filter: Option<&F>,
        Ghost(w): Ghost<Place>,
    ) -> (r: Result<(RemoveFilterDecision, Option<V>), BtreeError>)
        requires
            self.at(node@, w),
            w.t.leaf,
            idx < w.t.es.len(),
        ensures
            r matches Err(e) ==> self.storage.failures().contains(e),
            r matches Ok((d, v)) ==> {
                let e = self.kv(w.t.es[idx as int]);
                &&& d == if removes::<K, V, F>(filter, e) {
                    RemoveFilterDecision::Remove
                } else {
                    RemoveFilterDecision::Skip
                }
                &&& d == RemoveFilterDecision::Remove ==> (v matches Some(v) && v.bytes() == e.val)
            },
            self.storage.reliable() ==> r is Ok,
    {
        let filter = match filter {
            None => {
                return match self.leaf_value(node, idx, Ghost(w)) {
                    Ok(v) => Ok((RemoveFilterDecision::Remove, Some(v))),
                    Err(e) => Err(e),
                };
            },
            Some(f) => f,
        };
        let key = self.leaf_key(node, idx, Ghost(w));
        let mut decision = RemoveFilterDecision::NeedValue;
        if !filter.always_needs_value() {
            decision = filter.check_key(&key);
            if decision == RemoveFilterDecision::Skip {
                return Ok((decision, None));
            }
        }
        let value = match self.leaf_value(node, idx, Ghost(w)) {
            Ok(v) => v,
            Err(e) => {
                return Err(e);
            },
        };
        if decision == RemoveFilterDecision::NeedValue {
            decision = filter.check_kv(&key, &value);
            if decision == RemoveFilterDecision::NeedValue {
                // the filter has seen everything there is
                decision = RemoveFilterDecision::Skip;
            }
        }
        Ok((decision, Some(value)))
    }

    /// The id of the overflow record of entry `idx` of a leaf, where it has one.
    pub(crate) fn overflow_id(&self, node: &NodeCore, idx: u32, Ghost(w): Ghost<Place>) -> (r: Option<BNodeId>)
        requires
            self.at(node@, w),
            w.t.leaf,
            idx < w.t.es.len(),
        ensures
            r == if w.t.es[idx as int].overflow {
                Some(id_of(w.t.es[idx as int].val))
            } else {
                None
            },
    {
        proof {
            self.lemma_at(node@, w);
            assert(val_ok::<V>(self.params(), w.t.es[idx as int]));
        }
        if self.leaf_ops.is_nth_value_overflow::<K, V>(node, idx) {
            let b = self.leaf_ops.get_nth_value_bytes::<K, V>(node, idx);
            Some(vstd::bytes::u64_from_le_bytes(b.as_slice()))
        } else {
            None
        }
    }
}

/// Entries without the first `n` of those that have the property.
pub open spec fn without_first(s: Seq<Entry>, f: spec_fn(Entry) -> bool, n: nat) -> Seq<Entry>
    decreases s.len(),
{
    if s.len() == 0 || n == 0 {
        s
    } else if f(s[0]) {
        without_first(s.skip(1), f, (n - 1) as nat)
    } else {
        seq![s[0]] + without_first(s.skip(1), f, n)
    }
}

/// The entries that hold what has the property.
pub open spec fn holding(ov: Map<u64, Seq<u8>>, sel: spec_fn(KV) -> bool) -> spec_fn(Entry) -> bool {
    |e: Entry| sel(kv(ov, e))
}

/// The first entries, none of which have the property, stay.
proof fn lemma_without_none(s: Seq<Entry>, f: spec_fn(Entry) -> bool, i: int, n: nat)
    requires
        0 <= i <= s.len(),
        forall|j: int| 0 <= j < i ==> !f(#[trigger] s[j]),
    ensures
        without_first(s, f, n) == s.take(i) + without_first(s.skip(i), f, n),
    decreases i,
{
    let right = s.take(i) + without_first(s.skip(i), f, n);
    if i == 0 {
        assert(s.skip(0) =~= s);
        assert(right =~= without_first(s, f, n));
    } else if n == 0 {
        assert(right =~= s);
    } else {
        let t = s.skip(1);
        assert forall|j: int| 0 <= j < i - 1 implies !f(#[trigger] t[j]) by {
            assert(t[j] == s[j + 1]);
        }
        assert(!f(s[0]));
        lemma_without_none(t, f, i - 1, n);
        assert(t.skip(i - 1) =~= s.skip(i));
        assert(seq![s[0]] + (t.take(i - 1) + without_first(s.skip(i), f, n)) =~= right);
    }
}

/// An entry is gone from between others.
proof fn lemma_one_gone(
    sel: spec_fn(KV) -> bool,
    ov: Map<u64, Seq<u8>>,
    s: Seq<KV>,
    g0: Gone,
    head: Seq<Entry>,
    e: Entry,
    rest: Seq<Entry>,
    g1: Gone,
)
    requires
        sel(kv(ov, e)),
        progress(sel, s, g0, kvs(ov, head + seq![e] + rest), g1),
    ensures
        progress(
            sel,
            s,
            g0,
            kvs(ov, head + rest),
            Gone { count: g1.count + 1, last: kv(ov, e) },
        ),
{
    let x = kv(ov, e);
    let a = kvs(ov, head);
    let b = kvs(ov, rest);
    let none = Seq::<KV>::empty();
    let before = kvs(ov, head + seq![e] + rest);
    let after = kvs(ov, head + rest);
    let g = Gone { count: g1.count + 1, last: x };
    assert(before =~= a + seq![x] + b);
    assert(after =~= a + none + b);
    lemma_filter_one(x, sel);
    lemma_filter_one(x, not(sel));
    lemma_filter_none(none, sel);
    lemma_filter_none(none, not(sel));
    assert(seq![x][0] == x);
    assert(progress(sel, seq![x], g1, none, g));
    lemma_progress_middle(sel, a, seq![x], g1, none, g, b);
    lemma_progress_trans(sel, s, g0, before, g1, after, g);
}

/// The overflow records are exactly those of removed entries, each once.
pub open spec fn freed(es: Seq<Entry>, cur: Seq<Entry>, dead: Seq<u64>) -> bool {
    &&& forall|x: u64| #[trigger] refers(cur, x) ==> refers(es, x)
    &&& forall|m: int|
        0 <= m < dead.len() ==> refers(es, #[trigger] dead[m]) && !refers(cur, dead[m])
    &&& forall|x: u64| #[trigger] refers(es, x) && !refers(cur, x) ==> dead.contains(x)
    &&& forall|m: int, n: int| 0 <= m < n < dead.len() ==> #[trigger] dead[m] != #[trigger] dead[n]
}

/// One more entry, with the given overflow record if it has one, is removed.
proof fn lemma_freed_step(
    es: Seq<Entry>,
    cur: Seq<Entry>,
    cur2: Seq<Entry>,
    dead: Seq<u64>,
    id: Option<u64>,
)
    requires
        freed(es, cur, dead),
        forall|x: u64| #[trigger] refers(cur2, x) ==> refers(cur, x),
        forall|x: u64| #[trigger] refers(cur, x) ==> refers(cur2, x) || id == Some(x),
        id matches Some(x) ==> refers(cur, x) && !refers(cur2, x),
    ensures
        freed(
            es,
            cur2,
            match id {
                Some(x) => dead.push(x),
                None => dead,
            },
        ),
{
    let dead2 = match id {
        Some(x) => dead.push(x),
        None => dead,
    };
    assert forall|m: int| 0 <= m < dead2.len() implies refers(es, #[trigger] dead2[m]) && !refers(
        cur2,
        dead2[m],
    ) by {
        if m < dead.len() {
            assert(dead2[m] == dead[m]);
        }
    }
    assert forall|x: u64| #[trigger] refers(es, x) && !refers(cur2, x) implies dead2.contains(x) by {
        if refers(cur, x) {
            assert(dead2[dead.len() as int] == x);
        } else {
            let m = choose|m: int| 0 <= m < dead.len() && dead[m] == x;
            assert(dead2[m] == x);
        }
    }
    assert forall|m: int, n: int| 0 <= m < n < dead2.len() implies #[trigger] dead2[m]
        != #[trigger] dead2[n] by {
        assert(dead2[m] == dead[m]);
        if n == dead.len() {
            assert(!refers(cur, dead[m]));
        } else {
            assert(dead2[n] == dead[n]);
        }
    }
}

impl<K: BtreeKey, V: BtreeValue, S: UnderlyingBtree> Btree<K, V, S> {
    /// Takes up to `max_count` entries of a leaf that a removal is about, the first ones, out of
    /// a copy of the leaf. Answers the copy, the overflow records that are to be deleted with the
    /// entries, and how many entries those are.
    fn multi_remove_from_leaf<F: RemoveFilter<K, V>>(
        &self,
        node: &NodeCore,
        range: &BtreeKeyRange<K>,
        max_count: u32,
        filter: Option<&F>,
        out: &mut RemoveResult<V>,
        Ghost(w): Ghost<Place>,
    ) -> (r: Result<(NodeCore, Vec<BNodeId>, u32, Ghost<Tree>), BtreeError>)
        requires
            self.at(node@, w),
            w.t.leaf,
            old(out).wf(),
        ensures
            r matches Err(e) ==> self.storage.failures().contains(e),
            r matches Ok((work, dead, removed, t2)) ==> {
                let sel = victims::<K, V, F>(range@, filter);
                let ov = self.storage.store().ov;
                let s2 = kvs(ov, t2@.es);
                &&& t2@ == (Tree {
                    es: without_first(w.t.es, holding(ov, sel), max_count as nat),
                    ..w.t
                })
                &&& removed == w.t.es.len() - t2@.es.len()
                &&& final(out).gone@.count == old(out).gone@.count + removed
                &&& core_rep(self.params(), work@, t2@)
                &&& same_kind(work@, node@)
                &&& sound::<K, V>(self.params(), t2@, w.h, w.after, w.lo, w.hi)
                &&& ov_ok::<V>(ov, t2@.es)
                &&& freed(w.t.es, t2@.es, dead@)
                &&& final(out).wf()
                &&& progress(sel, self.kvs_at(w), old(out).gone@, s2, final(out).gone@)
                &&& removed < max_count ==> none_left(s2, sel)
            },
            self.storage.reliable() ==> r is Ok,
    {
        let ghost p = self.params();
        let ghost st = self.storage.store();
        let ghost ov = st.ov;
        let ghost es = w.t.es;
        let ghost sel = victims::<K, V, F>(range@, filter);
        let ghost f = holding(ov, sel);
        let ghost s = self.kvs_at(w);
        let ghost g0 = out.gone@;
        proof {
            self.lemma_at(node@, w);
            assert(node_rep(p, st.nodes, w.t));
        }
        let mut work = node.copy();
        let mut dead: Vec<BNodeId> = Vec::new();
        let (matched, start_idx, end_idx) = self.leaf_ops.match_range::<K, V>(node, range);
        if !matched {
            proof {
                assert forall|j: int| 0 <= j < s.len() implies !sel(#[trigger] s[j]) by {
                    assert(s[j].key == es[j].key);
                }
                lemma_progress_refl(sel, s, g0);
                lemma_without_none(es, f, es.len() as int, max_count as nat);
                assert(es.take(es.len() as int) =~= es);
                assert(es + without_first(es.skip(es.len() as int), f, max_count as nat) =~= es);
            }
            return Ok((work, dead, 0, Ghost(w.t)));
        }
        let mut idx: u32 = start_idx;
        let mut pos: u32 = start_idx;
        let mut removed: u32 = 0;
        let ghost mut cur: Seq<Entry> = es;
        // what stays before entry pos
        let ghost mut head: Seq<Entry> = es.take(start_idx as int);
        proof {
            assert(cur =~= head + es.skip(pos as int));
            let r = kvs(ov, head);
            assert forall|j: int| 0 <= j < r.len() implies !sel(#[trigger] r[j]) by {
                assert(r[j].key == es[j].key);
            }
            assert forall|j: int| 0 <= j < start_idx implies !f(#[trigger] es[j]) by {}
            lemma_without_none(es, f, start_idx as int, max_count as nat);
            lemma_progress_refl(sel, s, g0);
            assert(Tree { es: cur, ..w.t } == w.t);
        }
        while pos <= end_idx && removed < max_count
            invariant
                self.at(node@, w),
                w.t.leaf,
                p == self.params(),
                st == self.storage.store(),
                ov == st.ov,
                es == w.t.es,
                s == kvs(ov, es),
                s == self.kvs_at(w),
                g0 == old(out).gone@,
                sel == victims::<K, V, F>(range@, filter),
                f == holding(ov, sel),
                start_idx <= pos <= end_idx + 1,
                end_idx < es.len() <= u32::MAX,
                idx + removed == pos,
                removed <= max_count,
                forall|j: int|
                    0 <= j < es.len() ==> range@.has::<K>((#[trigger] es[j]).key) == (start_idx <= j
                        <= end_idx),
                head.len() == idx,
                cur == head + es.skip(pos as int),
                none_left(kvs(ov, head), sel),
                without_first(es, f, max_count as nat) == head + without_first(
                    es.skip(pos as int),
                    f,
                    (max_count - removed) as nat,
                ),
                core_rep(p, work@, Tree { es: cur, ..w.t }),
                same_kind(work@, node@),
                sound::<K, V>(p, Tree { es: cur, ..w.t }, w.h, w.after, w.lo, w.hi),
                ov_ok::<V>(ov, cur),
                freed(es, cur, dead@),
                out.wf(),
                out.gone@.count == g0.count + removed,
                progress(sel, s, g0, kvs(ov, cur), out.gone@),
            decreases end_idx + 1 - pos,
        {
            let ghost e = es[pos as int];
            let ghost x = kv(ov, e);
            let ghost rest = es.skip(pos + 1);
            let (decision, value) = match self.apply_remove_filter(node, pos, filter, Ghost(w)) {
                Ok(d) => d,
                Err(e) => {
                    return Err(e);
                },
            };
            proof {
                assert(range@.has::<K>(es[pos as int].key));
                assert(es.skip(pos as int)[0] == e);
                assert(es.skip(pos as int).skip(1) =~= rest);
                assert(cur[idx as int] == e);
            }
            if decision == RemoveFilterDecision::Remove {
                let overflow = self.overflow_id(node, pos, Ghost(w));
                let ghost cw = w.with(Tree { es: cur, ..w.t });
                let ghost before = cur;
                let ghost gone = out.gone@;
                proof {
                    lemma_without::<K, V>(p, ov, cw, idx as int);
                    assert(p.leaf.entries(work@.buf, work@.header.nentries as int).len()
                        == work@.header.nentries);
                }
                let _ = self.leaf_ops.remove::<K, V>(&mut work, idx);
                proof {
                    let next = before.remove(idx as int);
                    assert(before.take(idx as int) + before.skip(idx + 1) =~= next);
                    assert(next =~= head + rest);
                    cur = next;
                    assert(core_rep(p, work@, Tree { es: cur, ..w.t }));
                    assert(before =~= head + seq![e] + rest);
                    lemma_one_gone(sel, ov, s, g0, head, e, rest, gone);
                }
                match value {
                    Some(v) => {
                        out.note(v, Ghost(x));
                    },
                    None => {},
                }
                proof {
                    lemma_freed_step(es, before, cur, dead@, overflow);
                }
                if let Some(id) = overflow {
                    dead.push(id);
                }
                removed = removed + 1;
            } else {
                proof {
                    let h = head.push(e);
                    assert(cur =~= h + rest);
                    let r = kvs(ov, h);
                    assert forall|j: int| 0 <= j < r.len() implies !sel(#[trigger] r[j]) by {
                        if j < head.len() {
                            assert(r[j] == kvs(ov, head)[j]);
                        }
                    }
                    let n = (max_count - removed) as nat;
                    assert(head + (seq![e] + without_first(rest, f, n)) =~= h + without_first(rest, f, n));
                    head = h;
                }
                idx = idx + 1;
            }
            pos = pos + 1;
        }
        proof {
            let n = (max_count - removed) as nat;
            let rest = es.skip(pos as int);
            if n > 0 {
                let r = kvs(ov, cur);
                assert forall|j: int| 0 <= j < r.len() implies !sel(#[trigger] r[j]) by {
                    if j < idx {
                        assert(r[j] == kvs(ov, head)[j]);
                    } else {
                        assert(r[j].key == es[j + removed].key);
                    }
                }
                assert forall|j: int| 0 <= j < rest.len() implies !f(#[trigger] rest[j]) by {
                    assert(rest[j] == es[j + pos]);
                }
                lemma_without_none(rest, f, rest.len() as int, n);
                assert(rest.take(rest.len() as int) =~= rest);
                assert(rest + without_first(rest.skip(rest.len() as int), f, n) =~= rest);
            }
            assert(without_first(rest, f, n) == rest);
        }
        Ok((work, dead, removed, Ghost(Tree { es: cur, ..w.t })))
    }

    /// Deletes overflow records.
    fn delete_overflows(&mut self, dead: &Vec<BNodeId>) -> (r: Result<(), BtreeError>)
        requires
            forall|m: int|
                0 <= m < dead@.len() ==> old(self).storage.store().ov.contains_key(
                    #[trigger] dead@[m],
                ),
            forall|m: int, n: int|
                0 <= m < n < dead@.len() ==> #[trigger] dead@[m] != #[trigger] dead@[n],
        ensures
            r matches Err(e) ==> old(self).storage.failures().contains(e),
            final(self).env_of(old(self)),
            final(self).tree == old(self).tree,
            final(self).height == old(self).height,
            final(self).root_node_id == old(self).root_node_id,
            final(self).storage.root() == old(self).storage.root(),
            r is Ok ==> final(self).storage.store() == (Store {
                ov: old(self).storage.store().ov.remove_keys(dead@.to_set()),
                ..old(self).storage.store()
            }),
            old(self).storage.reliable() ==> r is Ok,
    {
        let n: usize = dead.len();
        let ghost st = self.storage.store();
        let mut i: usize = 0;
        proof {
            assert(st.ov.remove_keys(dead@.take(0).to_set()) =~= st.ov);
        }
        while i < n
            invariant
                n == dead@.len(),
                i <= n,
                st == old(self).storage.store(),
                self.env_of(old(self)),
                self.tree == old(self).tree,
                self.height == old(self).height,
                self.root_node_id == old(self).root_node_id,
                self.storage.root() == old(self).storage.root(),
                self.storage.store() == (Store {
                    ov: st.ov.remove_keys(dead@.take(i as int).to_set()),
                    ..st
                }),
                forall|m: int|
                    i <= m < dead@.len() ==> self.storage.store().ov.contains_key(
                        #[trigger] dead@[m],
                    ),
                forall|m: int, j: int|
                    0 <= m < j < dead@.len() ==> #[trigger] dead@[m] != #[trigger] dead@[j],
            decreases n - i,
        {
            let ghost id = dead@[i as int];
            if let Err(e) = self.storage.delete_overflow(dead[i]) {
                return Err(e);
            }
            proof {
                assert(dead@.take(i + 1) =~= dead@.take(i as int).push(id));
                lemma_remove_next(st.ov, dead@.take(i as int), id);
            }
            i = i + 1;
        }
        proof {
            assert(dead@.take(n as int) =~= dead@);
        }
        Ok(())
    }

    /// Removes entries from a leaf.
    fn execute_on_leaf<F: RemoveFilter<K, V>>(
        &mut self,
        leaf: &NodeCore,
        range: &BtreeKeyRange<K>,
        filter: Option<&F>,
        out: &mut RemoveResult<V>,
        Ghost(w): Ghost<Place>,
    ) -> (r: (Result<(), BtreeError>, Ghost<Tree>))
        requires
            old(self).at(leaf@, w),
            w.t.leaf,
            old(out).wf(),
        ensures
            r.0 matches Err(e) ==> old(self).storage.failures().contains(e),
            final(self).env_of(old(self)),
            final(self).tree == old(self).tree,
            final(self).height == old(self).height,
            final(self).root_node_id == old(self).root_node_id,
            final(self).storage.root() == old(self).storage.root(),
            r.0 is Ok ==> {
                let sel = victims::<K, V, F>(range@, filter);
                let s2 = kvs(final(self).storage.store().ov, flat(r.1@));
                &&& placed::<K, V>(
                    old(self).params(),
                    final(self).storage.store(),
                    w.with(r.1@),
                )
                &&& reshaped(
                    old(self).storage.store(),
                    w.t,
                    final(self).storage.store(),
                    r.1@,
                )
                &&& final(out).wf()
                &&& progress(sel, old(self).kvs_at(w), old(out).gone@, s2, final(out).gone@)
                &&& none_left(s2, sel)
                &&& tidy(old(self).storage.store(), w.t, final(self).storage.store(), r.1@)
                &&& alike(
                    old(self).config,
                    old(self).storage.store(),
                    final(self).storage.store(),
                )
                &&& same_shape(w.t, r.1@)
                &&& count(r.1@) == count(w.t)
            },
            old(self).storage.reliable() ==> r.0 is Ok,
    {
        let ghost p = self.params();
        let ghost st = self.storage.store();
        let (work, dead, _, Ghost(t2)) = match self.multi_remove_from_leaf(
            leaf,
            range,
            u32::MAX,
            filter,
            out,
            Ghost(w),
        ) {
            Ok(x) => x,
            Err(e) => {
                return (Err(e), Ghost(w.t));
            },
        };
        proof {
            assert(node_rep(p, st.nodes, w.t));
            assert(w.t.es.len() == leaf@.header.nentries);
        }
        if let Err(e) = self.storage.write_node(&work) {
            return (Err(e), Ghost(w.t));
        }
        proof {
            assert forall|m: int| 0 <= m < dead@.len() implies self.storage.store().ov.contains_key(
                #[trigger] dead@[m],
            ) by {
                let x = dead@[m];
                assert(refers(w.t.es, x));
                let i = choose|i: int|
                    0 <= i < w.t.es.len() && (#[trigger] w.t.es[i]).overflow && id_of(
                        w.t.es[i].val,
                    ) == x;
                assert(flat(w.t)[i] == w.t.es[i]);
            }
        }
        let ghost stw = self.storage.store();
        if let Err(e) = self.delete_overflows(&dead) {
            return (Err(e), Ghost(w.t));
        }
        proof {
            let st2 = self.storage.store();
            assert forall|x: u64| #[trigger] refers(t2.es, x) implies st2.ov.contains_key(x)
                && st2.ov[x] == st.ov[x] by {
                let i = choose|i: int|
                    0 <= i < t2.es.len() && (#[trigger] t2.es[i]).overflow && id_of(t2.es[i].val)
                        == x;
                assert forall|m: int| 0 <= m < dead@.len() implies x != #[trigger] dead@[m] by {
                    assert(!refers(t2.es, dead@[m]));
                }
                assert(stw.ov.contains_key(x));
            }
            lemma_ov_frame::<V>(st.ov, st2.ov, t2.es);
            assert(node_rep(p, st2.nodes, t2));
            assert(rep(p, st2.nodes, t2));
            assert(distinct(t2));
            assert(has_id(w.t, w.t.id));
            assert forall|x: u64| #[trigger] has_id(t2, x) implies has_id(w.t, x) by {}
            assert forall|x: u64| #[trigger] st.ov.contains_key(x) && !refers(
                flat(w.t),
                x,
            ) implies st2.ov.contains_key(x) && st2.ov[x] == st.ov[x] by {
                assert forall|m: int| 0 <= m < dead@.len() implies x != #[trigger] dead@[m] by {
                    assert(refers(w.t.es, dead@[m]));
                }
                assert(stw.ov.contains_key(x));
            }
            assert forall|x: u64| #[trigger] st2.ov.contains_key(x) implies st.ov.contains_key(x) && (
            refers(w.t.es, x) ==> refers(t2.es, x)) by {
                assert(!dead@.to_set().contains(x));
                assert(!dead@.contains(x));
            }
            lemma_tidy_fewer(st, w.t, st2, t2);
            lemma_alike_write(self.config, st, w.t.id, work@, st2);
            lemma_own_shape(w.t);
            assert forall|i: int| 0 <= i < w.t.kids.len() implies same_shape(
                #[trigger] w.t.kid(i),
                t2.kid(i),
            ) by {}
        }
        (Ok(()), Ghost(t2))
    }
}

//==============================================================================
// The walk down
//==============================================================================

impl<K: BtreeKey, V: BtreeValue, S: UnderlyingBtree> Btree<K, V, S> {
    /// A removal has got from one state to another: the tree at the place has become `t2`.
    pub open spec fn removing(
        &self,
        w: Place,
        g: Gone,
        sel: spec_fn(KV) -> bool,
        b: &Self,
        t2: Tree,
        g2: Gone,
    ) -> bool {
        &&& placed::<K, V>(self.params(), b.storage.store(), w.with(t2))
        &&& reshaped(self.storage.store(), w.t, b.storage.store(), t2)
        &&& progress(sel, self.kvs_at(w), g, b.kvs_at(w.with(t2)), g2)
        &&& count(t2) <= count(w.t)
    }

    /// A child has got from one state to another, and with it its parent.
    proof fn lemma_removing_kid(
        &self,
        w: Place,
        g: Gone,
        sel: spec_fn(KV) -> bool,
        b: &Self,
        i: int,
        k2: Tree,
        g2: Gone,
    )
        requires
            placed::<K, V>(self.params(), self.storage.store(), w),
            0 <= i < w.t.kids.len(),
            self.removing(w.kid(i), g, sel, b, k2, g2),
        ensures
            self.removing(w, g, sel, b, w.t.with_kid(i, k2), g2),
            count(k2) < count(w.t.kids[i]) ==> count(w.t.with_kid(i, k2)) < count(w.t),
            !w.t.leaf,
            b.kvs_before(w.with(w.t.with_kid(i, k2)), i) == self.kvs_before(w, i),
    {
        let p = self.params();
        let st = self.storage.store();
        let st2 = b.storage.store();
        let t2 = w.t.with_kid(i, k2);
        lemma_replace_kid::<K, V>(p, st, w.t, w.h, w.after, w.lo, w.hi, i, st2, k2);
        lemma_kid_holds::<K, V>(p, st, w.t, w.h, w.after, w.lo, w.hi, i);
        let a = kvs(st.ov, flat_all(w.t.kids.take(i)));
        let c = kvs(st.ov, flat_all(w.t.kids.skip(i + 1)));
        lemma_progress_middle(
            sel,
            a,
            self.kvs_at(w.kid(i)),
            g,
            b.kvs_at(w.kid(i).with(k2)),
            g2,
            c,
        );
        lemma_total_kid(w.t, i, k2, 0, each());
        lemma_count_depth(k2, 1, 0);
        lemma_count_depth(w.t.kids[i], 1, 0);
        // what comes before the child has not changed
        assert(t2.kids.take(i) =~= w.t.kids.take(i));
        let x = kvs(st2.ov, flat(k2));
        b.lemma_kid_split(w.with(t2), i);
        self.lemma_kid_split(w, i);
        assert(b.kvs_at(w.with(t2)) == a + x + c);
        assert(b.kvs_before(w.with(t2), i).len() == a.len());
        assert(b.kvs_before(w.with(t2), i) =~= a) by {
            let s = b.kvs_at(w.with(t2));
            assert forall|m: int| 0 <= m < a.len() implies b.kvs_before(w.with(t2), i)[m] == a[m] by {
                assert(s[m] == b.kvs_before(w.with(t2), i)[m]);
                assert(s[m] == a[m]);
            }
        }
    }

    /// Removes below a node. Where children have been merged on the way, the walk has to start
    /// over, which is answered as `true`.
    #[verifier::rlimit(30)]
    fn interior_walk_for_remove<F: RemoveFilter<K, V>>(
        &mut self,
        my_node: &NodeCore,
        range: &BtreeKeyRange<K>,
        filter: Option<&F>,
        out: &mut RemoveResult<V>,
        Ghost(w): Ghost<Place>,
    ) -> (r: (Result<bool, BtreeError>, Ghost<Tree>))
        requires
            old(self).at(my_node@, w),
            old(out).wf(),
        ensures
            r.0 matches Err(e) ==> old(self).storage.failures().contains(e),
            final(self).env_of(old(self)),
            final(self).tree == old(self).tree,
            final(self).height == old(self).height,
            final(self).root_node_id == old(self).root_node_id,
            final(self).storage.root() == old(self).storage.root(),
            r.0 is Ok || old(self).storage.reliable() ==> {
                &&& final(out).wf()
                &&& old(self).removing(
                    w,
                    old(out).gone@,
                    victims::<K, V, F>(range@, filter),
                    final(self),
                    r.1@,
                    final(out).gone@,
                )
            },
            r.0 matches Ok(retry) ==> {
                &&& tidy(old(self).storage.store(), w.t, final(self).storage.store(), r.1@)
                &&& alike(
                    old(self).config,
                    old(self).storage.store(),
                    final(self).storage.store(),
                )
                &&& retry ==> count(r.1@) < count(w.t)
                &&& retry ==> !settled::<K>(
                    old(self).params(),
                    old(self).config,
                    range@,
                    old(self).storage.store(),
                    w.t,
                )
                &&& !retry ==> none_left(
                    final(self).kvs_at(w.with(r.1@)),
                    victims::<K, V, F>(range@, filter),
                )
                &&& !retry ==> same_shape(w.t, r.1@) && settled::<K>(
                    old(self).params(),
                    old(self).config,
                    range@,
                    old(self).storage.store(),
                    w.t,
                )
            },
            r.0 is Err && old(self).storage.reliable() ==> final(self).storage.exhausted(),
        decreases w.t,
    {
        let ghost p = self.params();
        let ghost st = self.storage.store();
        let ghost sel = victims::<K, V, F>(range@, filter);
        let ghost g0 = out.gone@;
        proof {
            self.lemma_at(my_node@, w);
        }
        if my_node.is_leaf() {
            let (r, t2) = self.execute_on_leaf(my_node, range, filter, out, Ghost(w));
            return match r {
                Ok(()) => (Ok(false), t2),
                Err(e) => (Err(e), t2),
            };
        }
        proof {
            self.lemma_edge(my_node@, w);
            lemma_kept_placed::<K, V>(p, st, st, w);
            lemma_progress_refl(sel, self.kvs_at(w), g0);
            lemma_tidy_same(st, w.t);
            lemma_alike_same(self.config, st);
            lemma_own_shape(w.t);
        }
        let children = self.child_range(my_node, range, Ghost(w));
        let ghost (x, y) = choose|x: int, y: int|
            is_position::<K>(w.t.es, range@.start, x)
                && is_position::<K>(w.t.es, range@.end, y) && match children {
                Some((s, e)) => #[trigger] reach(w.t, x, y) == Some(
                    (s as int, e as int),
                ),
                None => reach(w.t, x, y) is None,
            };
        let (start_idx, end_idx) = match children {
            Some(c) => c,
            None => {
                proof {
                    lemma_none_left::<K, V, F>(self.kvs_at(w), range@, filter);
                    lemma_all_settled::<K>(p, self.config, range@, st, w.t, x, y);
                }
                return (Ok(false), Ghost(w.t));
            },
        };
        let last_idx: u32 = if my_node.has_valid_edge() {
            my_node.header.nentries
        } else {
            my_node.header.nentries - 1
        };
        let mut idx: u32 = start_idx;
        // the tree as it is now
        let ghost mut wc = w;
        proof {
            lemma_none_left::<K, V, F>(self.kvs_before(w, start_idx as int), range@, filter);
            lemma_walk_starts::<K>(p, self.config, range@, st, w.t, start_idx as int);
        }
        loop
            invariant
                p == old(self).params(),
                st == old(self).storage.store(),
                sel == victims::<K, V, F>(range@, filter),
                g0 == old(out).gone@,
                self.env_of(old(self)),
                self.tree == old(self).tree,
                self.height == old(self).height,
                self.root_node_id == old(self).root_node_id,
                self.storage.root() == old(self).storage.root(),
                old(self).at(my_node@, w),
                wc == w.with(wc.t),
                self.at(my_node@, wc),
                !wc.t.leaf,
                wc.t.es == w.t.es,
                wc.t.edge == w.t.edge,
                wc.t.kids.len() == w.t.kids.len(),
                last_idx == w.t.kids.len() - 1,
                start_idx <= idx <= end_idx,
                end_idx < w.t.kids.len(),
                forall|m: int| idx <= m < w.t.kids.len() ==> wc.t.kids[m] == #[trigger] w.t.kids[m],
                is_position::<K>(w.t.es, range@.start, x),
                is_position::<K>(w.t.es, range@.end, y),
                reach(w.t, x, y) == Some((start_idx as int, end_idx as int)),
                out.wf(),
                old(self).removing(w, g0, sel, self, wc.t, out.gone@),
                tidy(st, w.t, self.storage.store(), wc.t),
                alike(old(self).config, st, self.storage.store()),
                walked::<K>(
                    p,
                    self.config,
                    range@,
                    st,
                    w.t,
                    start_idx as int,
                    idx as int,
                    self.storage.store(),
                    wc.t,
                ),
                none_left(self.kvs_before(wc, idx as int), sel),
            decreases end_idx - idx,
        {
            let child = match self.get_child(my_node, idx, Ghost(wc)) {
                Ok(c) => c,
                Err(e) => {
                    return (Err(e), Ghost(wc.t));
                },
            };
            if self.is_merge_needed(&child, Ghost(wc.kid(idx as int))) {
                let reach_idx: u32 = if self.config.max_merge_nodes == 0 {
                    idx
                } else {
                    idx.saturating_add(self.config.max_merge_nodes - 1)
                };
                let merge_end_idx: u32 = if reach_idx < last_idx {
                    reach_idx
                } else {
                    last_idx
                };
                if merge_end_idx > idx {
                    let ghost st1 = self.storage.store();
                    let ghost before = *self;
                    let ghost s1 = self.kvs_at(wc);
                    match self.merge_child_nodes(
                        my_node,
                        child.copy(),
                        idx,
                        merge_end_idx,
                        Ghost(wc),
                    ) {
                        Ok((merged, merged_tree)) => {
                            let ghost t2 = merged_tree@;
                            if merged {
                                proof {
                                    lemma_reshaped_trans(
                                        st,
                                        w.t,
                                        st1,
                                        wc.t,
                                        self.storage.store(),
                                        t2,
                                    );
                                    lemma_tidy_both(st, w.t, st1, wc.t, self.storage.store(), t2);
                                    lemma_alike_both(self.config, st, st1, self.storage.store());
                                    assert(self.kvs_at(w.with(t2)) == s1);
                                    lemma_walk_breaks_off::<K>(
                                        p,
                                        self.config,
                                        range@,
                                        st,
                                        w.t,
                                        start_idx as int,
                                        end_idx as int,
                                        idx as int,
                                        st1,
                                        wc.t,
                                        x,
                                        y,
                                    );
                                }
                                return (Ok(true), Ghost(t2));
                            }
                            proof {
                                assert(self.at(my_node@, wc)) by {
                                    lemma_kept_placed::<K, V>(
                                        p,
                                        st1,
                                        self.storage.store(),
                                        wc,
                                    );
                                }
                                lemma_kept_placed::<K, V>(p, st1, self.storage.store(), wc);
                                lemma_reshaped_trans(
                                    st,
                                    w.t,
                                    st1,
                                    wc.t,
                                    self.storage.store(),
                                    wc.t,
                                );
                                assert(self.kvs_at(wc) == s1);
                                assert(self.kvs_before(wc, idx as int) == before.kvs_before(
                                    wc,
                                    idx as int,
                                ));
                                lemma_kid_kept::<K, V, S>(&before, self, child@, my_node@, wc, idx as int);
                            }
                        },
                        Err(e) => {
                            proof {
                                if old(self).storage.reliable() {
                                    lemma_kept_placed::<K, V>(
                                        p,
                                        st1,
                                        self.storage.store(),
                                        wc,
                                    );
                                    lemma_reshaped_trans(
                                        st,
                                        w.t,
                                        st1,
                                        wc.t,
                                        self.storage.store(),
                                        wc.t,
                                    );
                                    assert(self.kvs_at(wc) == s1);
                                }
                            }
                            return (Err(e), Ghost(wc.t));
                        },
                    }
                }
            }
            let ghost before = *self;
            let ghost g1 = out.gone@;
            let ghost kw = wc.kid(idx as int);
            assert(!merge_wanted(p, self.config, self.storage.store(), wc.t, idx as int));
            let (r, Ghost(k2)) = self.interior_walk_for_remove(
                &child,
                range,
                filter,
                out,
                Ghost(kw),
            );
            let ghost t2 = wc.t.with_kid(idx as int, k2);
            proof {
                if r is Ok || old(self).storage.reliable() {
                    before.lemma_removing_kid(wc, g1, sel, self, idx as int, k2, out.gone@);
                    lemma_reshaped_trans(
                        st,
                        w.t,
                        before.storage.store(),
                        wc.t,
                        self.storage.store(),
                        t2,
                    );
                    lemma_progress_trans(
                        sel,
                        old(self).kvs_at(w),
                        g0,
                        before.kvs_at(wc),
                        g1,
                        self.kvs_at(w.with(t2)),
                        out.gone@,
                    );
                }
                if r is Ok {
                    let st1 = before.storage.store();
                    lemma_tidy_kid(st1, wc.t, idx as int, self.storage.store(), k2);
                    lemma_tidy_both(st, w.t, st1, wc.t, self.storage.store(), t2);
                    lemma_alike_both(self.config, st, st1, self.storage.store());
                }
            }
            match r {
                Err(e) => {
                    return (Err(e), Ghost(t2));
                },
                Ok(retry) => {
                    if retry {
                        proof {
                            lemma_walk_breaks_off::<K>(
                                p,
                                self.config,
                                range@,
                                st,
                                w.t,
                                start_idx as int,
                                end_idx as int,
                                idx as int,
                                before.storage.store(),
                                wc.t,
                                x,
                                y,
                            );
                        }
                        return (Ok(true), Ghost(t2));
                    }
                },
            }
            proof {
                lemma_walk_goes_on::<K, V>(
                    p,
                    self.config,
                    range@,
                    st,
                    w.t,
                    start_idx as int,
                    idx as int,
                    before.storage.store(),
                    wc,
                    self.storage.store(),
                    k2,
                );
                let w2 = w.with(t2);
                assert(node_rep(p, self.storage.store().nodes, t2));
                before.lemma_kid_at(my_node@, wc, idx as int);
                assert(has_id(wc.t, wc.t.id));
                assert(self.storage.store().nodes[t2.id] == my_node@) by {
                    lemma_parent_kept::<K, V>(
                        p,
                        before.storage.store(),
                        wc,
                        idx as int,
                        self.storage.store(),
                        k2,
                    );
                }
                assert(self.at(my_node@, w2));
                self.lemma_kid_split(w2, idx as int);
                let a = self.kvs_before(w2, idx as int);
                let b = self.kvs_at(w2.kid(idx as int));
                let c = self.kvs_before(w2, idx + 1);
                assert forall|j: int| 0 <= j < c.len() implies !sel(#[trigger] c[j]) by {
                    if j < a.len() {
                        assert(c[j] == a[j]);
                    } else {
                        assert(c[j] == b[j - a.len()]);
                    }
                }
                wc = w2;
                if idx == end_idx {
                    lemma_walk_ends::<K>(
                        p,
                        self.config,
                        range@,
                        st,
                        w.t,
                        start_idx as int,
                        idx as int,
                        self.storage.store(),
                        wc.t,
                        x,
                        y,
                    );
                    self.lemma_reach(wc, range@, x, y);
                    let d = self.kvs_from(wc, idx + 1);
                    lemma_none_left::<K, V, F>(d, range@, filter);
                    let s = self.kvs_at(wc);
                    assert(s == c + d);
                    assert forall|j: int| 0 <= j < s.len() implies !sel(#[trigger] s[j]) by {
                        if j < c.len() {
                            assert(s[j] == c[j]);
                        } else {
                            assert(s[j] == d[j - c.len()]);
                        }
                    }
                }
            }
            if idx == end_idx {
                return (Ok(false), Ghost(wc.t));
            }
            idx = idx + 1;
        }
    }
}

/// Where no key lies in the range there is nothing to remove.
proof fn lemma_none_left<K: BtreeKey, V: BtreeValue, F: RemoveFilter<K, V>>(
    s: Seq<KV>,
    range: RangeView,
    filter: Option<&F>,
)
    requires
        none_in::<K>(s, range),
    ensures
        none_left(s, victims::<K, V, F>(range, filter)),
{
}

/// The parent of a reshaped child is stored as before.
proof fn lemma_parent_kept<K: BtreeKey, V: BtreeValue>(
    p: Params,
    st: Store,
    w: Place,
    i: int,
    st2: Store,
    k2: Tree,
)
    requires
        placed::<K, V>(p, st, w),
        0 <= i < w.t.kids.len(),
        reshaped(st, w.t.kids[i], st2, k2),
    ensures
        st2.nodes[w.t.id] == st.nodes[w.t.id],
{
    assert(node_rep(p, st.nodes, w.t));
    assert(!has_id(w.t.kid(i), w.t.id));
}

/// A child is where it was when the storage has kept everything.
proof fn lemma_kid_kept<K: BtreeKey, V: BtreeValue, S: UnderlyingBtree>(
    b1: &Btree<K, V, S>,
    b2: &Btree<K, V, S>,
    child: CoreView,
    node: CoreView,
    w: Place,
    i: int,
)
    requires
        b1.at(node, w),
        b1.at(child, w.kid(i)),
        b2.env_of(b1),
        0 <= i < w.t.kids.len(),
        kept(b1.storage.store(), b2.storage.store()),
    ensures
        b2.at(child, w.kid(i)),
{
    lemma_kept_placed::<K, V>(b1.params(), b1.storage.store(), b2.storage.store(), w.kid(i));
}

//==============================================================================
// From the root
//==============================================================================

impl<K: BtreeKey, V: BtreeValue, S: UnderlyingBtree> Btree<K, V, S> {
    /// No node that a walk through the keys of the range comes by is to be merged.
    pub open spec fn quiet(&self, range: RangeView) -> bool {
        settled::<K>(self.params(), self.config, range, self.storage.store(), self.tree@)
    }

    /// A removal of what is selected in the range, from `o` on, has ended in this state: its last
    /// walk found nothing to merge, took entries from leaves only, and left no root that has but
    /// one child, unless nodes are never merged. Where nothing was to be merged from the start, the
    /// tree has kept its nodes.
    pub open spec fn swept(&self, o: &Self, range: RangeView, sel: spec_fn(KV) -> bool) -> bool {
        &&& exists|b: Self|
            {
                &&& #[trigger] b.quiet(range)
                &&& b.wf()
                &&& b.env_of(o)
                &&& partly_removed(o@, sel, b@)
                &&& same_shape(b.tree@, self.tree@)
            }
        &&& self.config.merge_policy != MergePolicy::Never ==> self.tree@.leaf
            || self.tree@.es.len() > 0
        &&& o.quiet(range) && (o.tree@.leaf || o.tree@.es.len() > 0) ==> same_shape(
            o.tree@,
            self.tree@,
        )
    }

    /// Makes the only child of a root without entries the new root, unless nodes are never
    /// merged, and answers whether it has. The storage is told, and the old root is deleted.
    fn check_collapse_root(&mut self) -> (r: Result<bool, BtreeError>)
        requires
            old(self).wf(),
        ensures
            r matches Err(e) ==> old(self).storage.failures().contains(e),
            final(self).env_of(old(self)),
            r is Ok || old(self).storage.reliable() ==> final(self).keeps_told(old(self)),
            r is Ok || old(self).storage.reliable() ==> final(self).wf() && final(self)@ == old(
                self,
            )@ && count(final(self).tree@) <= count(old(self).tree@),
            r matches Ok(collapsed) ==> {
                &&& collapsed == (old(self).config.merge_policy != MergePolicy::Never && !old(
                    self,
                ).tree@.leaf && old(self).tree@.es.len() == 0)
                &&& collapsed ==> count(final(self).tree@) < count(old(self).tree@)
                &&& collapsed ==> {
                    &&& old(self).tree@.edge
                    &&& final(self).tree@ == old(self).tree@.kids.last()
                    &&& final(self).root_node_id == old(self).tree@.edge_id()
                    &&& final(self).storage.root() == final(self).root_node_id
                    &&& final(self).storage.store() == (Store {
                        nodes: old(self).storage.store().nodes.remove(old(self).root_node_id),
                        ..old(self).storage.store()
                    })
                }
                &&& !collapsed ==> *final(self) == *old(self)
                &&& final(self).leaves_nothing(old(self))
                &&& final(self).keeps_variants(old(self))
            },
            old(self).storage.reliable() ==> r is Ok,
    {
        proof {
            lemma_tidy_same(self.storage.store(), self.tree@);
            lemma_alike_same(self.config, self.storage.store());
        }
        if self.config.merge_policy == MergePolicy::Never {
            return Ok(false);
        }
        let root = match self.read_root() {
            Ok(c) => c,
            Err(e) => {
                return Err(e);
            },
        };
        let ghost w = self.top();
        let ghost p = self.params();
        let ghost st = self.storage.store();
        proof {
            self.lemma_at(root@, w);
        }
        if root.header.nentries != 0 || root.is_leaf() {
            return Ok(false);
        }
        proof {
            self.lemma_edge(root@, w);
            self.lemma_kid_at(root@, w, 0);
        }
        let child_id: BNodeId = root.header.edge_id;
        let old_root: BNodeId = root.node_id();
        if let Err(e) = self.storage.on_root_changed(child_id) {
            return Err(e);
        }
        if let Err(e) = self.storage.delete_node(old_root) {
            return Err(e);
        }
        self.root_node_id = child_id;
        let ghost t = self.tree@;
        let ghost k = t.kids[0];
        self.tree = Ghost(k);
        self.height = Ghost((w.h - 1) as nat);
        proof {
            let st2 = self.storage.store();
            assert(!has_id(t.kid(0), t.id));
            assert forall|x: u64| #[trigger] has_id(k, x) implies st2.nodes.contains_key(x)
                && st2.nodes[x] == st.nodes[x] by {
                lemma_rep_has(p, st.nodes, k, x);
            }
            lemma_rep_frame(p, st.nodes, st2.nodes, k);
            assert(w.kid(0) == self.top());
            assert(t.kids =~= seq![k]);
            lemma_flat_all_one(k);
            lemma_tidy_under(st, t, st2, k);
            assert forall|x: u64| #[trigger]
                st2.nodes.contains_key(x) implies as_configured(self.config, st2.nodes[x])
                || exists|y: u64|
                st.nodes.contains_key(y) && #[trigger] same_kind(st2.nodes[x], st.nodes[y]) by {
                assert(same_kind(st2.nodes[x], st.nodes[x]));
            }
            lemma_alike(self.config, st, st2);
            lemma_total_one(k, 1, each());
            lemma_count_depth(k, 1, 0);
        }
        Ok(true)
    }

    /// Removes from the root down, starting over whenever nodes have been merged.
    fn root_walk_for_remove<F: RemoveFilter<K, V>>(
        &mut self,
        range: &BtreeKeyRange<K>,
        filter: Option<&F>,
        out: &mut RemoveResult<V>,
    ) -> (r: Result<(), BtreeError>)
        requires
            old(self).wf(),
            old(out).wf(),
        ensures
            r matches Err(e) ==> old(self).storage.failures().contains(e),
            final(self).env_of(old(self)),
            r is Ok || old(self).storage.reliable() ==> final(self).keeps_told(old(self)),
            r is Ok || old(self).storage.reliable() ==> final(self).wf() && final(out).wf()
                && progress(
                victims::<K, V, F>(range@, filter),
                old(self)@,
                old(out).gone@,
                final(self)@,
                final(out).gone@,
            ),
            r is Ok ==> final(self).leaves_nothing(old(self)),
            r is Ok ==> final(self).keeps_variants(old(self)),
            r is Ok ==> final(self).swept(
                old(self),
                range@,
                victims::<K, V, F>(range@, filter),
            ),
            r is Ok ==> none_left(final(self)@, victims::<K, V, F>(range@, filter)),
            r is Err && old(self).storage.reliable() ==> final(self).storage.exhausted(),
    {
        let ghost sel = victims::<K, V, F>(range@, filter);
        let ghost s0 = self@;
        let ghost g0 = out.gone@;
        proof {
            lemma_tidy_same(self.storage.store(), self.tree@);
            lemma_alike_same(self.config, self.storage.store());
        }
        loop
            invariant
                self.leaves_nothing(old(self)),
                self.keeps_variants(old(self)),
                sel == victims::<K, V, F>(range@, filter),
                s0 == old(self)@,
                g0 == old(out).gone@,
                self.wf(),
                self.env_of(old(self)),
                self.keeps_told(old(self)),
                out.wf(),
                progress(sel, s0, g0, self@, out.gone@),
                old(self).quiet(range@) && (old(self).tree@.leaf || old(self).tree@.es.len() > 0)
                    ==> *self == *old(self),
            decreases count(self.tree@),
        {
            let root = match self.read_root() {
                Ok(c) => c,
                Err(e) => {
                    return Err(e);
                },
            };
            proof {
                self.lemma_at(root@, self.top());
            }
            if root.header.nentries == 0 {
                if root.is_leaf() {
                    proof {
                        assert(self@.len() == 0);
                        lemma_own_shape(self.tree@);
                        assert(self.quiet(range@));
                    }
                    return Ok(());
                }
                let ghost before = *self;
                match self.check_collapse_root() {
                    Ok(collapsed) => {
                        proof {
                            lemma_leaves_both(old(self), &before, self);
                        }
                        if collapsed {
                            continue;
                        }
                    },
                    Err(e) => {
                        return Err(e);
                    },
                }
            }
            let root = match self.read_root() {
                Ok(c) => c,
                Err(e) => {
                    return Err(e);
                },
            };
            let ghost before = *self;
            let ghost g1 = out.gone@;
            let ghost w = self.top();
            let (r, Ghost(t2)) = self.interior_walk_for_remove(
                &root,
                range,
                filter,
                out,
                Ghost(self.top()),
            );
            self.tree = Ghost(t2);
            proof {
                if r is Ok || old(self).storage.reliable() {
                    assert(self.top() == w.with(t2));
                    lemma_progress_trans(sel, s0, g0, before@, g1, self@, out.gone@);
                }
                if r is Ok {
                    lemma_leaves_both(old(self), &before, self);
                }
            }
            match r {
                Ok(retry) => {
                    if !retry {
                        assert(before.quiet(range@));
                        return Ok(());
                    }
                },
                Err(e) => {
                    return Err(e);
                },
            }
        }
    }
}

/// What is left of entries after a finished removal.
pub proof fn lemma_progress_done(
    sel: spec_fn(KV) -> bool,
    s1: Seq<KV>,
    g1: Gone,
    s2: Seq<KV>,
    g2: Gone,
)
    requires
        progress(sel, s1, g1, s2, g2),
        none_left(s2, sel),
    ensures
        s2 == s1.filter(not(sel)),
        g2.count == g1.count + s1.filter(sel).len(),
{
    lemma_filter_not(s2, sel);
}

/// A removal that did not finish: nothing that had to stay is gone, and nothing is new.
pub open spec fn partly_removed(s1: Seq<KV>, sel: spec_fn(KV) -> bool, s2: Seq<KV>) -> bool {
    &&& s2.filter(not(sel)) == s1.filter(not(sel))
    &&& forall|e: KV| #[trigger] s2.contains(e) ==> s1.contains(e)
}

/// A count, as far as 32 bits hold it.
pub open spec fn capped(n: nat) -> u32 {
    if n <= u32::MAX {
        n as u32
    } else {
        u32::MAX
    }
}

/// The range of a single key.
pub open spec fn only(k: Seq<u8>) -> RangeView {
    RangeView { start: k, start_incl: true, end: k, end_incl: true }
}

impl<K: BtreeKey, V: BtreeValue, S: UnderlyingBtree> Btree<K, V, S> {
    /// Removes a key, if the filter lets it go, and answers the value that it had.
    pub fn remove_one<F: RemoveFilter<K, V>>(&mut self, key: &K, filter: Option<&F>) -> (r: Result<
        Option<V>,
        BtreeError,
    >)
        requires
            old(self).wf(),
        ensures
            r matches Err(e) ==> old(self).storage.failures().contains(e),
            final(self).env_of(old(self)),
            r is Ok || old(self).storage.reliable() ==> final(self).keeps_told(old(self)),
            r is Ok ==> final(self).leaves_nothing(old(self)),
            r is Ok ==> final(self).keeps_variants(old(self)),
            r matches Ok(v) ==> {
                let sel = victims::<K, V, F>(only(key.bytes()), filter);
                &&& final(self).wf()
                &&& final(self)@ == old(self)@.filter(not(sel))
                &&& final(self).swept(old(self), only(key.bytes()), sel)
                &&& opt_val(v) == match pick(old(self)@, sel) {
                    Some(e) => Some(e.val),
                    None => None,
                }
            },
            r is Err && old(self).storage.reliable() ==> {
                &&& final(self).storage.exhausted()
                &&& final(self).wf()
                &&& partly_removed(
                    old(self)@,
                    victims::<K, V, F>(only(key.bytes()), filter),
                    final(self)@,
                )
            },
    {
        self.remove_one_internal(key, filter)
    }

    fn remove_one_internal<F: RemoveFilter<K, V>>(&mut self, key: &K, filter: Option<&F>) -> (r:
        Result<Option<V>, BtreeError>)
        requires
            old(self).wf(),
        ensures
            r matches Err(e) ==> old(self).storage.failures().contains(e),
            final(self).env_of(old(self)),
            r is Ok || old(self).storage.reliable() ==> final(self).keeps_told(old(self)),
            r is Ok ==> final(self).leaves_nothing(old(self)),
            r is Ok ==> final(self).keeps_variants(old(self)),
            r matches Ok(v) ==> {
                let sel = victims::<K, V, F>(only(key.bytes()), filter);
                &&& final(self).wf()
                &&& final(self)@ == old(self)@.filter(not(sel))
                &&& final(self).swept(old(self), only(key.bytes()), sel)
                &&& opt_val(v) == match pick(old(self)@, sel) {
                    Some(e) => Some(e.val),
                    None => None,
                }
            },
            r is Err && old(self).storage.reliable() ==> {
                &&& final(self).storage.exhausted()
                &&& final(self).wf()
                &&& partly_removed(
                    old(self)@,
                    victims::<K, V, F>(only(key.bytes()), filter),
                    final(self)@,
                )
            },
    {
        let range = BtreeKeyRange::new(copy_key(key), true, copy_key(key), true);
        let mut out = RemoveResult::new();
        let ghost sel = victims::<K, V, F>(range@, filter);
        let ghost s0 = self@;
        let ghost g0 = out.gone@;
        proof {
            self.lemma_ordered();
        }
        match self.root_walk_for_remove(&range, filter, &mut out) {
            Err(e) => Err(e),
            Ok(()) => {
                proof {
                    lemma_progress_done(sel, s0, g0, self@, out.gone@);
                    lemma_only_one::<K>(s0, sel, key.bytes(), out.gone@);
                }
                Ok(out.value)
            },
        }
    }

    /// Removes all entries in the range that the filter lets go, and answers how many.
    pub fn remove_range<F: RemoveFilter<K, V>>(
        &mut self,
        range: BtreeKeyRange<K>,
        filter: Option<&F>,
    ) -> (r: Result<u32, BtreeError>)
        requires
            old(self).wf(),
        ensures
            r matches Err(e) ==> old(self).storage.failures().contains(e),
            final(self).env_of(old(self)),
            r is Ok || old(self).storage.reliable() ==> final(self).keeps_told(old(self)),
            r is Ok ==> final(self).leaves_nothing(old(self)),
            r is Ok ==> final(self).keeps_variants(old(self)),
            r matches Ok(n) ==> {
                let sel = victims::<K, V, F>(range@, filter);
                &&& final(self).wf()
                &&& final(self)@ == old(self)@.filter(not(sel))
                &&& final(self).swept(old(self), range@, sel)
                &&& n == capped(old(self)@.filter(sel).len())
            },
            r is Err && old(self).storage.reliable() ==> {
                &&& final(self).storage.exhausted()
                &&& final(self).wf()
                &&& partly_removed(old(self)@, victims::<K, V, F>(range@, filter), final(self)@)
            },
    {
        self.remove_range_internal(&range, filter)
    }

    fn remove_range_internal<F: RemoveFilter<K, V>>(
        &mut self,
        range: &BtreeKeyRange<K>,
        filter: Option<&F>,
    ) -> (r: Result<u32, BtreeError>)
        requires
            old(self).wf(),
        ensures
            r matches Err(e) ==> old(self).storage.failures().contains(e),
            final(self).env_of(old(self)),
            r is Ok || old(self).storage.reliable() ==> final(self).keeps_told(old(self)),
            r is Ok ==> final(self).leaves_nothing(old(self)),
            r is Ok ==> final(self).keeps_variants(old(self)),
            r matches Ok(n) ==> {
                let sel = victims::<K, V, F>(range@, filter);
                &&& final(self).wf()
                &&& final(self)@ == old(self)@.filter(not(sel))
                &&& final(self).swept(old(self), range@, sel)
                &&& n == capped(old(self)@.filter(sel).len())
            },
            r is Err && old(self).storage.reliable() ==> {
                &&& final(self).storage.exhausted()
                &&& final(self).wf()
                &&& partly_removed(old(self)@, victims::<K, V, F>(range@, filter), final(self)@)
            },
    {
        let mut out = RemoveResult::new();
        let ghost sel = victims::<K, V, F>(range@, filter);
        let ghost s0 = self@;
        let ghost g0 = out.gone@;
        match self.root_walk_for_remove(range, filter, &mut out) {
            Err(e) => Err(e),
            Ok(()) => {
                proof {
                    lemma_progress_done(sel, s0, g0, self@, out.gone@);
                }
                Ok(out.removed)
            },
        }
    }
}

/// At most one entry has a given key.
proof fn lemma_only_one<K: BtreeKey>(
    s: Seq<KV>,
    sel: spec_fn(KV) -> bool,
    k: Seq<u8>,
    g: Gone,
)
    requires
        ordered::<K>(s),
        forall|e: KV| #[trigger] sel(e) ==> only(k).has::<K>(e.key),
        g.count == s.filter(sel).len(),
        g.count > 0 ==> sel(g.last) && s.contains(g.last),
    ensures
        pick(s, sel) == if g.count > 0 {
            Some(g.last)
        } else {
            None
        },
{
    if g.count > 0 {
        let i = choose|i: int| 0 <= i < s.len() && s[i] == g.last;
        let r = lemma_pick_some(s, sel, i);
        if r < i {
            // both entries would have the key
            assert(K::lt(s[r].key, s[i].key));
            lemma_lt_not_lt::<K>(s[r].key, s[i].key);
            K::lemma_irreflexive(k);
            lemma_only_key::<K>(k, s[r].key);
            lemma_only_key::<K>(k, s[i].key);
        }
    } else {
        assert forall|i: int| 0 <= i < s.len() implies !sel(#[trigger] s[i]) by {
            if sel(s[i]) {
                lemma_filter_contains(s, sel, s[i]);
                assert(s.contains(s[i]));
            }
        }
        lemma_pick_none(s, sel);
    }
}

/// A key in the range of a single key is that key.
pub proof fn lemma_only_key<K: BtreeKey>(k: Seq<u8>, x: Seq<u8>)
    ensures
        only(k).has::<K>(x) == (x == k),
{
    K::lemma_irreflexive(k);
    if K::lt(k, x) && K::lt(x, k) {
        lemma_lt_not_lt::<K>(k, x);
    }
}

//==============================================================================
// Any key of a range
//==============================================================================

/// Some entry with a key in the range, if there is one.
pub open spec fn some_in<K: BtreeKey>(s: Seq<KV>, range: RangeView, r: Option<Seq<u8>>) -> bool {
    match r {
        Some(k) => range.has::<K>(k) && exists|i: int| 0 <= i < s.len() && (#[trigger] s[i]).key == k,
        None => none_in::<K>(s, range),
    }
}

pub open spec fn opt_key<K: BtreeKey>(r: Option<K>) -> Option<Seq<u8>> {
    match r {
        Some(k) => Some(k.bytes()),
        None => None,
    }
}

/// The entries with keys in the range are those from `x` to `y`.
pub open spec fn spans<K: BtreeKey>(es: Seq<Entry>, range: RangeView, x: int, y: int) -> bool {
    &&& 0 <= x <= y < es.len()
    &&& forall|j: int| 0 <= j < es.len() ==> range.has::<K>((#[trigger] es[j]).key) == (x <= j <= y)
}

/// No key below a node is in the range.
pub open spec fn bare<K: BtreeKey>(t: Tree, range: RangeView) -> bool {
    forall|j: int| 0 <= j < flat(t).len() ==> !range.has::<K>((#[trigger] flat(t)[j]).key)
}

/// Child `i` is the one in the middle of those from `s` to `e`. If that has no key in the range, it
/// is the first one behind it that has some, or else the first one of all.
pub open spec fn nearest<K: BtreeKey>(t: Tree, range: RangeView, s: int, e: int, i: int) -> bool {
    let mid = s + (e - s) / 2;
    ||| {
        &&& mid <= i <= e
        &&& forall|j: int| mid <= j < i ==> bare::<K>(#[trigger] t.kid(j), range)
    }
    ||| {
        &&& s <= i < mid
        &&& forall|j: int|
            s <= j < i || mid <= j <= e ==> bare::<K>(#[trigger] t.kid(j), range)
    }
}

/// The key is the one in the middle of those in the range, in a leaf that is reached by way of the
/// children in the middle.
pub open spec fn central<K: BtreeKey>(t: Tree, range: RangeView, k: Seq<u8>) -> bool
    decreases t,
{
    if t.leaf {
        exists|x: int, y: int| #[trigger]
            spans::<K>(t.es, range, x, y) && k == t.es[x + (y - x) / 2].key
    } else {
        exists|i: int, x: int, y: int|
            {
                &&& 0 <= i < t.kids.len()
                &&& central::<K>(#[trigger] t.kid(i), range, k)
                &&& #[trigger] is_position::<K>(t.es, range.start, x)
                &&& #[trigger] is_position::<K>(t.es, range.end, y)
                &&& reach(t, x, y) matches Some((s, e)) && nearest::<K>(t, range, s, e, i)
            }
    }
}

proof fn lemma_central_kid<K: BtreeKey>(
    t: Tree,
    range: RangeView,
    k: Seq<u8>,
    i: int,
    x: int,
    y: int,
)
    requires
        !t.leaf,
        0 <= i < t.kids.len(),
        central::<K>(t.kid(i), range, k),
        is_position::<K>(t.es, range.start, x),
        is_position::<K>(t.es, range.end, y),
        reach(t, x, y) matches Some((s, e)) && nearest::<K>(t, range, s, e, i),
    ensures
        central::<K>(t, range, k),
{
}

proof fn lemma_bare<K: BtreeKey>(ov: Map<u64, Seq<u8>>, t: Tree, range: RangeView)
    requires
        none_in::<K>(kvs(ov, flat(t)), range),
    ensures
        bare::<K>(t, range),
{
    assert forall|j: int| 0 <= j < flat(t).len() implies !range.has::<K>(
        (#[trigger] flat(t)[j]).key,
    ) by {
        assert(kvs(ov, flat(t))[j].key == flat(t)[j].key);
    }
}

proof fn lemma_some_in_kid<K: BtreeKey>(
    a: Seq<KV>,
    m: Seq<KV>,
    b: Seq<KV>,
    range: RangeView,
    k: Seq<u8>,
)
    requires
        some_in::<K>(m, range, Some(k)),
    ensures
        some_in::<K>(a + m + b, range, Some(k)),
{
    let i = choose|i: int| 0 <= i < m.len() && (#[trigger] m[i]).key == k;
    assert((a + m + b)[a.len() + i].key == k);
}

proof fn lemma_none_in_add<K: BtreeKey>(a: Seq<KV>, b: Seq<KV>, range: RangeView)
    requires
        none_in::<K>(a, range),
        none_in::<K>(b, range),
    ensures
        none_in::<K>(a + b, range),
{
    let s = a + b;
    assert forall|j: int| 0 <= j < s.len() implies !range.has::<K>((#[trigger] s[j]).key) by {
        if j < a.len() {
            assert(s[j] == a[j]);
        } else {
            assert(s[j] == b[j - a.len()]);
        }
    }
}

impl<K: BtreeKey, V: BtreeValue, S: UnderlyingBtree> Btree<K, V, S> {
    /// Some key in the range below a node, from the middle of it if there are several.
    fn pick_any_walk(&self, node: &NodeCore, range: &BtreeKeyRange<K>, Ghost(w): Ghost<Place>) -> (r:
        Result<Option<K>, BtreeError>)
        requires
            self.at(node@, w),
        ensures
            r matches Err(e) ==> self.storage.failures().contains(e),
            r matches Ok(k) ==> some_in::<K>(self.kvs_at(w), range@, opt_key(k)),
            r matches Ok(Some(k)) ==> central::<K>(w.t, range@, k.bytes()),
            self.storage.reliable() ==> r is Ok,
        decreases w.t,
    {
        proof {
            self.lemma_at(node@, w);
        }
        if node.is_leaf() {
            let (matched, start_idx, end_idx) = self.leaf_ops.match_range::<K, V>(node, range);
            let ghost s = self.kvs_at(w);
            if !matched {
                proof {
                    assert forall|j: int| 0 <= j < s.len() implies !range@.has::<K>(
                        (#[trigger] s[j]).key,
                    ) by {
                        assert(s[j].key == w.t.es[j].key);
                    }
                }
                return Ok(None);
            }
            let idx: u32 = start_idx + (end_idx - start_idx) / 2;
            let key = self.leaf_key(node, idx, Ghost(w));
            proof {
                assert(range@.has::<K>(w.t.es[idx as int].key));
                assert(s[idx as int].key == key.bytes());
                assert(spans::<K>(w.t.es, range@, start_idx as int, end_idx as int));
            }
            return Ok(Some(key));
        }
        let (start_idx, end_idx) = match self.child_range(node, range, Ghost(w)) {
            Some(x) => x,
            None => {
                return Ok(None);
            },
        };
        let mid: u32 = start_idx + (end_idx - start_idx) / 2;
        let ghost (x, y) = choose|x: int, y: int|
            is_position::<K>(w.t.es, range@.start, x) && is_position::<K>(w.t.es, range@.end, y)
                && #[trigger] reach(w.t, x, y) == Some((start_idx as int, end_idx as int));
        // from the middle child up
        let ghost b0 = self.kvs_from(w, end_idx + 1);
        let mut idx: u32 = mid;
        let ghost mut seen = Seq::<KV>::empty();
        proof {
            assert(self.kvs_before(w, mid as int) =~= self.kvs_before(w, mid as int) + seen);
        }
        loop
            invariant_except_break
                self.kvs_before(w, idx as int) == self.kvs_before(w, mid as int) + seen,
            invariant
                self.at(node@, w),
                !w.t.leaf,
                start_idx <= mid <= idx <= end_idx,
                end_idx < w.t.kids.len(),
                none_in::<K>(seen, range@),
                mid == start_idx + (end_idx - start_idx) / 2,
                is_position::<K>(w.t.es, range@.start, x),
                is_position::<K>(w.t.es, range@.end, y),
                reach(w.t, x, y) == Some((start_idx as int, end_idx as int)),
                forall|j: int| mid <= j < idx ==> bare::<K>(#[trigger] w.t.kid(j), range@),
            ensures
                idx == end_idx,
                bare::<K>(w.t.kid(end_idx as int), range@),
                self.kvs_before(w, end_idx + 1) == self.kvs_before(w, mid as int) + seen,
                none_in::<K>(seen, range@),
            decreases end_idx - idx,
        {
            let child = match self.get_child(node, idx, Ghost(w)) {
                Ok(c) => c,
                Err(e) => {
                    return Err(e);
                },
            };
            let found = match self.pick_any_walk(&child, range, Ghost(w.kid(idx as int))) {
                Ok(k) => k,
                Err(e) => {
                    return Err(e);
                },
            };
            let ghost m = self.kvs_at(w.kid(idx as int));
            proof {
                self.lemma_kid_split(w, idx as int);
            }
            if found.is_some() {
                proof {
                    lemma_some_in_kid::<K>(
                        self.kvs_before(w, idx as int),
                        m,
                        self.kvs_from(w, idx + 1),
                        range@,
                        found->0.bytes(),
                    );
                    lemma_central_kid::<K>(w.t, range@, found->0.bytes(), idx as int, x, y);
                }
                return Ok(found);
            }
            proof {
                lemma_bare::<K>(self.storage.store().ov, w.t.kid(idx as int), range@);
                lemma_none_in_add::<K>(seen, m, range@);
                assert(self.kvs_before(w, idx + 1) =~= self.kvs_before(w, mid as int) + (seen + m));
                seen = seen + m;
            }
            if idx == end_idx {
                break;
            }
            idx = idx + 1;
        }
        // then those before it
        let mut idx: u32 = start_idx;
        while idx < mid
            invariant
                self.at(node@, w),
                !w.t.leaf,
                start_idx <= idx <= mid <= end_idx,
                end_idx < w.t.kids.len(),
                none_in::<K>(self.kvs_before(w, idx as int), range@),
                mid == start_idx + (end_idx - start_idx) / 2,
                is_position::<K>(w.t.es, range@.start, x),
                is_position::<K>(w.t.es, range@.end, y),
                reach(w.t, x, y) == Some((start_idx as int, end_idx as int)),
                forall|j: int|
                    start_idx <= j < idx || mid <= j <= end_idx ==> bare::<K>(
                        #[trigger] w.t.kid(j),
                        range@,
                    ),
            decreases mid - idx,
        {
            let child = match self.get_child(node, idx, Ghost(w)) {
                Ok(c) => c,
                Err(e) => {
                    return Err(e);
                },
            };
            let found = match self.pick_any_walk(&child, range, Ghost(w.kid(idx as int))) {
                Ok(k) => k,
                Err(e) => {
                    return Err(e);
                },
            };
            let ghost m = self.kvs_at(w.kid(idx as int));
            proof {
                self.lemma_kid_split(w, idx as int);
            }
            if found.is_some() {
                proof {
                    lemma_some_in_kid::<K>(
                        self.kvs_before(w, idx as int),
                        m,
                        self.kvs_from(w, idx + 1),
                        range@,
                        found->0.bytes(),
                    );
                    lemma_central_kid::<K>(w.t, range@, found->0.bytes(), idx as int, x, y);
                }
                return Ok(found);
            }
            proof {
                lemma_bare::<K>(self.storage.store().ov, w.t.kid(idx as int), range@);
                lemma_none_in_add::<K>(self.kvs_before(w, idx as int), m, range@);
            }
            idx = idx + 1;
        }
        proof {
            lemma_none_in_add::<K>(self.kvs_before(w, mid as int), seen, range@);
            self.lemma_kid_split(w, end_idx as int);
            lemma_none_in_add::<K>(self.kvs_before(w, end_idx + 1), b0, range@);
        }
        Ok(None)
    }

    /// Removes some key in the range, if there is one, and answers it with its value.
    pub fn remove_any(&mut self, range: BtreeKeyRange<K>) -> (r: Result<
        Option<(K, V)>,
        BtreeError,
    >)
        requires
            old(self).wf(),
        ensures
            r matches Err(e) ==> old(self).storage.failures().contains(e),
            final(self).env_of(old(self)),
            r is Ok || old(self).storage.reliable() ==> final(self).keeps_told(old(self)),
            r is Ok ==> final(self).leaves_nothing(old(self)),
            r is Ok ==> final(self).keeps_variants(old(self)),
            r matches Ok(Some((k, v))) ==> {
                let e = KV { key: k.bytes(), val: v.bytes() };
                &&& final(self).wf()
                &&& range@.has::<K>(e.key)
                &&& central::<K>(old(self).tree@, range@, e.key)
                &&& old(self)@.contains(e)
                &&& final(self)@ == old(self)@.filter(not(with_key(e.key)))
                &&& final(self).swept(
                    old(self),
                    only(e.key),
                    victims::<K, V, AcceptAll>(only(e.key), None),
                )
            },
            r matches Ok(None) ==> *final(self) == *old(self) && none_in::<K>(old(self)@, range@),
            r is Err && old(self).storage.reliable() ==> {
                &&& final(self).storage.exhausted()
                &&& final(self).wf()
                &&& forall|e: KV| #[trigger] final(self)@.contains(e) ==> old(self)@.contains(e)
            },
    {
        self.remove_any_internal(&range)
    }

    fn remove_any_internal(&mut self, range: &BtreeKeyRange<K>) -> (r: Result<
        Option<(K, V)>,
        BtreeError,
    >)
        requires
            old(self).wf(),
        ensures
            r matches Err(e) ==> old(self).storage.failures().contains(e),
            final(self).env_of(old(self)),
            r is Ok || old(self).storage.reliable() ==> final(self).keeps_told(old(self)),
            r is Ok ==> final(self).leaves_nothing(old(self)),
            r is Ok ==> final(self).keeps_variants(old(self)),
            r matches Ok(Some((k, v))) ==> {
                let e = KV { key: k.bytes(), val: v.bytes() };
                &&& final(self).wf()
                &&& range@.has::<K>(e.key)
                &&& central::<K>(old(self).tree@, range@, e.key)
                &&& old(self)@.contains(e)
                &&& final(self)@ == old(self)@.filter(not(with_key(e.key)))
                &&& final(self).swept(
                    old(self),
                    only(e.key),
                    victims::<K, V, AcceptAll>(only(e.key), None),
                )
            },
            r matches Ok(None) ==> *final(self) == *old(self) && none_in::<K>(old(self)@, range@),
            r is Err && old(self).storage.reliable() ==> {
                &&& final(self).storage.exhausted()
                &&& final(self).wf()
                &&& forall|e: KV| #[trigger] final(self)@.contains(e) ==> old(self)@.contains(e)
            },
    {
        proof {
            lemma_tidy_same(self.storage.store(), self.tree@);
            lemma_alike_same(self.config, self.storage.store());
        }
        let root = match self.read_root() {
            Ok(c) => c,
            Err(e) => {
                return Err(e);
            },
        };
        let key = match self.pick_any_walk(&root, range, Ghost(self.top())) {
            Ok(Some(k)) => k,
            Ok(None) => {
                return Ok(None);
            },
            Err(e) => {
                return Err(e);
            },
        };
        let ghost s0 = self@;
        let ghost k = key.bytes();
        let ghost sel = victims::<K, V, AcceptAll>(only(k), None);
        proof {
            self.lemma_ordered();
            let i = choose|i: int| 0 <= i < s0.len() && (#[trigger] s0[i]).key == k;
            lemma_only_key::<K>(k, k);
            let r = lemma_pick_some(s0, sel, i);
            assert forall|e: KV| #[trigger] sel(e) == with_key(k)(e) by {
                lemma_only_key::<K>(k, e.key);
            }
            assert(not(sel) =~= not(with_key(k)));
            assert(s0.contains(s0[r]));
        }
        match self.remove_one_internal::<AcceptAll>(&key, None) {
            Ok(Some(v)) => Ok(Some((key, v))),
            Ok(None) => {
                proof {
                    assert(false);
                }
                Ok(None)
            },
            Err(e) => Err(e),
        }
    }
}

} // verus!
